use vstd::prelude::*;

use crate::decode::{block_frame_ok, block_matches, decode_block, Block, BlockFrame};

verus! {

/// The payload of a lifecycle notification as it arrives.
#[derive(Clone, Debug, PartialEq, Eq)]
pub enum NotificationFrame {
    ChainCommitted { new: Option<Vec<BlockFrame>> },
    ChainReorged { old: Option<Vec<BlockFrame>>, new: Option<Vec<BlockFrame>> },
    ChainReverted { old: Option<Vec<BlockFrame>> },
}

/// A lifecycle notification frame; its payload may be missing, as from a
/// producer that speaks another protocol version.
#[derive(Clone, Debug, PartialEq, Eq)]
pub struct LifecycleFrame {
    pub notification: Option<NotificationFrame>,
}

/// A change to the canonical chain, with the blocks it affects.
#[derive(Clone, Debug, PartialEq, Eq)]
pub enum Lifecycle {
    ChainCommitted { new: Vec<Block> },
    ChainReorged { old: Vec<Block>, new: Vec<Block> },
    ChainReverted { old: Vec<Block> },
}

pub open spec fn chain_ok(c: Option<Vec<BlockFrame>>) -> bool {
    &&& c is Some
    &&& forall|i: int| 0 <= i < c->0@.len() ==> block_frame_ok(#[trigger] c->0@[i])
}

pub open spec fn chain_matches(bs: Seq<Block>, fs: Seq<BlockFrame>) -> bool {
    &&& bs.len() == fs.len()
    &&& forall|i: int| 0 <= i < bs.len() ==> block_matches(#[trigger] bs[i], fs[i])
}

pub open spec fn lifecycle_frame_ok(f: LifecycleFrame) -> bool {
    match f.notification {
        Some(NotificationFrame::ChainCommitted { new }) => chain_ok(new),
        Some(NotificationFrame::ChainReorged { old, new }) => chain_ok(old) && chain_ok(new),
        Some(NotificationFrame::ChainReverted { old }) => chain_ok(old),
        None => false,
    }
}

/// `l` is the notification of frame `f`, variant for variant.
pub open spec fn lifecycle_matches(l: Lifecycle, f: LifecycleFrame) -> bool {
    match (l, f.notification) {
        (Lifecycle::ChainCommitted { new }, Some(NotificationFrame::ChainCommitted { new: nf })) =>
            chain_matches(new@, nf->0@),
        (
            Lifecycle::ChainReorged { old, new },
            Some(NotificationFrame::ChainReorged { old: of, new: nf }),
        ) => chain_matches(old@, of->0@) && chain_matches(new@, nf->0@),
        (Lifecycle::ChainReverted { old }, Some(NotificationFrame::ChainReverted { old: of })) =>
            chain_matches(old@, of->0@),
        _ => false,
    }
}

/// Decodes every block of a chain; `None` when the chain is missing or one
/// of its blocks does not decode.
pub fn decode_chain(c: &Option<Vec<BlockFrame>>) -> (r: Option<Vec<Block>>)
    ensures
        r is Some <==> chain_ok(*c),
        r is Some ==> chain_matches(r->0@, c->0@),
{
    let fs = match c {
        Some(fs) => fs,
        None => return None,
    };
    let mut out: Vec<Block> = Vec::new();
    let mut i: usize = 0;
    while i < fs.len()
        invariant
            i <= fs@.len(),
            c is Some && c->0@ == fs@,
            out@.len() == i,
            forall|k: int| 0 <= k < i ==> block_frame_ok(#[trigger] fs@[k]),
            forall|k: int| 0 <= k < i ==> block_matches(#[trigger] out@[k], fs@[k]),
        decreases fs@.len() - i,
    {
        match decode_block(&fs[i]) {
            Some(b) => out.push(b),
            None => {
                assert(!block_frame_ok(c->0@[i as int]));
                return None;
            },
        }
        i = i + 1;
    }
    Some(out)
}

/// Decodes a lifecycle notification; `None` when its payload is missing or
/// one of the chains it carries does not decode.
pub fn decode_lifecycle(f: &LifecycleFrame) -> (r: Option<Lifecycle>)
    ensures
        r is Some <==> lifecycle_frame_ok(*f),
        r is Some ==> lifecycle_matches(r->0, *f),
{
    match &f.notification {
        Some(NotificationFrame::ChainCommitted { new }) => match decode_chain(new) {
            Some(new) => Some(Lifecycle::ChainCommitted { new }),
            None => None,
        },
        Some(NotificationFrame::ChainReorged { old, new }) => {
            let old = match decode_chain(old) {
                Some(o) => o,
                None => return None,
            };
            match decode_chain(new) {
                Some(new) => Some(Lifecycle::ChainReorged { old, new }),
                None => None,
            }
        },
        Some(NotificationFrame::ChainReverted { old }) => match decode_chain(old) {
            Some(old) => Some(Lifecycle::ChainReverted { old }),
            None => None,
        },
        None => None,
    }
}

} // verus!
