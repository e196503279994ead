use vstd::prelude::*;

use crate::bytes::{copy_bytes, copy_opt_bytes, is_address, is_word, opt_bytes_view, SIGNATURE_LEN};
use crate::channel::{event_matches, frame_ok, DomainEvent, Frame};
use crate::decode::{
    block_frame_ok, block_matches, copy_header, header_ok, header_same, tx_frame_ok, Block,
    BlockFrame, HeaderFrame, SealedHeader, Transaction, TransactionFrame,
};
use crate::delta::{
    account_in, account_ok, account_same, bundle_ok, bundles_same, delta_matches, delta_same, deltas_match,
    entry_from, entry_is, has_delta, has_entry, delta_from, lemma_reconstruct_canonical,
    slot_in, slots_same, AccountDelta, AccountInfo, BundleAccount, LedgerBundle, StateUpdate,
    StateUpdateFrame, StorageSlot,
};
use crate::bytes::{lemma_lex_irreflexive, lex_lt};
use crate::lifecycle::{chain_matches, Lifecycle, LifecycleFrame, NotificationFrame};

verus! {

pub open spec fn tx_wf(t: Transaction) -> bool {
    &&& is_word(t.hash@)
    &&& is_address(t.from@)
    &&& (t.to is Some ==> is_address(t.to->0@))
    &&& is_word(t.value@)
    &&& t.signature@.len() == SIGNATURE_LEN
}

pub open spec fn tx_same(a: Transaction, b: Transaction) -> bool {
    &&& a.hash@ == b.hash@
    &&& a.from@ == b.from@
    &&& a.nonce == b.nonce
    &&& opt_bytes_view(a.to) == opt_bytes_view(b.to)
    &&& a.value@ == b.value@
    &&& a.input@ == b.input@
    &&& a.signature@ == b.signature@
}

pub open spec fn sealed_wf(h: SealedHeader) -> bool {
    header_ok(h.header) && is_word(h.hash@)
}

pub open spec fn sealed_same(a: SealedHeader, b: SealedHeader) -> bool {
    header_same(a.header, b.header) && a.hash@ == b.hash@
}

pub open spec fn block_wf(b: Block) -> bool {
    &&& sealed_wf(b.header)
    &&& forall|i: int| 0 <= i < b.transactions@.len() ==> tx_wf(#[trigger] b.transactions@[i])
}

pub open spec fn block_same(a: Block, b: Block) -> bool {
    &&& sealed_same(a.header, b.header)
    &&& a.transactions@.len() == b.transactions@.len()
    &&& forall|i: int|
        0 <= i < a.transactions@.len() ==> tx_same(
            #[trigger] a.transactions@[i],
            b.transactions@[i],
        )
}

/// A delta in the form the reconstruction gives: fields of their width,
/// balance and nonce together, code only with them, and slots in strictly
/// increasing order.
pub open spec fn delta_wf(d: AccountDelta) -> bool {
    &&& is_address(d.address@)
    &&& (d.balance is Some <==> d.nonce is Some)
    &&& (d.code is Some ==> d.balance is Some)
    &&& (d.balance is Some ==> is_word(d.balance->0@))
    &&& forall|k: int|
        0 <= k < d.storage@.len() ==> is_word((#[trigger] d.storage@[k]).slot@) && is_word(
            d.storage@[k].value@,
        )
    &&& forall|a: int, b: int|
        0 <= a < b < d.storage@.len() ==> lex_lt(
            (#[trigger] d.storage@[a]).slot@,
            (#[trigger] d.storage@[b]).slot@,
        )
}

/// A state update in the form the reconstruction gives: deltas in strictly
/// increasing order of address.
pub open spec fn update_wf(u: StateUpdate) -> bool {
    &&& is_word(u.block_hash@)
    &&& forall|i: int| 0 <= i < u.accounts@.len() ==> delta_wf(#[trigger] u.accounts@[i])
    &&& forall|i: int, j: int|
        0 <= i < j < u.accounts@.len() ==> lex_lt(
            (#[trigger] u.accounts@[i]).address@,
            (#[trigger] u.accounts@[j]).address@,
        )
}

pub open spec fn update_same(a: StateUpdate, b: StateUpdate) -> bool {
    &&& a.block_hash@ == b.block_hash@
    &&& a.accounts@.len() == b.accounts@.len()
    &&& forall|i: int|
        0 <= i < a.accounts@.len() ==> delta_same(#[trigger] a.accounts@[i], b.accounts@[i])
}

/// The bundle entry that records delta `d`; the value before the block is
/// not known to the delta and is written as the present value.
pub fn encode_delta(d: &AccountDelta) -> (r: BundleAccount)
    ensures
        r.address@ == d.address@,
        delta_wf(*d) ==> account_ok(r) && delta_matches(*d, r),
{
    let mut slots: Vec<StorageSlot> = Vec::new();
    let mut k: usize = 0;
    while k < d.storage.len()
        invariant
            k <= d.storage@.len(),
            slots@.len() == k,
            forall|m: int|
                0 <= m < k ==> (#[trigger] slots@[m]).slot@ == d.storage@[m].slot@
                    && slots@[m].present_value@ == d.storage@[m].value@
                    && slots@[m].original_value@ == d.storage@[m].value@,
        decreases d.storage@.len() - k,
    {
        let e = &d.storage[k];
        slots.push(
            StorageSlot {
                slot: copy_bytes(&e.slot),
                original_value: copy_bytes(&e.value),
                present_value: copy_bytes(&e.value),
            },
        );
        k = k + 1;
    }
    let info = match (&d.balance, d.nonce) {
        (Some(balance), Some(nonce)) => Some(
            AccountInfo { balance: copy_bytes(balance), nonce, code: copy_opt_bytes(&d.code) },
        ),
        _ => None,
    };
    let r = BundleAccount { address: copy_bytes(&d.address), info, storage: slots };
    proof {
        if delta_wf(*d) {
            let st = r.storage@;
            assert forall|a: int, b: int|
                0 <= a < st.len() && 0 <= b < st.len() && a != b implies (#[trigger] st[a]).slot@
                    != (#[trigger] st[b]).slot@ by {
                if a < b {
                    assert(lex_lt(d.storage@[a].slot@, d.storage@[b].slot@));
                    lemma_lex_irreflexive(st[a].slot@);
                } else {
                    assert(lex_lt(d.storage@[b].slot@, d.storage@[a].slot@));
                    lemma_lex_irreflexive(st[b].slot@);
                }
            }
            assert forall|m: int| 0 <= m < st.len() implies has_entry(
                d.storage@,
                #[trigger] st[m],
            ) by {
                reveal(has_entry);
                assert(entry_is(d.storage@[m], st[m]));
            }
            assert forall|a: int| 0 <= a < d.storage@.len() implies entry_from(
                #[trigger] d.storage@[a],
                st,
            ) by {
                reveal(entry_from);
                assert(entry_is(d.storage@[a], st[a]));
            }
        }
    }
    r
}

pub fn encode_update(u: &StateUpdate) -> (r: StateUpdateFrame)
    ensures
        r.hash@ == u.block_hash@,
        r.bundle is Some,
        update_wf(*u) ==> bundle_ok(r.bundle->0.accounts@) && deltas_match(
            u.accounts@,
            r.bundle->0.accounts@,
        ),
{
    let mut accounts: Vec<BundleAccount> = Vec::new();
    let mut i: usize = 0;
    while i < u.accounts.len()
        invariant
            i <= u.accounts@.len(),
            accounts@.len() == i,
            forall|j: int|
                0 <= j < i ==> (#[trigger] accounts@[j]).address@ == u.accounts@[j].address@,
            forall|j: int|
                0 <= j < i ==> (delta_wf(u.accounts@[j]) ==> account_ok(#[trigger] accounts@[j])
                    && delta_matches(u.accounts@[j], accounts@[j])),
        decreases u.accounts@.len() - i,
    {
        accounts.push(encode_delta(&u.accounts[i]));
        i = i + 1;
    }
    proof {
        if update_wf(*u) {
            let b = accounts@;
            let o = u.accounts@;
            assert forall|j: int| 0 <= j < b.len() implies account_ok(#[trigger] b[j]) by {
                assert(delta_wf(o[j]));
            }
            assert forall|a: int, c: int|
                0 <= a < b.len() && 0 <= c < b.len() && a != c implies (#[trigger] b[a]).address@
                    != (#[trigger] b[c]).address@ by {
                if a < c {
                    assert(lex_lt(o[a].address@, o[c].address@));
                    lemma_lex_irreflexive(o[a].address@);
                } else {
                    assert(lex_lt(o[c].address@, o[a].address@));
                    lemma_lex_irreflexive(o[c].address@);
                }
            }
            assert forall|j: int| 0 <= j < b.len() implies has_delta(o, #[trigger] b[j]) by {
                assert(delta_wf(o[j]));
                assert(delta_matches(o[j], b[j]));
            }
            assert forall|j: int| 0 <= j < o.len() implies delta_from(#[trigger] o[j], b) by {
                assert(delta_wf(o[j]));
                assert(delta_matches(o[j], b[j]));
            }
        }
    }
    StateUpdateFrame { hash: copy_bytes(&u.block_hash), bundle: Some(LedgerBundle { accounts }) }
}

pub proof fn lemma_slots_same_reflexive(s: Seq<StorageSlot>)
    ensures
        slots_same(s, s),
{
    reveal(slots_same);
    assert forall|k: int| 0 <= k < s.len() implies slot_in(#[trigger] s[k], s) by {
        assert(s[k].slot@ == s[k].slot@);
    }
}

/// Every bundle is the same mapping as itself.
pub proof fn lemma_bundles_same_reflexive(b: Seq<BundleAccount>)
    ensures
        bundles_same(b, b),
{
    assert forall|i: int| 0 <= i < b.len() implies account_in(#[trigger] b[i], b) by {
        lemma_slots_same_reflexive(b[i].storage@);
        assert(account_same(b[i], b[i]));
    }
}

pub open spec fn chain_wf(c: Seq<Block>) -> bool {
    forall|i: int| 0 <= i < c.len() ==> block_wf(#[trigger] c[i])
}

pub open spec fn chain_same(a: Seq<Block>, b: Seq<Block>) -> bool {
    &&& a.len() == b.len()
    &&& forall|i: int| 0 <= i < a.len() ==> block_same(#[trigger] a[i], b[i])
}

pub open spec fn lifecycle_wf(l: Lifecycle) -> bool {
    match l {
        Lifecycle::ChainCommitted { new } => chain_wf(new@),
        Lifecycle::ChainReorged { old, new } => chain_wf(old@) && chain_wf(new@),
        Lifecycle::ChainReverted { old } => chain_wf(old@),
    }
}

pub open spec fn lifecycle_same(a: Lifecycle, b: Lifecycle) -> bool {
    match (a, b) {
        (Lifecycle::ChainCommitted { new: x }, Lifecycle::ChainCommitted { new: y }) => chain_same(
            x@,
            y@,
        ),
        (
            Lifecycle::ChainReorged { old: xo, new: xn },
            Lifecycle::ChainReorged { old: yo, new: yn },
        ) => chain_same(xo@, yo@) && chain_same(xn@, yn@),
        (Lifecycle::ChainReverted { old: x }, Lifecycle::ChainReverted { old: y }) => chain_same(
            x@,
            y@,
        ),
        _ => false,
    }
}

/// Events that the encoder can put on the wire: every kind but logs, whose
/// event does not carry the block they were matched against, with
/// fixed-width fields of their width and state updates in the canonical form
/// that the reconstruction gives.
pub open spec fn event_wf(e: DomainEvent) -> bool {
    match e {
        DomainEvent::Transaction(t) => tx_wf(t),
        DomainEvent::Header(h) => sealed_wf(h),
        DomainEvent::Block(b) => block_wf(b),
        DomainEvent::StateUpdate(u) => update_wf(u),
        DomainEvent::Lifecycle(l) => lifecycle_wf(l),
        _ => false,
    }
}

pub open spec fn event_same(a: DomainEvent, b: DomainEvent) -> bool {
    match (a, b) {
        (DomainEvent::Transaction(x), DomainEvent::Transaction(y)) => tx_same(x, y),
        (DomainEvent::Header(x), DomainEvent::Header(y)) => sealed_same(x, y),
        (DomainEvent::Block(x), DomainEvent::Block(y)) => block_same(x, y),
        (DomainEvent::StateUpdate(x), DomainEvent::StateUpdate(y)) => update_same(x, y),
        (DomainEvent::Lifecycle(x), DomainEvent::Lifecycle(y)) => lifecycle_same(x, y),
        _ => false,
    }
}

pub fn encode_chain(c: &Vec<Block>) -> (r: Vec<BlockFrame>)
    requires
        chain_wf(c@),
    ensures
        r@.len() == c@.len(),
        forall|i: int| 0 <= i < r@.len() ==> block_frame_ok(#[trigger] r@[i]),
        forall|i: int, x: Block|
            0 <= i < r@.len() && #[trigger] block_matches(x, r@[i]) ==> block_same(x, c@[i]),
{
    let mut out: Vec<BlockFrame> = Vec::new();
    let mut i: usize = 0;
    while i < c.len()
        invariant
            chain_wf(c@),
            i <= c@.len(),
            out@.len() == i,
            forall|j: int| 0 <= j < i ==> block_frame_ok(#[trigger] out@[j]),
            forall|j: int, x: Block|
                0 <= j < i && #[trigger] block_matches(x, out@[j]) ==> block_same(x, c@[j]),
        decreases c@.len() - i,
    {
        assert(block_wf(c@[i as int]));
        let f = encode_block(&c[i]);
        proof {
            assert forall|m: int| 0 <= m < f.transactions@.len() implies tx_frame_ok(
                #[trigger] f.transactions@[m],
            ) && is_address(f.senders@[m]@) by {
                assert(tx_wf(c@[i as int].transactions@[m]));
            }
            assert(block_frame_ok(f));
        }
        out.push(f);
        i = i + 1;
    }
    out
}

pub proof fn lemma_chain_round_trip(x: Seq<Block>, fs: Seq<BlockFrame>, c: Seq<Block>)
    requires
        fs.len() == c.len(),
        forall|i: int, y: Block|
            0 <= i < fs.len() && #[trigger] block_matches(y, fs[i]) ==> block_same(y, c[i]),
        chain_matches(x, fs),
    ensures
        chain_same(x, c),
{
    assert forall|i: int| 0 <= i < x.len() implies block_same(#[trigger] x[i], c[i]) by {
        assert(block_matches(x[i], fs[i]));
    }
}

pub fn encode_transaction(t: &Transaction) -> (r: TransactionFrame)
    ensures
        r.hash@ == t.hash@,
        r.nonce == t.nonce,
        opt_bytes_view(r.to) == opt_bytes_view(t.to),
        r.value@ == t.value@,
        r.input@ == t.input@,
        r.signature@ == t.signature@,
{
    TransactionFrame {
        hash: copy_bytes(&t.hash),
        nonce: t.nonce,
        to: copy_opt_bytes(&t.to),
        value: copy_bytes(&t.value),
        input: copy_bytes(&t.input),
        signature: copy_bytes(&t.signature),
    }
}

pub fn encode_block(b: &Block) -> (r: BlockFrame)
    ensures
        r.header is Some,
        header_same(r.header->0, b.header.header),
        r.hash@ == b.header.hash@,
        r.transactions@.len() == b.transactions@.len(),
        r.senders@.len() == b.transactions@.len(),
        forall|i: int|
            0 <= i < r.transactions@.len() ==> {
                let t = b.transactions@[i];
                let f = #[trigger] r.transactions@[i];
                &&& f.hash@ == t.hash@
                &&& f.nonce == t.nonce
                &&& opt_bytes_view(f.to) == opt_bytes_view(t.to)
                &&& f.value@ == t.value@
                &&& f.input@ == t.input@
                &&& f.signature@ == t.signature@
                &&& r.senders@[i]@ == t.from@
            },
{
    let mut txs: Vec<TransactionFrame> = Vec::new();
    let mut senders: Vec<Vec<u8>> = Vec::new();
    let mut i: usize = 0;
    while i < b.transactions.len()
        invariant
            i <= b.transactions@.len(),
            txs@.len() == i,
            senders@.len() == i,
            forall|k: int|
                0 <= k < i ==> {
                    let t = b.transactions@[k];
                    let f = #[trigger] txs@[k];
                    &&& f.hash@ == t.hash@
                    &&& f.nonce == t.nonce
                    &&& opt_bytes_view(f.to) == opt_bytes_view(t.to)
                    &&& f.value@ == t.value@
                    &&& f.input@ == t.input@
                    &&& f.signature@ == t.signature@
                    &&& senders@[k]@ == t.from@
                },
        decreases b.transactions@.len() - i,
    {
        txs.push(encode_transaction(&b.transactions[i]));
        senders.push(copy_bytes(&b.transactions[i].from));
        i = i + 1;
    }
    BlockFrame {
        header: Some(copy_header(&b.header.header)),
        hash: copy_bytes(&b.header.hash),
        transactions: txs,
        senders,
    }
}

pub fn tx_is_encodable(t: &Transaction) -> (r: bool)
    ensures
        r == tx_wf(*t),
{
    let to_ok = match &t.to {
        Some(to) => to.len() == crate::bytes::ADDRESS_LEN,
        None => true,
    };
    t.hash.len() == crate::bytes::WORD_LEN && t.from.len() == crate::bytes::ADDRESS_LEN && to_ok
        && t.value.len() == crate::bytes::WORD_LEN && t.signature.len() == SIGNATURE_LEN
}

pub fn block_is_encodable(b: &Block) -> (r: bool)
    ensures
        r == block_wf(*b),
{
    let h = &b.header.header;
    if h.parent_hash.len() != crate::bytes::WORD_LEN || h.beneficiary.len()
        != crate::bytes::ADDRESS_LEN || h.state_root.len() != crate::bytes::WORD_LEN
        || h.difficulty.len() != crate::bytes::WORD_LEN || b.header.hash.len() != crate::bytes::WORD_LEN {
        return false;
    }
    let mut i: usize = 0;
    while i < b.transactions.len()
        invariant
            i <= b.transactions@.len(),
            forall|j: int| 0 <= j < i ==> tx_wf(#[trigger] b.transactions@[j]),
        decreases b.transactions@.len() - i,
    {
        if !tx_is_encodable(&b.transactions[i]) {
            return false;
        }
        i = i + 1;
    }
    true
}

pub fn chain_is_encodable(c: &Vec<Block>) -> (r: bool)
    ensures
        r == chain_wf(c@),
{
    let mut i: usize = 0;
    while i < c.len()
        invariant
            i <= c@.len(),
            forall|j: int| 0 <= j < i ==> block_wf(#[trigger] c@[j]),
        decreases c@.len() - i,
    {
        if !block_is_encodable(&c[i]) {
            return false;
        }
        i = i + 1;
    }
    true
}

pub fn lifecycle_is_encodable(l: &Lifecycle) -> (r: bool)
    ensures
        r == lifecycle_wf(*l),
{
    match l {
        Lifecycle::ChainCommitted { new } => chain_is_encodable(new),
        Lifecycle::ChainReorged { old, new } => chain_is_encodable(old) && chain_is_encodable(new),
        Lifecycle::ChainReverted { old } => chain_is_encodable(old),
    }
}

/// Puts an event on the wire (`None` for logs, and for a lifecycle
/// notification that no frame can carry). Decoding the frame gives the event back: the frame decodes,
/// and whatever it decodes to equals `e` field for field.
pub fn encode_event(e: &DomainEvent) -> (r: Option<Frame>)
    ensures
        r is Some <==> (e is Transaction || e is Header || e is Block || e is StateUpdate || (e is Lifecycle && lifecycle_wf(e->Lifecycle_0))),
        r is Some && event_wf(*e) ==> frame_ok(r->0),
        r is Some && event_wf(*e) ==> forall|d: DomainEvent|
            #[trigger] event_matches(d, r->0) ==> event_same(d, *e),
{
    match e {
        DomainEvent::Transaction(t) => Some(
            Frame::MempoolTransaction {
                frame: encode_transaction(t),
                recovered: Some(copy_bytes(&t.from)),
            },
        ),
        DomainEvent::Header(h) => Some(
            Frame::Header(
                HeaderFrame { header: Some(copy_header(&h.header)), hash: copy_bytes(&h.hash) },
            ),
        ),
        DomainEvent::Block(b) => {
            let f = encode_block(b);
            proof {
                if event_wf(*e) {
                    assert forall|i: int| 0 <= i < f.transactions@.len() implies
                        crate::decode::tx_frame_ok(#[trigger] f.transactions@[i]) && is_address(
                            f.senders@[i]@,
                        ) by {
                        assert(tx_wf(b.transactions@[i]));
                    }
                }
            }
            Some(Frame::Block(f))
        },
        DomainEvent::StateUpdate(u) => {
            let f = encode_update(u);
            proof {
                if event_wf(*e) {
                    let b = f.bundle->0.accounts@;
                    assert forall|d: DomainEvent| #[trigger]
                        event_matches(d, Frame::StateUpdate(f)) implies event_same(d, *e) by {
                        if let DomainEvent::StateUpdate(x) = d {
                            lemma_bundles_same_reflexive(b);
                            lemma_reconstruct_canonical(b, b, x.accounts@, u.accounts@);
                        }
                    }
                }
            }
            Some(Frame::StateUpdate(f))
        },
        DomainEvent::Lifecycle(l) => {
            if !lifecycle_is_encodable(l) {
                return None;
            }
            let n = match l {
                Lifecycle::ChainCommitted { new } => NotificationFrame::ChainCommitted {
                    new: Some(encode_chain(new)),
                },
                Lifecycle::ChainReorged { old, new } => NotificationFrame::ChainReorged {
                    old: Some(encode_chain(old)),
                    new: Some(encode_chain(new)),
                },
                Lifecycle::ChainReverted { old } => NotificationFrame::ChainReverted {
                    old: Some(encode_chain(old)),
                },
            };
            let f = LifecycleFrame { notification: Some(n) };
            proof {
                assert forall|d: DomainEvent| #[trigger]
                    event_matches(d, Frame::Lifecycle(f)) implies event_same(d, *e) by {
                    if let DomainEvent::Lifecycle(x) = d {
                        match (x, l, n) {
                            (
                                Lifecycle::ChainCommitted { new: xn },
                                Lifecycle::ChainCommitted { new: ln },
                                NotificationFrame::ChainCommitted { new: nf },
                            ) => {
                                lemma_chain_round_trip(xn@, nf->0@, ln@);
                            },
                            (
                                Lifecycle::ChainReorged { old: xo, new: xn },
                                Lifecycle::ChainReorged { old: lo, new: ln },
                                NotificationFrame::ChainReorged { old: of, new: nf },
                            ) => {
                                lemma_chain_round_trip(xo@, of->0@, lo@);
                                lemma_chain_round_trip(xn@, nf->0@, ln@);
                            },
                            (
                                Lifecycle::ChainReverted { old: xo },
                                Lifecycle::ChainReverted { old: lo },
                                NotificationFrame::ChainReverted { old: of },
                            ) => {
                                lemma_chain_round_trip(xo@, of->0@, lo@);
                            },
                            _ => {},
                        }
                    }
                }
            }
            Some(Frame::Lifecycle(f))
        },
        _ => None,
    }
}

} // verus!
