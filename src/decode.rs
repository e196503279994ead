use vstd::prelude::*;

use crate::bytes::{
    copy_bytes, copy_opt_bytes, hash_from_slice, is_address, is_word, opt_bytes_view,
    SIGNATURE_LEN,
};

verus! {

/// A signed transaction as it arrives on the wire.
#[derive(Clone, Debug, PartialEq, Eq)]
pub struct TransactionFrame {
    pub hash: Vec<u8>,
    pub nonce: u64,
    pub to: Option<Vec<u8>>,
    pub value: Vec<u8>,
    pub input: Vec<u8>,
    pub signature: Vec<u8>,
}

/// A transaction together with the account that signed it.
#[derive(Clone, Debug, PartialEq, Eq)]
pub struct Transaction {
    pub hash: Vec<u8>,
    pub from: Vec<u8>,
    pub nonce: u64,
    pub to: Option<Vec<u8>>,
    pub value: Vec<u8>,
    pub input: Vec<u8>,
    pub signature: Vec<u8>,
}

/// Header fields; on the wire they arrive unchecked, in a decoded header the
/// fixed-width ones have their width.
#[derive(Clone, Debug, PartialEq, Eq)]
pub struct Header {
    pub parent_hash: Vec<u8>,
    pub beneficiary: Vec<u8>,
    pub state_root: Vec<u8>,
    pub number: u64,
    pub gas_limit: u64,
    pub gas_used: u64,
    pub timestamp: u64,
    pub difficulty: Vec<u8>,
    pub base_fee: Option<u64>,
    pub extra_data: Vec<u8>,
}

/// A header notification: the header, which may be missing, and the hash the
/// producer declared for it.
#[derive(Clone, Debug, PartialEq, Eq)]
pub struct HeaderFrame {
    pub header: Option<Header>,
    pub hash: Vec<u8>,
}

/// A header with its authoritative hash.
#[derive(Clone, Debug, PartialEq, Eq)]
pub struct SealedHeader {
    pub header: Header,
    pub hash: Vec<u8>,
}

/// A sealed block as it arrives, with the sender of each transaction.
#[derive(Clone, Debug, PartialEq, Eq)]
pub struct BlockFrame {
    pub header: Option<Header>,
    pub hash: Vec<u8>,
    pub transactions: Vec<TransactionFrame>,
    pub senders: Vec<Vec<u8>>,
}

/// A block with its full transaction bodies.
#[derive(Clone, Debug, PartialEq, Eq)]
pub struct Block {
    pub header: SealedHeader,
    pub transactions: Vec<Transaction>,
}

pub open spec fn tx_frame_ok(f: TransactionFrame) -> bool {
    &&& is_word(f.hash@)
    &&& (f.to is Some ==> is_address(f.to->0@))
    &&& is_word(f.value@)
    &&& f.signature@.len() == SIGNATURE_LEN
}

/// `t` is the frame `f` signed by `sender`.
pub open spec fn tx_matches(t: Transaction, f: TransactionFrame, sender: Seq<u8>) -> bool {
    &&& t.hash@ == f.hash@
    &&& t.from@ == sender
    &&& t.nonce == f.nonce
    &&& opt_bytes_view(t.to) == opt_bytes_view(f.to)
    &&& t.value@ == f.value@
    &&& t.input@ == f.input@
    &&& t.signature@ == f.signature@
}

pub open spec fn header_ok(h: Header) -> bool {
    &&& is_word(h.parent_hash@)
    &&& is_address(h.beneficiary@)
    &&& is_word(h.state_root@)
    &&& is_word(h.difficulty@)
}

pub open spec fn header_same(a: Header, b: Header) -> bool {
    &&& a.parent_hash@ == b.parent_hash@
    &&& a.beneficiary@ == b.beneficiary@
    &&& a.state_root@ == b.state_root@
    &&& a.number == b.number
    &&& a.gas_limit == b.gas_limit
    &&& a.gas_used == b.gas_used
    &&& a.timestamp == b.timestamp
    &&& a.difficulty@ == b.difficulty@
    &&& a.base_fee == b.base_fee
    &&& a.extra_data@ == b.extra_data@
}

pub open spec fn header_frame_ok(f: HeaderFrame) -> bool {
    &&& f.header is Some
    &&& header_ok(f.header->0)
    &&& is_word(f.hash@)
}

pub open spec fn block_frame_ok(f: BlockFrame) -> bool {
    &&& f.header is Some
    &&& header_ok(f.header->0)
    &&& is_word(f.hash@)
    &&& f.senders@.len() == f.transactions@.len()
    &&& forall|i: int|
        0 <= i < f.transactions@.len() ==> tx_frame_ok(#[trigger] f.transactions@[i])
            && is_address(f.senders@[i]@)
}

/// `b` is the block of frame `f`: header, hash and difficulty as declared,
/// and each transaction signed by the sender given beside it.
pub open spec fn block_matches(b: Block, f: BlockFrame) -> bool {
    &&& header_same(b.header.header, f.header->0)
    &&& b.header.hash@ == f.hash@
    &&& b.transactions@.len() == f.transactions@.len()
    &&& forall|i: int|
        0 <= i < b.transactions@.len() ==> tx_matches(
            #[trigger] b.transactions@[i],
            f.transactions@[i],
            f.senders@[i]@,
        )
}

/// The transaction of frame `f` signed by `sender`; `None` when a field does
/// not have its width.
pub fn transaction_with_sender(f: &TransactionFrame, sender: &Vec<u8>) -> (r: Option<Transaction>)
    ensures
        r is Some <==> (tx_frame_ok(*f) && is_address(sender@)),
        r is Some ==> tx_matches(r->0, *f, sender@),
{
    let hash = match hash_from_slice(f.hash.as_slice()) {
        Some(h) => h,
        None => return None,
    };
    if let Some(to) = &f.to {
        if to.len() != crate::bytes::ADDRESS_LEN {
            return None;
        }
    }
    if f.value.len() != crate::bytes::WORD_LEN || f.signature.len() != SIGNATURE_LEN
        || sender.len() != crate::bytes::ADDRESS_LEN {
        return None;
    }
    Some(
        Transaction {
            hash,
            from: copy_bytes(sender),
            nonce: f.nonce,
            to: copy_opt_bytes(&f.to),
            value: copy_bytes(&f.value),
            input: copy_bytes(&f.input),
            signature: copy_bytes(&f.signature),
        },
    )
}

/// Decodes a pending transaction, given what recovering the signer from its
/// signature gave (`None` where recovery failed). The frame is discarded
/// (`None`) when recovery failed or a field does not have its width.
pub fn decode_mempool_transaction(f: &TransactionFrame, recovered: &Option<Vec<u8>>) -> (r: Option<
    Transaction,
>)
    ensures
        r is Some <==> (tx_frame_ok(*f) && recovered is Some && is_address(recovered->0@)),
        r is Some ==> tx_matches(r->0, *f, recovered->0@),
{
    match recovered {
        Some(sender) => transaction_with_sender(f, sender),
        None => None,
    }
}

pub fn copy_header(h: &Header) -> (r: Header)
    ensures
        header_same(r, *h),
{
    Header {
        parent_hash: copy_bytes(&h.parent_hash),
        beneficiary: copy_bytes(&h.beneficiary),
        state_root: copy_bytes(&h.state_root),
        number: h.number,
        gas_limit: h.gas_limit,
        gas_used: h.gas_used,
        timestamp: h.timestamp,
        difficulty: copy_bytes(&h.difficulty),
        base_fee: h.base_fee,
        extra_data: copy_bytes(&h.extra_data),
    }
}

/// Seals `h` with the hash `hash` exactly as given: the declared hash is
/// authoritative and is never recomputed from the fields.
pub fn seal_header(h: &Header, hash: &[u8]) -> (r: Option<SealedHeader>)
    ensures
        r is Some <==> (header_ok(*h) && is_word(hash@)),
        r is Some ==> header_same(r->0.header, *h) && r->0.hash@ == hash@,
{
    if h.parent_hash.len() != crate::bytes::WORD_LEN || h.beneficiary.len()
        != crate::bytes::ADDRESS_LEN || h.state_root.len() != crate::bytes::WORD_LEN
        || h.difficulty.len() != crate::bytes::WORD_LEN {
        return None;
    }
    match hash_from_slice(hash) {
        Some(hash) => Some(SealedHeader { header: copy_header(h), hash }),
        None => None,
    }
}

/// Decodes a header notification into a sealed header whose hash is the one
/// the frame declared.
pub fn decode_header(f: &HeaderFrame) -> (r: Option<SealedHeader>)
    ensures
        r is Some <==> header_frame_ok(*f),
        r is Some ==> header_same(r->0.header, f.header->0) && r->0.hash@ == f.hash@,
{
    match &f.header {
        Some(h) => seal_header(h, f.hash.as_slice()),
        None => None,
    }
}

pub fn tx_frame_is_ok(f: &TransactionFrame) -> (r: bool)
    ensures
        r == tx_frame_ok(*f),
{
    let to_ok = match &f.to {
        Some(to) => to.len() == crate::bytes::ADDRESS_LEN,
        None => true,
    };
    f.hash.len() == crate::bytes::WORD_LEN && to_ok && f.value.len() == crate::bytes::WORD_LEN
        && f.signature.len() == SIGNATURE_LEN
}

/// Whether a block frame decodes, without building the block.
pub fn block_frame_is_ok(f: &BlockFrame) -> (r: bool)
    ensures
        r == block_frame_ok(*f),
{
    match &f.header {
        Some(h) => {
            if h.parent_hash.len() != crate::bytes::WORD_LEN || h.beneficiary.len()
                != crate::bytes::ADDRESS_LEN || h.state_root.len() != crate::bytes::WORD_LEN
        || h.difficulty.len() != crate::bytes::WORD_LEN {
                return false;
            }
        },
        None => return false,
    }
    if f.hash.len() != crate::bytes::WORD_LEN || f.senders.len() != f.transactions.len() {
        return false;
    }
    let mut i: usize = 0;
    while i < f.transactions.len()
        invariant
            i <= f.transactions@.len(),
            f.senders@.len() == f.transactions@.len(),
            forall|k: int|
                0 <= k < i ==> tx_frame_ok(#[trigger] f.transactions@[k]) && is_address(
                    f.senders@[k]@,
                ),
        decreases f.transactions@.len() - i,
    {
        if !tx_frame_is_ok(&f.transactions[i]) || f.senders[i].len() != crate::bytes::ADDRESS_LEN {
            assert(!(tx_frame_ok(f.transactions@[i as int]) && is_address(f.senders@[i as int]@)));
            return false;
        }
        i = i + 1;
    }
    true
}

/// Decodes a sealed block with its senders into a block with full
/// transaction bodies; its declared hash and the header's difficulty are
/// carried through unchanged.
pub fn decode_block(f: &BlockFrame) -> (r: Option<Block>)
    ensures
        r is Some <==> block_frame_ok(*f),
        r is Some ==> block_matches(r->0, *f),
{
    let header = match &f.header {
        Some(h) => match seal_header(h, f.hash.as_slice()) {
            Some(h) => h,
            None => return None,
        },
        None => return None,
    };
    if f.senders.len() != f.transactions.len() {
        return None;
    }
    let mut txs: Vec<Transaction> = Vec::new();
    let mut i: usize = 0;
    while i < f.transactions.len()
        invariant
            i <= f.transactions@.len(),
            f.senders@.len() == f.transactions@.len(),
            txs@.len() == i,
            forall|k: int|
                0 <= k < i ==> tx_frame_ok(#[trigger] f.transactions@[k]) && is_address(
                    f.senders@[k]@,
                ),
            forall|k: int|
                0 <= k < i ==> tx_matches(
                    #[trigger] txs@[k],
                    f.transactions@[k],
                    f.senders@[k]@,
                ),
        decreases f.transactions@.len() - i,
    {
        match transaction_with_sender(&f.transactions[i], &f.senders[i]) {
            Some(t) => txs.push(t),
            None => {
                assert(!(tx_frame_ok(f.transactions@[i as int]) && is_address(
                    f.senders@[i as int]@,
                )));
                return None;
            },
        }
        i = i + 1;
    }
    Some(Block { header, transactions: txs })
}

} // verus!
