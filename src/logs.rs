use vstd::prelude::*;

use crate::bytes::{copy_bytes, is_address};
use crate::decode::{block_frame_is_ok, block_frame_ok, BlockFrame};

verus! {

/// A log as a receipt records it.
#[derive(Clone, Debug, PartialEq, Eq)]
pub struct RawLog {
    pub address: Vec<u8>,
    pub topics: Vec<Vec<u8>>,
    pub data: Vec<u8>,
}

/// The receipt of one transaction.
#[derive(Clone, Debug, PartialEq, Eq)]
pub struct Receipt {
    pub success: bool,
    pub cumulative_gas_used: u64,
    pub logs: Vec<RawLog>,
}

/// A receipts notification: the receipts of a block and the block, either of
/// which the producer may have left out.
#[derive(Clone, Debug, PartialEq, Eq)]
pub struct ReceiptsFrame {
    pub receipts: Option<Vec<Receipt>>,
    pub block: Option<BlockFrame>,
}

/// A log placed in its block: which transaction emitted it and where it
/// stands among all the logs of the block.
#[derive(Clone, Debug, PartialEq, Eq)]
pub struct Log {
    pub address: Vec<u8>,
    pub topics: Vec<Vec<u8>>,
    pub data: Vec<u8>,
    pub block_hash: Vec<u8>,
    pub block_number: u64,
    pub transaction_hash: Vec<u8>,
    pub transaction_index: u64,
    pub log_index: u64,
    /// Set for a log of a block that left the canonical chain; logs decoded
    /// from a receipts notification of a committed block never have it.
    pub removed: bool,
}

/// The logs of one block, in receipt order and then in log order.
#[derive(Clone, Debug, PartialEq, Eq)]
pub struct BlockLogs {
    pub block_hash: Vec<u8>,
    pub logs: Vec<Log>,
}

/// How many logs the first `n` receipts hold together.
pub open spec fn logs_before(rs: Seq<Receipt>, n: int) -> int
    decreases n,
{
    if n <= 0 {
        0
    } else {
        logs_before(rs, n - 1) + rs[n - 1].logs@.len()
    }
}

pub open spec fn topics_same(a: Seq<Vec<u8>>, b: Seq<Vec<u8>>) -> bool {
    &&& a.len() == b.len()
    &&& forall|i: int| 0 <= i < a.len() ==> (#[trigger] a[i])@ == b[i]@
}

/// `l` is log `j` of receipt `i` of block `b`, and the log at position `k`
/// of the block.
pub open spec fn log_matches(l: Log, raw: RawLog, b: BlockFrame, i: int, k: int) -> bool {
    &&& l.address@ == raw.address@
    &&& topics_same(l.topics@, raw.topics@)
    &&& l.data@ == raw.data@
    &&& l.block_hash@ == b.hash@
    &&& l.block_number == b.header->0.number
    &&& l.transaction_hash@ == b.transactions@[i].hash@
    &&& l.transaction_index == i
    &&& l.log_index == k
    &&& !l.removed
}

/// The receipts can be matched to the block: one per transaction, and every
/// log address has its width.
pub open spec fn receipts_ok(rs: Seq<Receipt>, b: BlockFrame) -> bool {
    &&& rs.len() == b.transactions@.len()
    &&& forall|i: int, j: int|
        0 <= i < rs.len() && 0 <= j < rs[i].logs@.len() ==> is_address(
            (#[trigger] rs[i].logs@[j]).address@,
        )
}

/// `out` is the logs of `rs` flattened: receipt by receipt, log by log.
pub open spec fn logs_flattened(out: Seq<Log>, rs: Seq<Receipt>, b: BlockFrame) -> bool {
    &&& out.len() == logs_before(rs, rs.len() as int)
    &&& forall|i: int, j: int|
        0 <= i < rs.len() && 0 <= j < rs[i].logs@.len() ==> log_matches(
            out[logs_before(rs, i) + j],
            #[trigger] rs[i].logs@[j],
            b,
            i,
            logs_before(rs, i) + j,
        )
}

pub proof fn lemma_logs_before_monotone(rs: Seq<Receipt>, a: int, b: int)
    requires
        0 <= a <= b <= rs.len(),
    ensures
        logs_before(rs, a) <= logs_before(rs, b),
    decreases b - a,
{
    if a < b {
        lemma_logs_before_monotone(rs, a, b - 1);
    }
}

pub fn copy_topics(t: &Vec<Vec<u8>>) -> (r: Vec<Vec<u8>>)
    ensures
        topics_same(r@, t@),
{
    let mut out: Vec<Vec<u8>> = Vec::new();
    let mut i: usize = 0;
    while i < t.len()
        invariant
            i <= t@.len(),
            out@.len() == i,
            forall|k: int| 0 <= k < i ==> (#[trigger] out@[k])@ == t@[k]@,
        decreases t@.len() - i,
    {
        out.push(copy_bytes(&t[i]));
        i = i + 1;
    }
    out
}

/// Gathers the logs of all receipts of block `b` into one sequence, each
/// tagged with its block, its transaction and its place in the block; `None`
/// when the receipts cannot be matched to the block's transactions.
pub fn block_logs(rs: &Vec<Receipt>, b: &BlockFrame) -> (r: Option<Vec<Log>>)
    requires
        block_frame_ok(*b),
    ensures
        r is Some <==> receipts_ok(rs@, *b),
        r is Some ==> logs_flattened(r->0@, rs@, *b),
{
    if rs.len() != b.transactions.len() {
        return None;
    }
    let number = match &b.header {
        Some(h) => h.number,
        None => 0,
    };
    let mut out: Vec<Log> = Vec::new();
    let mut i: usize = 0;
    while i < rs.len()
        invariant
            i <= rs@.len(),
            rs@.len() == b.transactions@.len(),
            b.header is Some && number == b.header->0.number,
            out@.len() == logs_before(rs@, i as int),
            forall|i2: int, j: int|
                0 <= i2 < i && 0 <= j < rs@[i2].logs@.len() ==> is_address(
                    (#[trigger] rs@[i2].logs@[j]).address@,
                ),
            forall|i2: int, j: int|
                0 <= i2 < i && 0 <= j < rs@[i2].logs@.len() ==> log_matches(
                    out@[logs_before(rs@, i2) + j],
                    #[trigger] rs@[i2].logs@[j],
                    *b,
                    i2,
                    logs_before(rs@, i2) + j,
                ),
        decreases rs@.len() - i,
    {
        let logs = &rs[i].logs;
        let mut j: usize = 0;
        while j < logs.len()
            invariant
                i < rs@.len(),
                logs@ == rs@[i as int].logs@,
                rs@.len() == b.transactions@.len(),
                b.header is Some && number == b.header->0.number,
                j <= logs@.len(),
                out@.len() == logs_before(rs@, i as int) + j,
                forall|j2: int| 0 <= j2 < j ==> is_address((#[trigger] logs@[j2]).address@),
                forall|j2: int|
                    0 <= j2 < j ==> log_matches(
                        out@[logs_before(rs@, i as int) + j2],
                        #[trigger] logs@[j2],
                        *b,
                        i as int,
                        logs_before(rs@, i as int) + j2,
                    ),
                forall|i2: int, j2: int|
                    0 <= i2 < i && 0 <= j2 < rs@[i2].logs@.len() ==> log_matches(
                        out@[logs_before(rs@, i2) + j2],
                        #[trigger] rs@[i2].logs@[j2],
                        *b,
                        i2,
                        logs_before(rs@, i2) + j2,
                    ),
            decreases logs@.len() - j,
        {
            let raw = &logs[j];
            if raw.address.len() != crate::bytes::ADDRESS_LEN {
                assert(!is_address(rs@[i as int].logs@[j as int].address@));
                return None;
            }
            let k = out.len();
            let ghost before = out@;
            out.push(
                Log {
                    address: copy_bytes(&raw.address),
                    topics: copy_topics(&raw.topics),
                    data: copy_bytes(&raw.data),
                    block_hash: copy_bytes(&b.hash),
                    block_number: number,
                    transaction_hash: copy_bytes(&b.transactions[i].hash),
                    transaction_index: i as u64,
                    log_index: k as u64,
                    removed: false,
                },
            );
            assert forall|i2: int, j2: int|
                0 <= i2 < i && 0 <= j2 < rs@[i2].logs@.len() implies log_matches(
                    out@[logs_before(rs@, i2) + j2],
                    #[trigger] rs@[i2].logs@[j2],
                    *b,
                    i2,
                    logs_before(rs@, i2) + j2,
                ) by {
                lemma_logs_before_monotone(rs@, 0, i2);
                lemma_logs_before_monotone(rs@, i2 + 1, i as int);
                assert(logs_before(rs@, i2 + 1) == logs_before(rs@, i2) + rs@[i2].logs@.len());
                assert(out@[logs_before(rs@, i2) + j2] == before[logs_before(rs@, i2) + j2]);
            }
            j = j + 1;
        }
        assert(logs_before(rs@, i + 1) == logs_before(rs@, i as int) + rs@[i as int].logs@.len());
        i = i + 1;
    }
    Some(out)
}

/// Decodes a receipts notification into the block hash and the block's logs;
/// `None` when the receipts or the block are missing, the block does not
/// decode, or the receipts cannot be matched to it.
pub fn decode_logs(f: &ReceiptsFrame) -> (r: Option<BlockLogs>)
    ensures
        r is Some <==> (f.receipts is Some && f.block is Some && block_frame_ok(f.block->0)
            && receipts_ok(f.receipts->0@, f.block->0)),
        r is Some ==> r->0.block_hash@ == f.block->0.hash@ && logs_flattened(
            r->0.logs@,
            f.receipts->0@,
            f.block->0,
        ),
{
    let rs = match &f.receipts {
        Some(rs) => rs,
        None => return None,
    };
    let b = match &f.block {
        Some(b) => b,
        None => return None,
    };
    if !block_frame_is_ok(b) {
        return None;
    }
    match block_logs(rs, b) {
        Some(logs) => Some(BlockLogs { block_hash: copy_bytes(&b.hash), logs }),
        None => None,
    }
}

} // verus!
