use vstd::prelude::*;

use crate::decode::{
    block_frame_ok, block_matches, decode_block, decode_header, decode_mempool_transaction,
    header_frame_ok, header_same, tx_frame_ok, tx_matches, Block, BlockFrame, HeaderFrame,
    SealedHeader, Transaction, TransactionFrame,
};
use crate::delta::{bundle_ok, decode_state_update, deltas_match, StateUpdate, StateUpdateFrame};
use crate::bytes::{is_address, is_word};
use crate::lifecycle::{decode_lifecycle, lifecycle_frame_ok, lifecycle_matches, Lifecycle, LifecycleFrame};
use crate::logs::{decode_logs, logs_flattened, receipts_ok, BlockLogs, ReceiptsFrame};

verus! {

/// One wire frame of any event kind. A pending transaction comes with what
/// recovering its signer gave.
#[derive(Clone, Debug, PartialEq, Eq)]
pub enum Frame {
    MempoolTransaction { frame: TransactionFrame, recovered: Option<Vec<u8>> },
    Header(HeaderFrame),
    Block(BlockFrame),
    Receipts(ReceiptsFrame),
    StateUpdate(StateUpdateFrame),
    Lifecycle(LifecycleFrame),
}

/// A decoded event of any kind.
#[derive(Clone, Debug, PartialEq, Eq)]
pub enum DomainEvent {
    Transaction(Transaction),
    Header(SealedHeader),
    Block(Block),
    Logs(BlockLogs),
    StateUpdate(StateUpdate),
    Lifecycle(Lifecycle),
}

/// Whether a frame decodes; a frame that does not is discarded.
pub open spec fn frame_ok(f: Frame) -> bool {
    match f {
        Frame::MempoolTransaction { frame, recovered } => tx_frame_ok(frame) && recovered is Some
            && is_address(recovered->0@),
        Frame::Header(h) => header_frame_ok(h),
        Frame::Block(b) => block_frame_ok(b),
        Frame::Receipts(r) => r.receipts is Some && r.block is Some && block_frame_ok(r.block->0)
            && receipts_ok(r.receipts->0@, r.block->0),
        Frame::StateUpdate(s) => is_word(s.hash@) && s.bundle is Some && bundle_ok(
            s.bundle->0.accounts@,
        ),
        Frame::Lifecycle(l) => lifecycle_frame_ok(l),
    }
}

/// `e` is the event that frame `f` decodes to, of the same kind.
pub open spec fn event_matches(e: DomainEvent, f: Frame) -> bool {
    match (e, f) {
        (DomainEvent::Transaction(t), Frame::MempoolTransaction { frame, recovered }) => tx_matches(
            t,
            frame,
            recovered->0@,
        ),
        (DomainEvent::Header(h), Frame::Header(hf)) => header_same(h.header, hf.header->0) && h.hash@
            == hf.hash@,
        (DomainEvent::Block(b), Frame::Block(bf)) => block_matches(b, bf),
        (DomainEvent::Logs(l), Frame::Receipts(rf)) => l.block_hash@ == rf.block->0.hash@
            && logs_flattened(l.logs@, rf.receipts->0@, rf.block->0),
        (DomainEvent::StateUpdate(u), Frame::StateUpdate(sf)) => u.block_hash@ == sf.hash@
            && deltas_match(u.accounts@, sf.bundle->0.accounts@),
        (DomainEvent::Lifecycle(l), Frame::Lifecycle(lf)) => lifecycle_matches(l, lf),
        _ => false,
    }
}

/// Decodes a frame of any kind with the decoder of its kind.
pub fn decode_frame(f: &Frame) -> (r: Option<DomainEvent>)
    ensures
        r is Some <==> frame_ok(*f),
        r is Some ==> event_matches(r->0, *f),
{
    match f {
        Frame::MempoolTransaction { frame, recovered } => match decode_mempool_transaction(
            frame,
            recovered,
        ) {
            Some(t) => Some(DomainEvent::Transaction(t)),
            None => None,
        },
        Frame::Header(h) => match decode_header(h) {
            Some(h) => Some(DomainEvent::Header(h)),
            None => None,
        },
        Frame::Block(b) => match decode_block(b) {
            Some(b) => Some(DomainEvent::Block(b)),
            None => None,
        },
        Frame::Receipts(r) => match decode_logs(r) {
            Some(l) => Some(DomainEvent::Logs(l)),
            None => None,
        },
        Frame::StateUpdate(s) => match decode_state_update(s) {
            Some(u) => Some(DomainEvent::StateUpdate(u)),
            None => None,
        },
        Frame::Lifecycle(l) => match decode_lifecycle(l) {
            Some(l) => Some(DomainEvent::Lifecycle(l)),
            None => None,
        },
    }
}

/// Where a subscription stands: still streaming, or ended cleanly, or ended by
/// a transport failure. The last two are final.
#[derive(Clone, Copy, Debug, PartialEq, Eq, Structural)]
pub enum ChannelState {
    Streaming,
    Ended,
    Failed,
}

/// What one pull from the transport gave, after decoding.
#[derive(Clone, Debug, PartialEq, Eq)]
pub enum Signal {
    Decoded(DomainEvent),
    Malformed,
    Closed,
    ReadFailed,
}

pub open spec fn next_state(s: ChannelState, sig: Signal) -> ChannelState {
    match s {
        ChannelState::Streaming => match sig {
            Signal::Closed => ChannelState::Ended,
            Signal::ReadFailed => ChannelState::Failed,
            _ => ChannelState::Streaming,
        },
        _ => s,
    }
}

/// The events one signal hands to the consumer in state `s`.
pub open spec fn emitted(s: ChannelState, sig: Signal) -> Seq<DomainEvent> {
    match (s, sig) {
        (ChannelState::Streaming, Signal::Decoded(e)) => seq![e],
        _ => seq![],
    }
}

/// The state after the signals `sigs`, starting in `s`.
pub open spec fn run_state(s: ChannelState, sigs: Seq<Signal>) -> ChannelState
    decreases sigs.len(),
{
    if sigs.len() == 0 {
        s
    } else {
        next_state(run_state(s, sigs.drop_last()), sigs.last())
    }
}

/// The events handed to the consumer over the signals `sigs`, starting in `s`.
pub open spec fn run_events(s: ChannelState, sigs: Seq<Signal>) -> Seq<DomainEvent>
    decreases sigs.len(),
{
    if sigs.len() == 0 {
        seq![]
    } else {
        run_events(s, sigs.drop_last()) + emitted(run_state(s, sigs.drop_last()), sigs.last())
    }
}

/// The signals of a run of frames that all decoded, to `events`.
pub open spec fn decoded_signals(events: Seq<DomainEvent>) -> Seq<Signal> {
    events.map_values(|e: DomainEvent| Signal::Decoded(e))
}

/// The decision logic of one subscription: it takes what each pull from the
/// transport gave and says what the consumer sees. It also counts the frames
/// it discarded, for diagnostics; the count stops at `u64::MAX`.
pub struct SubscriptionChannel {
    pub state: ChannelState,
    pub discarded: u64,
}

/// The discard count after one signal in state `s`.
pub open spec fn next_discarded(n: u64, s: ChannelState, sig: Signal) -> u64 {
    if s == ChannelState::Streaming && sig is Malformed && n < u64::MAX {
        (n + 1) as u64
    } else {
        n
    }
}

impl SubscriptionChannel {
    /// A channel whose streaming call has just opened.
    pub fn new() -> (r: SubscriptionChannel)
        ensures
            r.state == ChannelState::Streaming,
            r.discarded == 0,
    {
        SubscriptionChannel { state: ChannelState::Streaming, discarded: 0 }
    }

    /// Whether no more events can come.
    pub fn is_finished(&self) -> (r: bool)
        ensures
            r == (self.state != ChannelState::Streaming),
    {
        !matches!(self.state, ChannelState::Streaming)
    }

    /// Takes one signal: a decoded event is handed on while streaming, a
    /// malformed frame is dropped without ending the channel, a close ends it
    /// cleanly and a read failure ends it as failed. Once ended, the channel
    /// stays as it is and hands on nothing.
    pub fn accept(&mut self, sig: Signal) -> (r: Option<DomainEvent>)
        ensures
            final(self).state == next_state(old(self).state, sig),
            final(self).discarded == next_discarded(old(self).discarded, old(self).state, sig),
            r is Some <==> (old(self).state == ChannelState::Streaming && sig is Decoded),
            r is Some ==> sig == Signal::Decoded(r->0),
            emitted(old(self).state, sig) == match r {
                Some(e) => seq![e],
                None => Seq::<DomainEvent>::empty(),
            },
    {
        match self.state {
            ChannelState::Streaming => match sig {
                Signal::Decoded(e) => Some(e),
                Signal::Malformed => {
                    if self.discarded < u64::MAX {
                        self.discarded = self.discarded + 1;
                    }
                    None
                },
                Signal::Closed => {
                    self.state = ChannelState::Ended;
                    None
                },
                Signal::ReadFailed => {
                    self.state = ChannelState::Failed;
                    None
                },
            },
            _ => None,
        }
    }

    /// Decodes a received frame and takes it as a signal.
    pub fn accept_frame(&mut self, f: &Frame) -> (r: Option<DomainEvent>)
        ensures
            final(self).state == old(self).state,
            final(self).discarded == if old(self).state == ChannelState::Streaming && !frame_ok(
                *f,
            ) && old(self).discarded < u64::MAX {
                (old(self).discarded + 1) as u64
            } else {
                old(self).discarded
            },
            r is Some <==> (old(self).state == ChannelState::Streaming && frame_ok(*f)),
            r is Some ==> event_matches(r->0, *f),
    {
        let sig = classify(f);
        self.accept(sig)
    }
}

/// The signal of a received frame: its event where it decodes, else
/// `Malformed`.
pub fn classify(f: &Frame) -> (r: Signal)
    ensures
        frame_ok(*f) ==> r is Decoded && event_matches(r->0, *f),
        !frame_ok(*f) ==> r == Signal::Malformed,
{
    match decode_frame(f) {
        Some(e) => Signal::Decoded(e),
        None => Signal::Malformed,
    }
}

/// Runs a fresh channel over a recorded sequence of signals and returns the
/// events the consumer sees and the state the channel ends in.
pub fn replay(signals: Vec<Signal>) -> (r: (Vec<DomainEvent>, ChannelState))
    ensures
        r.0@ == run_events(ChannelState::Streaming, signals@),
        r.1 == run_state(ChannelState::Streaming, signals@),
{
    let ghost all = signals@;
    let mut rest = signals;
    let mut ch = SubscriptionChannel::new();
    let mut out: Vec<DomainEvent> = Vec::new();
    let mut i: usize = 0;
    let n = rest.len();
    while i < n
        invariant
            n == all.len(),
            i <= n,
            rest@ == all.subrange(i as int, n as int),
            out@ == run_events(ChannelState::Streaming, all.subrange(0, i as int)),
            ch.state == run_state(ChannelState::Streaming, all.subrange(0, i as int)),
        decreases n - i,
    {
        let sig = rest.remove(0);
        assert(all.subrange(0, i + 1).drop_last() =~= all.subrange(0, i as int));
        let ghost s0 = ch.state;
        match ch.accept(sig) {
            Some(e) => out.push(e),
            None => {},
        }
        i = i + 1;
        assert(rest@ =~= all.subrange(i as int, n as int));
        assert(out@ =~= run_events(ChannelState::Streaming, all.subrange(0, i as int)));
    }
    assert(all.subrange(0, n as int) =~= all);
    (out, ch.state)
}

pub proof fn lemma_decoded_run(events: Seq<DomainEvent>)
    ensures
        run_events(ChannelState::Streaming, decoded_signals(events)) == events,
        run_state(ChannelState::Streaming, decoded_signals(events)) == ChannelState::Streaming,
    decreases events.len(),
{
    if events.len() > 0 {
        assert(decoded_signals(events).drop_last() =~= decoded_signals(events.drop_last()));
        lemma_decoded_run(events.drop_last());
        assert(events.drop_last() + seq![events.last()] =~= events);
    } else {
        assert(decoded_signals(events) =~= Seq::<Signal>::empty());
    }
}

pub proof fn lemma_finished_absorbs(s: ChannelState, pre: Seq<Signal>, tail: Seq<Signal>)
    requires
        run_state(s, pre) != ChannelState::Streaming,
    ensures
        run_events(s, pre + tail) == run_events(s, pre),
        run_state(s, pre + tail) == run_state(s, pre),
    decreases tail.len(),
{
    if tail.len() == 0 {
        assert(pre + tail =~= pre);
    } else {
        assert((pre + tail).drop_last() =~= pre + tail.drop_last());
        lemma_finished_absorbs(s, pre, tail.drop_last());
        assert(run_events(s, pre) + Seq::<DomainEvent>::empty() =~= run_events(s, pre));
    }
}

/// A malformed frame is dropped wherever it stands: inserting one into any
/// run of signals changes neither the events the consumer sees nor the state
/// the channel ends in. In particular the channel is not ended by it.
pub proof fn lemma_malformed_dropped(s: ChannelState, pre: Seq<Signal>, post: Seq<Signal>)
    ensures
        run_events(s, pre + seq![Signal::Malformed] + post) == run_events(s, pre + post),
        run_state(s, pre + seq![Signal::Malformed] + post) == run_state(s, pre + post),
    decreases post.len(),
{
    let with = pre + seq![Signal::Malformed] + post;
    if post.len() == 0 {
        assert(with.drop_last() =~= pre);
        assert(pre + post =~= pre);
        assert(run_events(s, pre) + Seq::<DomainEvent>::empty() =~= run_events(s, pre));
    } else {
        assert(with.drop_last() =~= pre + seq![Signal::Malformed] + post.drop_last());
        assert((pre + post).drop_last() =~= pre + post.drop_last());
        lemma_malformed_dropped(s, pre, post.drop_last());
    }
}

/// Two well-formed frames around a malformed one give exactly their two
/// events, in order, and the channel is still streaming.
pub proof fn lemma_discard_between(e1: DomainEvent, e2: DomainEvent)
    ensures
        run_events(
            ChannelState::Streaming,
            seq![Signal::Decoded(e1), Signal::Malformed, Signal::Decoded(e2)],
        ) == seq![e1, e2],
        run_state(
            ChannelState::Streaming,
            seq![Signal::Decoded(e1), Signal::Malformed, Signal::Decoded(e2)],
        ) == ChannelState::Streaming,
{
    let pre = seq![Signal::Decoded(e1)];
    let post = seq![Signal::Decoded(e2)];
    lemma_malformed_dropped(ChannelState::Streaming, pre, post);
    assert(pre + seq![Signal::Malformed] + post =~= seq![
        Signal::Decoded(e1),
        Signal::Malformed,
        Signal::Decoded(e2),
    ]);
    lemma_decoded_run(seq![e1, e2]);
    assert(pre + post =~= decoded_signals(seq![e1, e2]));
}

/// A producer that closes the stream after frames that all decoded: the
/// consumer sees exactly their events, the channel ends cleanly and never
/// fails, whatever the transport would hand over afterwards.
pub proof fn lemma_clean_end(events: Seq<DomainEvent>, tail: Seq<Signal>)
    ensures
        run_events(
            ChannelState::Streaming,
            decoded_signals(events) + seq![Signal::Closed] + tail,
        ) == events,
        run_state(ChannelState::Streaming, decoded_signals(events) + seq![Signal::Closed] + tail)
            == ChannelState::Ended,
{
    let pre = decoded_signals(events) + seq![Signal::Closed];
    lemma_decoded_run(events);
    assert(pre.drop_last() =~= decoded_signals(events));
    assert(run_events(ChannelState::Streaming, pre) =~= events);
    lemma_finished_absorbs(ChannelState::Streaming, pre, tail);
}

/// A transport that fails after frames that all decoded: the consumer sees
/// exactly their events and then a failure, never a clean end.
pub proof fn lemma_failure_end(events: Seq<DomainEvent>, tail: Seq<Signal>)
    ensures
        run_events(
            ChannelState::Streaming,
            decoded_signals(events) + seq![Signal::ReadFailed] + tail,
        ) == events,
        run_state(
            ChannelState::Streaming,
            decoded_signals(events) + seq![Signal::ReadFailed] + tail,
        ) == ChannelState::Failed,
{
    let pre = decoded_signals(events) + seq![Signal::ReadFailed];
    lemma_decoded_run(events);
    assert(pre.drop_last() =~= decoded_signals(events));
    assert(run_events(ChannelState::Streaming, pre) =~= events);
    lemma_finished_absorbs(ChannelState::Streaming, pre, tail);
}

} // verus!
