use remote_exex::channel::{classify, decode_frame, replay, ChannelState, DomainEvent, Frame, Signal, SubscriptionChannel};
use remote_exex::codec::encode_event;
use remote_exex::decode::{
    decode_block, decode_header, decode_mempool_transaction, Block, BlockFrame, Header, HeaderFrame,
    SealedHeader, Transaction, TransactionFrame,
};
use remote_exex::delta::{
    decode_state_update, reconstruct_state, AccountDelta, AccountInfo, BundleAccount, LedgerBundle,
    StateUpdateFrame, StorageEntry, StorageSlot,
};
use remote_exex::lifecycle::{decode_lifecycle, Lifecycle, LifecycleFrame, NotificationFrame};
use remote_exex::logs::{decode_logs, RawLog, Receipt, ReceiptsFrame};

fn word(b: u8) -> Vec<u8> {
    vec![b; 32]
}

fn addr(b: u8) -> Vec<u8> {
    vec![b; 20]
}

/// A 32-byte big-endian word holding `n`.
fn num(n: u8) -> Vec<u8> {
    let mut w = vec![0; 32];
    w[31] = n;
    w
}

fn slot(key: u8, original: u8, present: u8) -> StorageSlot {
    StorageSlot { slot: num(key), original_value: num(original), present_value: num(present) }
}

fn header(number: u64) -> Header {
    Header {
        parent_hash: word(1),
        beneficiary: addr(2),
        state_root: word(3),
        number,
        gas_limit: 30_000_000,
        gas_used: 21_000,
        timestamp: 1_700_000_000,
        difficulty: word(0),
        base_fee: Some(7),
        extra_data: vec![0xde, 0xad],
    }
}

fn tx_frame(h: u8) -> TransactionFrame {
    TransactionFrame {
        hash: word(h),
        nonce: h as u64,
        to: Some(addr(9)),
        value: word(0),
        input: vec![1, 2, 3],
        signature: vec![5; 65],
    }
}

fn block_frame(n_txs: u8) -> BlockFrame {
    let transactions: Vec<TransactionFrame> = (0..n_txs).map(|i| tx_frame(0x10 + i)).collect();
    let senders: Vec<Vec<u8>> = (0..n_txs).map(|i| addr(0x20 + i)).collect();
    BlockFrame { header: Some(header(5)), hash: word(0xbb), transactions, senders }
}

fn header_event(n: u64) -> DomainEvent {
    DomainEvent::Header(SealedHeader { header: header(n), hash: word(n as u8) })
}

#[test]
fn malformed_frame_between_two_is_dropped() {
    let good1 = Frame::Header(HeaderFrame { header: Some(header(1)), hash: word(0xa1) });
    let bad = Frame::Header(HeaderFrame { header: Some(header(2)), hash: vec![1, 2, 3] });
    let good2 = Frame::Header(HeaderFrame { header: Some(header(3)), hash: word(0xa3) });
    let mut ch = SubscriptionChannel::new();
    let mut seen = Vec::new();
    for f in [&good1, &bad, &good2] {
        if let Some(e) = ch.accept_frame(f) {
            seen.push(e);
        }
    }
    assert_eq!(ch.state, ChannelState::Streaming);
    assert!(!ch.is_finished());
    assert_eq!(ch.discarded, 1);
    assert_eq!(seen.len(), 2);
    match (&seen[0], &seen[1]) {
        (DomainEvent::Header(a), DomainEvent::Header(b)) => {
            assert_eq!(a.hash, word(0xa1));
            assert_eq!(a.header.number, 1);
            assert_eq!(b.hash, word(0xa3));
            assert_eq!(b.header.number, 3);
        }
        _ => panic!("expected two headers"),
    }
}

#[test]
fn clean_end_after_n_events() {
    let sigs = vec![
        Signal::Decoded(header_event(1)),
        Signal::Decoded(header_event(2)),
        Signal::Decoded(header_event(3)),
        Signal::Closed,
        Signal::Decoded(header_event(4)),
        Signal::ReadFailed,
    ];
    let (events, state) = replay(sigs);
    assert_eq!(events, vec![header_event(1), header_event(2), header_event(3)]);
    assert_eq!(state, ChannelState::Ended);
}

#[test]
fn read_failure_after_n_events() {
    let sigs = vec![
        Signal::Decoded(header_event(1)),
        Signal::Malformed,
        Signal::Decoded(header_event(2)),
        Signal::ReadFailed,
        Signal::Closed,
    ];
    let (events, state) = replay(sigs);
    assert_eq!(events, vec![header_event(1), header_event(2)]);
    assert_eq!(state, ChannelState::Failed);
}

#[test]
fn empty_stream_ends_cleanly() {
    let (events, state) = replay(vec![Signal::Closed]);
    assert!(events.is_empty());
    assert_eq!(state, ChannelState::Ended);
    let (events, state) = replay(vec![]);
    assert!(events.is_empty());
    assert_eq!(state, ChannelState::Streaming);
}

#[test]
fn finished_channel_hands_on_nothing() {
    let mut ch = SubscriptionChannel::new();
    assert_eq!(ch.accept(Signal::ReadFailed), None);
    assert!(ch.is_finished());
    assert_eq!(ch.accept(Signal::Decoded(header_event(1))), None);
    assert_eq!(ch.state, ChannelState::Failed);
    assert_eq!(ch.accept(Signal::Malformed), None);
    assert_eq!(ch.discarded, 0);
}

fn bundle_a() -> BundleAccount {
    BundleAccount {
        address: addr(0xaa),
        info: Some(AccountInfo { balance: num(100), nonce: 3, code: None }),
        storage: vec![slot(1, 0, 42)],
    }
}

fn bundle_b() -> BundleAccount {
    BundleAccount { address: addr(0xbb), info: None, storage: vec![slot(2, 5, 5)] }
}

#[test]
fn state_delta_completeness() {
    let bundle = LedgerBundle { accounts: vec![bundle_a(), bundle_b()] };
    let out = reconstruct_state(&bundle).unwrap();
    assert_eq!(
        out,
        vec![
            AccountDelta {
                address: addr(0xaa),
                balance: Some(num(100)),
                nonce: Some(3),
                code: None,
                storage: vec![StorageEntry { slot: num(1), value: num(42) }],
            },
            AccountDelta {
                address: addr(0xbb),
                balance: None,
                nonce: None,
                code: None,
                storage: vec![StorageEntry { slot: num(2), value: num(5) }],
            },
        ]
    );
}

#[test]
fn state_delta_ignores_entry_order_and_original_values() {
    let first = LedgerBundle { accounts: vec![bundle_a(), bundle_b()] };
    let mut b = bundle_b();
    b.storage = vec![slot(2, 9, 5)];
    let second = LedgerBundle { accounts: vec![b, bundle_a()] };
    assert_eq!(reconstruct_state(&first), reconstruct_state(&second));
    let f1 = StateUpdateFrame { hash: word(3), bundle: Some(first) };
    let f2 = StateUpdateFrame { hash: word(3), bundle: Some(second) };
    assert_eq!(decode_state_update(&f1), decode_state_update(&f2));
}

#[test]
fn state_delta_keeps_present_value_and_code() {
    let bundle = LedgerBundle {
        accounts: vec![BundleAccount {
            address: addr(1),
            info: Some(AccountInfo { balance: num(0), nonce: 0, code: Some(vec![0x60, 0x00]) }),
            storage: vec![slot(8, 3, 0), slot(7, 1, 2)],
        }],
    };
    let frame = StateUpdateFrame { hash: word(0xcc), bundle: Some(bundle) };
    let update = decode_state_update(&frame).unwrap();
    assert_eq!(update.block_hash, word(0xcc));
    assert_eq!(update.accounts[0].balance, Some(num(0)));
    assert_eq!(update.accounts[0].code, Some(vec![0x60, 0x00]));
    assert_eq!(
        update.accounts[0].storage,
        vec![StorageEntry { slot: num(7), value: num(2) }, StorageEntry { slot: num(8), value: num(0) }]
    );
    assert_eq!(reconstruct_state(&LedgerBundle { accounts: vec![] }), Some(vec![]));
}

#[test]
fn state_delta_refuses_a_bundle_that_is_not_a_mapping() {
    let twice = LedgerBundle { accounts: vec![bundle_a(), bundle_a()] };
    assert_eq!(reconstruct_state(&twice), None);
    let mut a = bundle_a();
    a.storage = vec![slot(1, 0, 1), slot(1, 0, 2)];
    assert_eq!(reconstruct_state(&LedgerBundle { accounts: vec![a] }), None);
    let mut narrow = bundle_b();
    narrow.address = vec![0xbb; 19];
    assert_eq!(reconstruct_state(&LedgerBundle { accounts: vec![narrow] }), None);
    let mut short_balance = bundle_a();
    short_balance.info = Some(AccountInfo { balance: vec![100], nonce: 3, code: None });
    let f = StateUpdateFrame { hash: word(1), bundle: Some(LedgerBundle { accounts: vec![short_balance] }) };
    assert_eq!(decode_state_update(&f), None);
}

#[test]
fn state_update_discarded_on_bad_hash_or_missing_bundle() {
    let short = StateUpdateFrame { hash: vec![1; 31], bundle: Some(LedgerBundle { accounts: vec![] }) };
    assert_eq!(decode_state_update(&short), None);
    let missing = StateUpdateFrame { hash: word(1), bundle: None };
    assert_eq!(decode_state_update(&missing), None);
}

#[test]
fn header_keeps_declared_hash() {
    let declared = word(0x42);
    let f = HeaderFrame { header: Some(header(9)), hash: declared.clone() };
    let sealed = decode_header(&f).unwrap();
    assert_eq!(sealed.hash, declared);
    assert_eq!(sealed.header, header(9));
}

#[test]
fn header_discarded_when_missing_or_malformed() {
    assert_eq!(decode_header(&HeaderFrame { header: None, hash: word(1) }), None);
    let mut h = header(1);
    h.beneficiary = vec![1; 19];
    assert_eq!(decode_header(&HeaderFrame { header: Some(h), hash: word(1) }), None);
}

#[test]
fn log_association() {
    let log = |b: u8| RawLog { address: addr(b), topics: vec![word(b)], data: vec![b] };
    let f = ReceiptsFrame {
        receipts: Some(vec![
            Receipt { success: true, cumulative_gas_used: 10, logs: vec![log(1)] },
            Receipt { success: true, cumulative_gas_used: 20, logs: vec![log(2), log(3)] },
        ]),
        block: Some(block_frame(2)),
    };
    let out = decode_logs(&f).unwrap();
    assert_eq!(out.block_hash, word(0xbb));
    assert_eq!(out.logs.len(), 3);
    let addrs: Vec<Vec<u8>> = out.logs.iter().map(|l| l.address.clone()).collect();
    assert_eq!(addrs, vec![addr(1), addr(2), addr(3)]);
    let idx: Vec<(u64, u64)> = out.logs.iter().map(|l| (l.transaction_index, l.log_index)).collect();
    assert_eq!(idx, vec![(0, 0), (1, 1), (1, 2)]);
    assert_eq!(out.logs[2].transaction_hash, word(0x11));
    assert_eq!(out.logs[2].block_number, 5);
    assert_eq!(out.logs[1].topics, vec![word(2)]);
    assert!(out.logs.iter().all(|l| !l.removed));
}

#[test]
fn logs_discarded_when_association_fails() {
    let f = ReceiptsFrame {
        receipts: Some(vec![Receipt { success: true, cumulative_gas_used: 1, logs: vec![] }]),
        block: Some(block_frame(2)),
    };
    assert_eq!(decode_logs(&f), None);
    let g = ReceiptsFrame { receipts: None, block: Some(block_frame(0)) };
    assert_eq!(decode_logs(&g), None);
}

#[test]
fn mempool_transaction_needs_recovered_sender() {
    let f = tx_frame(1);
    assert_eq!(decode_mempool_transaction(&f, &None), None);
    let t = decode_mempool_transaction(&f, &Some(addr(4))).unwrap();
    assert_eq!(t.from, addr(4));
    assert_eq!(t.hash, word(1));
    let mut bad = tx_frame(1);
    bad.signature = vec![0; 64];
    assert_eq!(decode_mempool_transaction(&bad, &Some(addr(4))), None);
}

#[test]
fn block_threads_hash_and_difficulty() {
    let mut f = block_frame(2);
    if let Some(h) = f.header.as_mut() {
        h.difficulty = word(0x77);
    }
    let b = decode_block(&f).unwrap();
    assert_eq!(b.header.hash, word(0xbb));
    assert_eq!(b.header.header.difficulty, word(0x77));
    assert_eq!(b.transactions.len(), 2);
    assert_eq!(b.transactions[1].from, addr(0x21));
    f.senders.pop();
    assert_eq!(decode_block(&f), None);
    let mut headless = block_frame(0);
    headless.header = None;
    assert_eq!(decode_block(&headless), None);
}

#[test]
fn lifecycle_variants() {
    let committed = LifecycleFrame {
        notification: Some(NotificationFrame::ChainCommitted { new: Some(vec![block_frame(1)]) }),
    };
    match decode_lifecycle(&committed) {
        Some(Lifecycle::ChainCommitted { new }) => assert_eq!(new.len(), 1),
        other => panic!("unexpected {:?}", other),
    }
    let reorged = LifecycleFrame {
        notification: Some(NotificationFrame::ChainReorged {
            old: Some(vec![block_frame(0)]),
            new: Some(vec![block_frame(1), block_frame(2)]),
        }),
    };
    match decode_lifecycle(&reorged) {
        Some(Lifecycle::ChainReorged { old, new }) => {
            assert_eq!(old.len(), 1);
            assert_eq!(new.len(), 2);
        }
        other => panic!("unexpected {:?}", other),
    }
    assert_eq!(decode_lifecycle(&LifecycleFrame { notification: None }), None);
    let reverted_missing = LifecycleFrame { notification: Some(NotificationFrame::ChainReverted { old: None }) };
    assert_eq!(decode_lifecycle(&reverted_missing), None);
}

#[test]
fn round_trip_transaction_header_block() {
    let t = Transaction {
        hash: word(1),
        from: addr(2),
        nonce: 3,
        to: None,
        value: word(4),
        input: vec![],
        signature: vec![6; 65],
    };
    let b = decode_block(&block_frame(3)).unwrap();
    let events = vec![DomainEvent::Transaction(t), header_event(8), DomainEvent::Block(b)];
    for e in events {
        let f = encode_event(&e).unwrap();
        assert_eq!(decode_frame(&f), Some(e.clone()));
        assert_eq!(classify(&f), Signal::Decoded(e));
    }
}

#[test]
fn decode_frame_dispatches_by_kind() {
    let f = Frame::StateUpdate(StateUpdateFrame { hash: word(1), bundle: Some(LedgerBundle { accounts: vec![] }) });
    match decode_frame(&f) {
        Some(DomainEvent::StateUpdate(u)) => assert!(u.accounts.is_empty()),
        other => panic!("unexpected {:?}", other),
    }
    let bad = Frame::Lifecycle(LifecycleFrame { notification: None });
    assert_eq!(classify(&bad), Signal::Malformed);
}

#[test]
fn round_trip_state_update() {
    let update = remote_exex::delta::StateUpdate {
        block_hash: word(0xdd),
        accounts: vec![
            AccountDelta {
                address: addr(1),
                balance: Some(num(9)),
                nonce: Some(1),
                code: Some(vec![0x60]),
                storage: vec![
                    StorageEntry { slot: num(3), value: num(4) },
                    StorageEntry { slot: num(5), value: num(0) },
                ],
            },
            AccountDelta { address: addr(2), balance: None, nonce: None, code: None, storage: vec![] },
        ],
    };
    let e = DomainEvent::StateUpdate(update);
    let f = encode_event(&e).unwrap();
    assert_eq!(decode_frame(&f), Some(e));
}

#[test]
fn round_trip_lifecycle() {
    let b = decode_block(&block_frame(1)).unwrap();
    let l = DomainEvent::Lifecycle(Lifecycle::ChainReorged { old: vec![b.clone()], new: vec![b.clone(), b] });
    let f = encode_event(&l).unwrap();
    assert_eq!(decode_frame(&f), Some(l));
}

#[test]
fn encoder_refuses_what_no_frame_carries() {
    let logs = remote_exex::logs::BlockLogs { block_hash: word(1), logs: vec![] };
    assert_eq!(encode_event(&DomainEvent::Logs(logs)), None);
}
