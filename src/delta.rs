use vstd::prelude::*;

use crate::bytes::{
    copy_bytes, copy_opt_bytes, hash_from_slice, in_order, is_address, is_sorted_order, is_word,
    lemma_sorted_unique, lex_lt, opt_bytes_view, sorted_order, ADDRESS_LEN, WORD_LEN,
};

verus! {

/// One touched storage slot of a ledger bundle: its value before the block
/// and its value after it.
#[derive(Clone, Debug, PartialEq, Eq)]
pub struct StorageSlot {
    pub slot: Vec<u8>,
    pub original_value: Vec<u8>,
    pub present_value: Vec<u8>,
}

/// Account metadata as a ledger bundle records it.
#[derive(Clone, Debug, PartialEq, Eq)]
pub struct AccountInfo {
    pub balance: Vec<u8>,
    pub nonce: u64,
    pub code: Option<Vec<u8>>,
}

/// Everything a ledger bundle records about one address.
#[derive(Clone, Debug, PartialEq, Eq)]
pub struct BundleAccount {
    pub address: Vec<u8>,
    pub info: Option<AccountInfo>,
    pub storage: Vec<StorageSlot>,
}

/// The raw ledger bundle of a block: one entry per touched address.
#[derive(Clone, Debug, PartialEq, Eq)]
pub struct LedgerBundle {
    pub accounts: Vec<BundleAccount>,
}

/// A storage slot and its value after the block.
#[derive(Clone, Debug, PartialEq, Eq)]
pub struct StorageEntry {
    pub slot: Vec<u8>,
    pub value: Vec<u8>,
}

/// The state of one address after a block: balance, nonce and code are set
/// only where the bundle carried account info, so that "unknown" stays
/// distinct from zero.
#[derive(Clone, Debug, PartialEq, Eq)]
pub struct AccountDelta {
    pub address: Vec<u8>,
    pub balance: Option<Vec<u8>>,
    pub nonce: Option<u64>,
    pub code: Option<Vec<u8>>,
    pub storage: Vec<StorageEntry>,
}

/// The per-block account-state delta, keyed by address.
#[derive(Clone, Debug, PartialEq, Eq)]
pub struct StateUpdate {
    pub block_hash: Vec<u8>,
    pub accounts: Vec<AccountDelta>,
}

/// A state-update frame as it arrives: the block hash in raw bytes and the
/// bundle, which the producer may have left out.
#[derive(Clone, Debug, PartialEq, Eq)]
pub struct StateUpdateFrame {
    pub hash: Vec<u8>,
    pub bundle: Option<LedgerBundle>,
}

pub open spec fn entry_is(e: StorageEntry, s: StorageSlot) -> bool {
    e.slot@ == s.slot@ && e.value@ == s.present_value@
}

/// `out` maps each slot of `slots` to its present value, in strictly
/// increasing order of slot, and holds nothing else.
pub open spec fn storage_matches(out: Seq<StorageEntry>, slots: Seq<StorageSlot>) -> bool {
    &&& out.len() == slots.len()
    &&& forall|a: int, b: int|
        0 <= a < b < out.len() ==> lex_lt((#[trigger] out[a]).slot@, (#[trigger] out[b]).slot@)
    &&& forall|m: int| 0 <= m < slots.len() ==> has_entry(out, #[trigger] slots[m])
    &&& forall|a: int| 0 <= a < out.len() ==> entry_from(#[trigger] out[a], slots)
}

#[verifier::opaque]
pub open spec fn has_entry(out: Seq<StorageEntry>, s: StorageSlot) -> bool {
    exists|a: int| 0 <= a < out.len() && entry_is(#[trigger] out[a], s)
}

#[verifier::opaque]
pub open spec fn entry_from(e: StorageEntry, slots: Seq<StorageSlot>) -> bool {
    exists|m: int| 0 <= m < slots.len() && entry_is(e, #[trigger] slots[m])
}

/// `d` is the account-state delta of the bundle entry `a`.
pub open spec fn delta_matches(d: AccountDelta, a: BundleAccount) -> bool {
    &&& d.address@ == a.address@
    &&& match a.info {
        Some(info) => {
            &&& opt_bytes_view(d.balance) == Some(info.balance@)
            &&& d.nonce == Some(info.nonce)
            &&& opt_bytes_view(d.code) == opt_bytes_view(info.code)
        },
        None => d.balance is None && d.nonce is None && d.code is None,
    }
    &&& storage_matches(d.storage@, a.storage@)
}

/// `out` holds the delta of each entry of `accounts`, in strictly increasing
/// order of address, and nothing else.
pub open spec fn deltas_match(out: Seq<AccountDelta>, accounts: Seq<BundleAccount>) -> bool {
    &&& out.len() == accounts.len()
    &&& forall|i: int, j: int|
        0 <= i < j < out.len() ==> lex_lt((#[trigger] out[i]).address@, (#[trigger] out[j]).address@)
    &&& forall|j: int| 0 <= j < accounts.len() ==> has_delta(out, #[trigger] accounts[j])
    &&& forall|i: int| 0 <= i < out.len() ==> delta_from(#[trigger] out[i], accounts)
}

pub open spec fn has_delta(out: Seq<AccountDelta>, a: BundleAccount) -> bool {
    exists|i: int| 0 <= i < out.len() && delta_matches(#[trigger] out[i], a)
}

pub open spec fn delta_from(d: AccountDelta, accounts: Seq<BundleAccount>) -> bool {
    exists|j: int| 0 <= j < accounts.len() && delta_matches(d, #[trigger] accounts[j])
}

pub open spec fn slot_ok(s: StorageSlot) -> bool {
    is_word(s.slot@) && is_word(s.original_value@) && is_word(s.present_value@)
}

/// An entry that a well-formed bundle can hold: fixed-width fields of their
/// width, and each slot at most once.
pub open spec fn account_ok(a: BundleAccount) -> bool {
    &&& is_address(a.address@)
    &&& (a.info is Some ==> is_word(a.info->0.balance@))
    &&& forall|m: int| 0 <= m < a.storage@.len() ==> slot_ok(#[trigger] a.storage@[m])
    &&& forall|k: int, l: int|
        0 <= k < a.storage@.len() && 0 <= l < a.storage@.len() && k != l ==> (
        #[trigger] a.storage@[k]).slot@ != (#[trigger] a.storage@[l]).slot@
}

/// A well-formed bundle: a mapping from address to entry.
pub open spec fn bundle_ok(accounts: Seq<BundleAccount>) -> bool {
    &&& forall|i: int| 0 <= i < accounts.len() ==> account_ok(#[trigger] accounts[i])
    &&& forall|i: int, j: int|
        0 <= i < accounts.len() && 0 <= j < accounts.len() && i != j
            ==> (#[trigger] accounts[i]).address@ != (#[trigger] accounts[j]).address@
}

fn slot_keys(slots: &Vec<StorageSlot>) -> (r: Vec<Vec<u8>>)
    ensures
        r@.len() == slots@.len(),
        forall|m: int| 0 <= m < r@.len() ==> (#[trigger] r@[m])@ == slots@[m].slot@,
{
    let mut out: Vec<Vec<u8>> = Vec::new();
    let mut k: usize = 0;
    while k < slots.len()
        invariant
            k <= slots@.len(),
            out@.len() == k,
            forall|m: int| 0 <= m < k ==> (#[trigger] out@[m])@ == slots@[m].slot@,
        decreases slots@.len() - k,
    {
        out.push(copy_bytes(&slots[k].slot));
        k = k + 1;
    }
    out
}

fn address_keys(accounts: &Vec<BundleAccount>) -> (r: Vec<Vec<u8>>)
    ensures
        r@.len() == accounts@.len(),
        forall|m: int| 0 <= m < r@.len() ==> (#[trigger] r@[m])@ == accounts@[m].address@,
{
    let mut out: Vec<Vec<u8>> = Vec::new();
    let mut k: usize = 0;
    while k < accounts.len()
        invariant
            k <= accounts@.len(),
            out@.len() == k,
            forall|m: int| 0 <= m < k ==> (#[trigger] out@[m])@ == accounts@[m].address@,
        decreases accounts@.len() - k,
    {
        out.push(copy_bytes(&accounts[k].address));
        k = k + 1;
    }
    out
}

/// The touched slots with their present values, sorted by slot; `None` when
/// a field lacks its width or a slot appears twice.
fn storage_delta(slots: &Vec<StorageSlot>) -> (r: Option<Vec<StorageEntry>>)
    ensures
        r is Some <==> ((forall|m: int| 0 <= m < slots@.len() ==> slot_ok(#[trigger] slots@[m]))
            && (forall|k: int, l: int|
            0 <= k < slots@.len() && 0 <= l < slots@.len() && k != l ==> (
            #[trigger] slots@[k]).slot@ != (#[trigger] slots@[l]).slot@)),
        r is Some ==> storage_matches(r->0@, slots@),
{
    let mut k: usize = 0;
    while k < slots.len()
        invariant
            k <= slots@.len(),
            forall|m: int| 0 <= m < k ==> slot_ok(#[trigger] slots@[m]),
        decreases slots@.len() - k,
    {
        let s = &slots[k];
        if s.slot.len() != WORD_LEN || s.original_value.len() != WORD_LEN || s.present_value.len()
            != WORD_LEN {
            return None;
        }
        k = k + 1;
    }
    let keys = slot_keys(slots);
    let perm = match sorted_order(&keys) {
        Some(p) => p,
        None => {
            proof {
                let (i, j) = choose|i: int, j: int|
                    0 <= i < keys@.len() && 0 <= j < keys@.len() && i != j && (#[trigger] keys@[i])@
                        == (#[trigger] keys@[j])@;
                assert(slots@[i].slot@ == slots@[j].slot@);
            }
            return None;
        },
    };
    proof {
        assert forall|i: int, j: int|
            0 <= i < slots@.len() && 0 <= j < slots@.len() && i != j implies (
            #[trigger] slots@[i]).slot@ != (#[trigger] slots@[j]).slot@ by {
            assert(keys@[i]@ != keys@[j]@);
        }
    }
    let mut out: Vec<StorageEntry> = Vec::new();
    let mut a: usize = 0;
    while a < perm.len()
        invariant
            a <= perm@.len(),
            is_sorted_order(perm@, keys@),
            keys@.len() == slots@.len(),
            forall|m: int| 0 <= m < keys@.len() ==> (#[trigger] keys@[m])@ == slots@[m].slot@,
            out@.len() == a,
            forall|b: int| 0 <= b < a ==> entry_is(#[trigger] out@[b], slots@[perm@[b] as int]),
        decreases perm@.len() - a,
    {
        let s = &slots[perm[a]];
        out.push(StorageEntry { slot: copy_bytes(&s.slot), value: copy_bytes(&s.present_value) });
        a = a + 1;
    }
    proof {
        assert forall|b: int, c: int| 0 <= b < c < out@.len() implies lex_lt(
            (#[trigger] out@[b]).slot@,
            (#[trigger] out@[c]).slot@,
        ) by {
            assert(lex_lt(keys@[perm@[b] as int]@, keys@[perm@[c] as int]@));
            assert(entry_is(out@[b], slots@[perm@[b] as int]));
            assert(entry_is(out@[c], slots@[perm@[c] as int]));
        }
        assert forall|m: int| 0 <= m < slots@.len() implies has_entry(out@, #[trigger] slots@[m]) by {
            reveal(has_entry);
            assert(in_order(perm@, m));
            let b = choose|b: int| 0 <= b < perm@.len() && perm@[b] == m;
            assert(entry_is(out@[b], slots@[m]));
        }
        assert forall|b: int| 0 <= b < out@.len() implies entry_from(#[trigger] out@[b], slots@) by {
            reveal(entry_from);
            assert(entry_is(out@[b], slots@[perm@[b] as int]));
        }
        assert(out@.len() == slots@.len());
        assert(storage_matches(out@, slots@));
    }
    Some(out)
}

/// The account-state delta of one bundle entry; `None` when the entry is not
/// well formed.
pub fn account_delta(a: &BundleAccount) -> (r: Option<AccountDelta>)
    ensures
        r is Some <==> account_ok(*a),
        r is Some ==> delta_matches(r->0, *a),
{
    if a.address.len() != ADDRESS_LEN {
        return None;
    }
    let storage = match storage_delta(&a.storage) {
        Some(s) => s,
        None => return None,
    };
    match &a.info {
        Some(info) => {
            if info.balance.len() != WORD_LEN {
                return None;
            }
            Some(
                AccountDelta {
                    address: copy_bytes(&a.address),
                    balance: Some(copy_bytes(&info.balance)),
                    nonce: Some(info.nonce),
                    code: copy_opt_bytes(&info.code),
                    storage,
                },
            )
        },
        None => Some(
            AccountDelta {
                address: copy_bytes(&a.address),
                balance: None,
                nonce: None,
                code: None,
                storage,
            },
        ),
    }
}

/// Rebuilds the per-address account-state delta of a ledger bundle: one
/// delta per address, in strictly increasing order of address, with balance,
/// nonce and code copied from its account info where there is one, and each
/// touched slot mapped to its present value, in strictly increasing order of
/// slot. The values from before the block are dropped. `None` when the bundle
/// is not a well-formed mapping.
pub fn reconstruct_state(bundle: &LedgerBundle) -> (r: Option<Vec<AccountDelta>>)
    ensures
        r is Some <==> bundle_ok(bundle.accounts@),
        r is Some ==> deltas_match(r->0@, bundle.accounts@),
{
    let accounts = &bundle.accounts;
    let mut i: usize = 0;
    while i < accounts.len()
        invariant
            i <= accounts@.len(),
            accounts@ == bundle.accounts@,
            forall|m: int| 0 <= m < i ==> account_ok(#[trigger] accounts@[m]),
        decreases accounts@.len() - i,
    {
        if account_delta(&accounts[i]).is_none() {
            assert(!account_ok(accounts@[i as int]));
            return None;
        }
        i = i + 1;
    }
    let keys = address_keys(accounts);
    let perm = match sorted_order(&keys) {
        Some(p) => p,
        None => {
            proof {
                let (i, j) = choose|i: int, j: int|
                    0 <= i < keys@.len() && 0 <= j < keys@.len() && i != j && (#[trigger] keys@[i])@
                        == (#[trigger] keys@[j])@;
                assert(accounts@[i].address@ == accounts@[j].address@);
            }
            return None;
        },
    };
    proof {
        assert forall|i: int, j: int|
            0 <= i < accounts@.len() && 0 <= j < accounts@.len() && i != j implies (
            #[trigger] accounts@[i]).address@ != (#[trigger] accounts@[j]).address@ by {
            assert(keys@[i]@ != keys@[j]@);
        }
    }
    let mut out: Vec<AccountDelta> = Vec::new();
    let mut a: usize = 0;
    while a < perm.len()
        invariant
            a <= perm@.len(),
            is_sorted_order(perm@, keys@),
            keys@.len() == accounts@.len(),
            accounts@ == bundle.accounts@,
            forall|m: int| 0 <= m < keys@.len() ==> (#[trigger] keys@[m])@ == accounts@[m].address@,
            forall|m: int| 0 <= m < accounts@.len() ==> account_ok(#[trigger] accounts@[m]),
            out@.len() == a,
            forall|b: int|
                0 <= b < a ==> delta_matches(#[trigger] out@[b], accounts@[perm@[b] as int]),
        decreases perm@.len() - a,
    {
        assert(account_ok(accounts@[perm@[a as int] as int]));
        if let Some(d) = account_delta(&accounts[perm[a]]) {
            out.push(d);
        }
        a = a + 1;
    }
    proof {
        assert forall|b: int, c: int| 0 <= b < c < out@.len() implies lex_lt(
            (#[trigger] out@[b]).address@,
            (#[trigger] out@[c]).address@,
        ) by {
            assert(lex_lt(keys@[perm@[b] as int]@, keys@[perm@[c] as int]@));
            assert(delta_matches(out@[b], accounts@[perm@[b] as int]));
            assert(delta_matches(out@[c], accounts@[perm@[c] as int]));
        }
        assert forall|m: int| 0 <= m < accounts@.len() implies has_delta(out@, #[trigger] accounts@[m]) by {
            assert(in_order(perm@, m));
            let b = choose|b: int| 0 <= b < perm@.len() && perm@[b] == m;
            assert(delta_matches(out@[b], accounts@[m]));
        }
        assert forall|b: int| 0 <= b < out@.len() implies delta_from(#[trigger] out@[b], accounts@) by {
            assert(delta_matches(out@[b], accounts@[perm@[b] as int]));
        }
        assert(out@.len() == accounts@.len());
        assert(deltas_match(out@, accounts@));
    }
    Some(out)
}

/// Two slot lists touch the same slots with the same present values.
#[verifier::opaque]
pub open spec fn slots_same(s1: Seq<StorageSlot>, s2: Seq<StorageSlot>) -> bool {
    &&& forall|k: int| 0 <= k < s1.len() ==> slot_in(#[trigger] s1[k], s2)
    &&& forall|l: int| 0 <= l < s2.len() ==> slot_in(#[trigger] s2[l], s1)
}

/// `slots` touches the slot of `x` with the same present value.
pub open spec fn slot_in(x: StorageSlot, slots: Seq<StorageSlot>) -> bool {
    exists|l: int|
        0 <= l < slots.len() && (#[trigger] slots[l]).slot@ == x.slot@ && slots[l].present_value@
            == x.present_value@
}

/// Two bundle entries say the same of one address: the same account info
/// and the same present values of the same slots.
pub open spec fn account_same(a1: BundleAccount, a2: BundleAccount) -> bool {
    &&& a1.address@ == a2.address@
    &&& a1.info is Some <==> a2.info is Some
    &&& a1.info is Some ==> {
        &&& a1.info->0.balance@ == a2.info->0.balance@
        &&& a1.info->0.nonce == a2.info->0.nonce
        &&& opt_bytes_view(a1.info->0.code) == opt_bytes_view(a2.info->0.code)
    }
    &&& slots_same(a1.storage@, a2.storage@)
}

/// Two bundles are the same mapping, whatever the order of their entries.
pub open spec fn bundles_same(b1: Seq<BundleAccount>, b2: Seq<BundleAccount>) -> bool {
    &&& forall|i: int| 0 <= i < b1.len() ==> account_in(#[trigger] b1[i], b2)
    &&& forall|j: int| 0 <= j < b2.len() ==> account_in(#[trigger] b2[j], b1)
}

/// `b` has an entry that says the same as `a`.
pub open spec fn account_in(a: BundleAccount, b: Seq<BundleAccount>) -> bool {
    exists|j: int| 0 <= j < b.len() && account_same(a, #[trigger] b[j])
}

pub open spec fn entries_same(e1: Seq<StorageEntry>, e2: Seq<StorageEntry>) -> bool {
    &&& e1.len() == e2.len()
    &&& forall|a: int|
        0 <= a < e1.len() ==> (#[trigger] e1[a]).slot@ == e2[a].slot@ && e1[a].value@ == e2[a].value@
}

pub open spec fn delta_same(d1: AccountDelta, d2: AccountDelta) -> bool {
    &&& d1.address@ == d2.address@
    &&& opt_bytes_view(d1.balance) == opt_bytes_view(d2.balance)
    &&& d1.nonce == d2.nonce
    &&& opt_bytes_view(d1.code) == opt_bytes_view(d2.code)
    &&& entries_same(d1.storage@, d2.storage@)
}

pub open spec fn slot_keys_of(e: Seq<StorageEntry>) -> Seq<Seq<u8>> {
    e.map_values(|x: StorageEntry| x.slot@)
}

pub open spec fn address_keys_of(d: Seq<AccountDelta>) -> Seq<Seq<u8>> {
    d.map_values(|x: AccountDelta| x.address@)
}

pub open spec fn slot_keys_distinct(s: Seq<StorageSlot>) -> bool {
    forall|k: int, l: int|
        0 <= k < s.len() && 0 <= l < s.len() && k != l ==> (#[trigger] s[k]).slot@ != (
        #[trigger] s[l]).slot@
}

/// The storage part of a delta depends on the touched slots as a mapping
/// only.
pub proof fn lemma_storage_canonical(
    s1: Seq<StorageSlot>,
    s2: Seq<StorageSlot>,
    e1: Seq<StorageEntry>,
    e2: Seq<StorageEntry>,
)
    requires
        storage_matches(e1, s1),
        storage_matches(e2, s2),
        slot_keys_distinct(s2),
        slots_same(s1, s2),
    ensures
        entries_same(e1, e2),
{
    let k1 = slot_keys_of(e1);
    let k2 = slot_keys_of(e2);
    assert forall|a: int| 0 <= a < k1.len() implies k2.contains(#[trigger] k1[a]) by {
        assert(entry_from(e1[a], s1));
        assert(exists|m: int| 0 <= m < s1.len() && entry_is(e1[a], #[trigger] s1[m])) by {
            reveal(entry_from);
        }
        let m = choose|m: int| 0 <= m < s1.len() && entry_is(e1[a], #[trigger] s1[m]);
        assert(slot_in(s1[m], s2)) by {
            reveal(slots_same);
        }
        let l = choose|l: int|
            0 <= l < s2.len() && (#[trigger] s2[l]).slot@ == s1[m].slot@ && s2[l].present_value@
                == s1[m].present_value@;
        assert(has_entry(e2, s2[l]));
        assert(exists|b: int| 0 <= b < e2.len() && entry_is(#[trigger] e2[b], s2[l])) by {
            reveal(has_entry);
        }
        let b = choose|b: int| 0 <= b < e2.len() && entry_is(#[trigger] e2[b], s2[l]);
        assert(k2[b] == k1[a]);
    }
    assert forall|b: int| 0 <= b < k2.len() implies k1.contains(#[trigger] k2[b]) by {
        assert(entry_from(e2[b], s2));
        assert(exists|l: int| 0 <= l < s2.len() && entry_is(e2[b], #[trigger] s2[l])) by {
            reveal(entry_from);
        }
        let l = choose|l: int| 0 <= l < s2.len() && entry_is(e2[b], #[trigger] s2[l]);
        assert(slot_in(s2[l], s1)) by {
            reveal(slots_same);
        }
        let m = choose|m: int|
            0 <= m < s1.len() && (#[trigger] s1[m]).slot@ == s2[l].slot@ && s1[m].present_value@
                == s2[l].present_value@;
        assert(has_entry(e1, s1[m]));
        assert(exists|a: int| 0 <= a < e1.len() && entry_is(#[trigger] e1[a], s1[m])) by {
            reveal(has_entry);
        }
        let a = choose|a: int| 0 <= a < e1.len() && entry_is(#[trigger] e1[a], s1[m]);
        assert(k1[a] == k2[b]);
    }
    assert forall|a: int, b: int| 0 <= a < b < k1.len() implies lex_lt(#[trigger] k1[a], #[trigger] k1[b]) by {
        assert(lex_lt(e1[a].slot@, e1[b].slot@));
    }
    assert forall|a: int, b: int| 0 <= a < b < k2.len() implies lex_lt(#[trigger] k2[a], #[trigger] k2[b]) by {
        assert(lex_lt(e2[a].slot@, e2[b].slot@));
    }
    lemma_sorted_unique(k1, k2);
    assert forall|a: int| 0 <= a < e1.len() implies (#[trigger] e1[a]).slot@ == e2[a].slot@
        && e1[a].value@ == e2[a].value@ by {
        assert(k1[a] == k2[a]);
        assert(entry_from(e1[a], s1));
        assert(exists|m: int| 0 <= m < s1.len() && entry_is(e1[a], #[trigger] s1[m])) by {
            reveal(entry_from);
        }
        let m = choose|m: int| 0 <= m < s1.len() && entry_is(e1[a], #[trigger] s1[m]);
        assert(slot_in(s1[m], s2)) by {
            reveal(slots_same);
        }
        let l = choose|l: int|
            0 <= l < s2.len() && (#[trigger] s2[l]).slot@ == s1[m].slot@ && s2[l].present_value@
                == s1[m].present_value@;
        assert(entry_from(e2[a], s2));
        assert(exists|l2: int| 0 <= l2 < s2.len() && entry_is(e2[a], #[trigger] s2[l2])) by {
            reveal(entry_from);
        }
        let l2 = choose|l2: int| 0 <= l2 < s2.len() && entry_is(e2[a], #[trigger] s2[l2]);
        assert(s2[l].slot@ == s2[l2].slot@);
    }
}

/// The reconstructed delta depends on the bundle as a mapping only: two
/// well-formed bundles that say the same of every address, in whatever order
/// and with whatever values from before the block, give the same deltas.
pub proof fn lemma_reconstruct_canonical(
    b1: Seq<BundleAccount>,
    b2: Seq<BundleAccount>,
    o1: Seq<AccountDelta>,
    o2: Seq<AccountDelta>,
)
    requires
        bundle_ok(b1),
        bundle_ok(b2),
        bundles_same(b1, b2),
        deltas_match(o1, b1),
        deltas_match(o2, b2),
    ensures
        o1.len() == o2.len(),
        forall|i: int| 0 <= i < o1.len() ==> delta_same(#[trigger] o1[i], o2[i]),
{
    let k1 = address_keys_of(o1);
    let k2 = address_keys_of(o2);
    assert forall|a: int| 0 <= a < k1.len() implies k2.contains(#[trigger] k1[a]) by {
        assert(delta_from(o1[a], b1));
        let m = choose|m: int| 0 <= m < b1.len() && delta_matches(o1[a], #[trigger] b1[m]);
        assert(account_in(b1[m], b2));
        let l = choose|l: int| 0 <= l < b2.len() && account_same(b1[m], #[trigger] b2[l]);
        assert(has_delta(o2, b2[l]));
        let c = choose|c: int| 0 <= c < o2.len() && delta_matches(#[trigger] o2[c], b2[l]);
        assert(k2[c] == k1[a]);
    }
    assert forall|c: int| 0 <= c < k2.len() implies k1.contains(#[trigger] k2[c]) by {
        assert(delta_from(o2[c], b2));
        let l = choose|l: int| 0 <= l < b2.len() && delta_matches(o2[c], #[trigger] b2[l]);
        assert(account_in(b2[l], b1));
        let m = choose|m: int| 0 <= m < b1.len() && account_same(b2[l], #[trigger] b1[m]);
        assert(has_delta(o1, b1[m]));
        let a = choose|a: int| 0 <= a < o1.len() && delta_matches(#[trigger] o1[a], b1[m]);
        assert(k1[a] == k2[c]);
    }
    assert forall|a: int, b: int| 0 <= a < b < k1.len() implies lex_lt(#[trigger] k1[a], #[trigger] k1[b]) by {
        assert(lex_lt(o1[a].address@, o1[b].address@));
    }
    assert forall|a: int, b: int| 0 <= a < b < k2.len() implies lex_lt(#[trigger] k2[a], #[trigger] k2[b]) by {
        assert(lex_lt(o2[a].address@, o2[b].address@));
    }
    lemma_sorted_unique(k1, k2);
    assert forall|i: int| 0 <= i < o1.len() implies delta_same(#[trigger] o1[i], o2[i]) by {
        assert(k1[i] == k2[i]);
        assert(delta_from(o1[i], b1));
        let m = choose|m: int| 0 <= m < b1.len() && delta_matches(o1[i], #[trigger] b1[m]);
        assert(account_in(b1[m], b2));
        let l = choose|l: int| 0 <= l < b2.len() && account_same(b1[m], #[trigger] b2[l]);
        assert(delta_from(o2[i], b2));
        let l2 = choose|l2: int| 0 <= l2 < b2.len() && delta_matches(o2[i], #[trigger] b2[l2]);
        assert(b2[l].address@ == b2[l2].address@);
        assert(l == l2);
        assert(account_ok(b2[l]));
        assert(slot_keys_distinct(b2[l].storage@));
        lemma_storage_canonical(b1[m].storage@, b2[l].storage@, o1[i].storage@, o2[i].storage@);
    }
}

/// Decodes a state-update frame: `None` when the block hash is not 32 bytes,
/// the bundle is missing or it is not a well-formed mapping; otherwise the
/// block hash and the reconstructed delta.
pub fn decode_state_update(frame: &StateUpdateFrame) -> (r: Option<StateUpdate>)
    ensures
        r is Some <==> (is_word(frame.hash@) && frame.bundle is Some && bundle_ok(
            frame.bundle->0.accounts@,
        )),
        r is Some ==> {
            &&& r->0.block_hash@ == frame.hash@
            &&& deltas_match(r->0.accounts@, frame.bundle->0.accounts@)
        },
{
    let hash = match hash_from_slice(frame.hash.as_slice()) {
        Some(h) => h,
        None => return None,
    };
    match &frame.bundle {
        Some(bundle) => match reconstruct_state(bundle) {
            Some(accounts) => Some(StateUpdate { block_hash: hash, accounts }),
            None => None,
        },
        None => None,
    }
}

} // verus!
