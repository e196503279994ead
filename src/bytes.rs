use vstd::prelude::*;

verus! {

/// Width in bytes of a hash, a storage slot and a 256-bit word.
pub const WORD_LEN: usize = 32;

/// Width in bytes of an account address.
pub const ADDRESS_LEN: usize = 20;

/// Width in bytes of a recoverable secp256k1 signature (r, s, v).
pub const SIGNATURE_LEN: usize = 65;

pub open spec fn is_word(s: Seq<u8>) -> bool {
    s.len() == WORD_LEN
}

pub open spec fn is_address(s: Seq<u8>) -> bool {
    s.len() == ADDRESS_LEN
}

pub open spec fn opt_bytes_view(o: Option<Vec<u8>>) -> Option<Seq<u8>> {
    match o {
        Some(v) => Some(v@),
        None => None,
    }
}

/// Lexicographic order on byte strings; on strings of one width it is the
/// order of the big-endian numbers they encode.
pub open spec fn lex_lt(a: Seq<u8>, b: Seq<u8>) -> bool
    decreases a.len(),
{
    if a.len() == 0 {
        b.len() > 0
    } else if b.len() == 0 {
        false
    } else if a[0] != b[0] {
        a[0] < b[0]
    } else {
        lex_lt(a.drop_first(), b.drop_first())
    }
}

pub proof fn lemma_lex_irreflexive(a: Seq<u8>)
    ensures
        !lex_lt(a, a),
    decreases a.len(),
{
    if a.len() > 0 {
        lemma_lex_irreflexive(a.drop_first());
    }
}

pub proof fn lemma_lex_transitive(a: Seq<u8>, b: Seq<u8>, c: Seq<u8>)
    requires
        lex_lt(a, b),
        lex_lt(b, c),
    ensures
        lex_lt(a, c),
    decreases a.len(),
{
    if a.len() > 0 && b.len() > 0 && c.len() > 0 && a[0] == b[0] && b[0] == c[0] {
        lemma_lex_transitive(a.drop_first(), b.drop_first(), c.drop_first());
    }
}

pub proof fn lemma_lex_total(a: Seq<u8>, b: Seq<u8>)
    ensures
        a == b || lex_lt(a, b) || lex_lt(b, a),
    decreases a.len(),
{
    if a.len() > 0 && b.len() > 0 && a[0] == b[0] {
        lemma_lex_total(a.drop_first(), b.drop_first());
        if a.drop_first() == b.drop_first() {
            assert(a =~= seq![a[0]] + a.drop_first());
            assert(b =~= seq![b[0]] + b.drop_first());
        }
    } else if a.len() == 0 && b.len() == 0 {
        assert(a =~= b);
    }
}

/// Whether `a` comes strictly before `b` in lexicographic order.
pub fn bytes_lt(a: &Vec<u8>, b: &Vec<u8>) -> (r: bool)
    ensures
        r == lex_lt(a@, b@),
{
    let mut i: usize = 0;
    assert(a@.subrange(0, a@.len() as int) =~= a@);
    assert(b@.subrange(0, b@.len() as int) =~= b@);
    while i < a.len() && i < b.len()
        invariant
            i <= a@.len(),
            i <= b@.len(),
            lex_lt(a@, b@) == lex_lt(
                a@.subrange(i as int, a@.len() as int),
                b@.subrange(i as int, b@.len() as int),
            ),
        decreases a@.len() - i,
    {
        let ghost sa = a@.subrange(i as int, a@.len() as int);
        let ghost sb = b@.subrange(i as int, b@.len() as int);
        assert(sa[0] == a@[i as int] && sb[0] == b@[i as int]);
        if a[i] != b[i] {
            return a[i] < b[i];
        }
        assert(sa.drop_first() =~= a@.subrange(i + 1, a@.len() as int));
        assert(sb.drop_first() =~= b@.subrange(i + 1, b@.len() as int));
        i = i + 1;
    }
    let ghost sa = a@.subrange(i as int, a@.len() as int);
    let ghost sb = b@.subrange(i as int, b@.len() as int);
    assert(sa.len() == 0 || sb.len() == 0);
    i < b.len()
}

pub open spec fn keys_distinct(keys: Seq<Vec<u8>>) -> bool {
    forall|i: int, j: int|
        0 <= i < keys.len() && 0 <= j < keys.len() && i != j ==> (#[trigger] keys[i])@ != (
        #[trigger] keys[j])@
}

/// `perm` lists the positions of `keys`, each once, in strictly increasing
/// order of their keys.
pub open spec fn is_sorted_order(perm: Seq<usize>, keys: Seq<Vec<u8>>) -> bool {
    &&& perm.len() == keys.len()
    &&& forall|a: int| 0 <= a < perm.len() ==> (#[trigger] perm[a]) < keys.len()
    &&& forall|m: int| 0 <= m < keys.len() ==> #[trigger] in_order(perm, m)
    &&& forall|a: int, b: int|
        0 <= a < b < perm.len() ==> lex_lt(
            keys[#[trigger] perm[a] as int]@,
            keys[#[trigger] perm[b] as int]@,
        )
}

pub open spec fn in_order(perm: Seq<usize>, m: int) -> bool {
    exists|a: int| 0 <= a < perm.len() && perm[a] == m
}

/// The first place in `perm` whose key is not below `key`.
fn order_position(perm: &Vec<usize>, keys: &Vec<Vec<u8>>, key: &Vec<u8>) -> (p: usize)
    requires
        forall|a: int| 0 <= a < perm@.len() ==> (#[trigger] perm@[a]) < keys@.len(),
    ensures
        p <= perm@.len(),
        forall|a: int| 0 <= a < p ==> lex_lt(keys@[#[trigger] perm@[a] as int]@, key@),
        p < perm@.len() ==> !lex_lt(keys@[perm@[p as int] as int]@, key@),
{
    let mut p: usize = 0;
    let mut found = false;
    while p < perm.len() && !found
        invariant
            p <= perm@.len(),
            forall|a: int| 0 <= a < perm@.len() ==> (#[trigger] perm@[a]) < keys@.len(),
            forall|a: int| 0 <= a < p ==> lex_lt(keys@[#[trigger] perm@[a] as int]@, key@),
            found ==> p < perm@.len() && !lex_lt(keys@[perm@[p as int] as int]@, key@),
        decreases perm@.len() - p + (if found { 0int } else { 1int }),
    {
        if bytes_lt(&keys[perm[p]], key) {
            p = p + 1;
        } else {
            found = true;
        }
    }
    p
}

/// The positions of `keys` in strictly increasing order of their keys, or
/// `None` where two keys are equal.
pub fn sorted_order(keys: &Vec<Vec<u8>>) -> (r: Option<Vec<usize>>)
    ensures
        r is Some <==> keys_distinct(keys@),
        r is Some ==> is_sorted_order(r->0@, keys@),
{
    let mut perm: Vec<usize> = Vec::new();
    let mut k: usize = 0;
    while k < keys.len()
        invariant
            k <= keys@.len(),
            perm@.len() == k,
            forall|a: int| 0 <= a < perm@.len() ==> (#[trigger] perm@[a]) < k,
            forall|m: int| 0 <= m < k ==> #[trigger] in_order(perm@, m),
            forall|a: int, b: int|
                0 <= a < b < perm@.len() ==> lex_lt(
                    keys@[#[trigger] perm@[a] as int]@,
                    keys@[#[trigger] perm@[b] as int]@,
                ),
            forall|i: int, j: int|
                0 <= i < k && 0 <= j < k && i != j ==> (#[trigger] keys@[i])@ != (
                #[trigger] keys@[j])@,
        decreases keys@.len() - k,
    {
        let key = &keys[k];
        let p = order_position(&perm, keys, key);
        if p < perm.len() && !bytes_lt(key, &keys[perm[p]]) {
            proof {
                let m = perm@[p as int] as int;
                lemma_lex_total(keys@[m]@, key@);
                assert(keys@[m]@ == keys@[k as int]@);
                assert(m != k);
            }
            return None;
        }
        let ghost old_perm = perm@;
        proof {
            assert forall|m: int| 0 <= m < k implies keys@[m]@ != keys@[k as int]@ by {
                assert(in_order(old_perm, m));
                let a = choose|a: int| 0 <= a < old_perm.len() && old_perm[a] == m;
                if keys@[m]@ == key@ {
                    if a < p {
                        lemma_lex_irreflexive(key@);
                    } else if a == p {
                        lemma_lex_irreflexive(key@);
                    } else {
                        assert(lex_lt(keys@[old_perm[p as int] as int]@, keys@[old_perm[a] as int]@));
                        lemma_lex_transitive(key@, keys@[old_perm[p as int] as int]@, key@);
                        lemma_lex_irreflexive(key@);
                    }
                }
            }
        }
        perm.insert(p, k);
        proof {
            let np = perm@;
            assert(np == old_perm.insert(p as int, k));
            assert forall|a: int| 0 <= a < np.len() implies (#[trigger] np[a]) < k + 1 by {
                if a > p {
                    assert(np[a] == old_perm[a - 1]);
                }
            }
            assert forall|m: int| 0 <= m < k + 1 implies #[trigger] in_order(np, m) by {
                if m == k {
                    assert(np[p as int] == k);
                } else {
                    assert(in_order(old_perm, m));
                    let a = choose|a: int| 0 <= a < old_perm.len() && old_perm[a] == m;
                    if a < p {
                        assert(np[a] == m);
                    } else {
                        assert(np[a + 1] == m);
                    }
                }
            }
            assert forall|a: int, b: int| 0 <= a < b < np.len() implies lex_lt(
                keys@[#[trigger] np[a] as int]@,
                keys@[#[trigger] np[b] as int]@,
            ) by {
                if b < p {
                } else if b == p {
                } else if a < p {
                    assert(np[b] == old_perm[b - 1]);
                    if b - 1 > p {
                        assert(lex_lt(keys@[old_perm[p as int] as int]@, keys@[old_perm[b - 1] as int]@));
                        lemma_lex_transitive(key@, keys@[old_perm[p as int] as int]@, keys@[old_perm[b - 1] as int]@);
                    }
                    lemma_lex_transitive(keys@[np[a] as int]@, key@, keys@[np[b] as int]@);
                } else if a == p {
                    assert(np[b] == old_perm[b - 1]);
                    if b - 1 > p {
                        assert(lex_lt(keys@[old_perm[p as int] as int]@, keys@[old_perm[b - 1] as int]@));
                        lemma_lex_transitive(key@, keys@[old_perm[p as int] as int]@, keys@[old_perm[b - 1] as int]@);
                    }
                } else {
                    assert(np[a] == old_perm[a - 1]);
                    assert(np[b] == old_perm[b - 1]);
                }
            }
        }
        k = k + 1;
    }
    Some(perm)
}

pub open spec fn strictly_sorted(s: Seq<Seq<u8>>) -> bool {
    forall|a: int, b: int| 0 <= a < b < s.len() ==> lex_lt(#[trigger] s[a], #[trigger] s[b])
}

/// Two strictly sorted sequences that hold the same keys are equal.
pub proof fn lemma_sorted_unique(s1: Seq<Seq<u8>>, s2: Seq<Seq<u8>>)
    requires
        strictly_sorted(s1),
        strictly_sorted(s2),
        forall|i: int| 0 <= i < s1.len() ==> s2.contains(#[trigger] s1[i]),
        forall|j: int| 0 <= j < s2.len() ==> s1.contains(#[trigger] s2[j]),
    ensures
        s1 == s2,
    decreases s1.len(),
{
    if s1.len() == 0 {
        if s2.len() > 0 {
            assert(s1.contains(s2[0]));
        }
        assert(s1 =~= s2);
    } else if s2.len() == 0 {
        assert(s2.contains(s1[0]));
    } else {
        assert(s2.contains(s1[0]));
        let j = choose|j: int| 0 <= j < s2.len() && s2[j] == s1[0];
        assert(s1.contains(s2[0]));
        let i = choose|i: int| 0 <= i < s1.len() && s1[i] == s2[0];
        if j > 0 {
            assert(lex_lt(s2[0], s2[j]));
            if i == 0 {
                lemma_lex_irreflexive(s1[0]);
            } else {
                assert(lex_lt(s1[0], s1[i]));
                lemma_lex_transitive(s1[0], s1[i], s1[0]);
                lemma_lex_irreflexive(s1[0]);
            }
        }
        let t1 = s1.drop_first();
        let t2 = s2.drop_first();
        assert forall|a: int| 0 <= a < t1.len() implies t2.contains(#[trigger] t1[a]) by {
            assert(s1[a + 1] == t1[a]);
            assert(s2.contains(s1[a + 1]));
            let b = choose|b: int| 0 <= b < s2.len() && s2[b] == s1[a + 1];
            assert(lex_lt(s1[0], s1[a + 1]));
            if b == 0 {
                lemma_lex_irreflexive(s1[0]);
            }
            assert(t2[b - 1] == t1[a]);
        }
        assert forall|a: int| 0 <= a < t2.len() implies t1.contains(#[trigger] t2[a]) by {
            assert(s2[a + 1] == t2[a]);
            assert(s1.contains(s2[a + 1]));
            let b = choose|b: int| 0 <= b < s1.len() && s1[b] == s2[a + 1];
            assert(lex_lt(s2[0], s2[a + 1]));
            if b == 0 {
                lemma_lex_irreflexive(s2[0]);
            }
            assert(t1[b - 1] == t2[a]);
        }
        assert forall|a: int, b: int| 0 <= a < b < t1.len() implies lex_lt(#[trigger] t1[a], #[trigger] t1[b]) by {
            assert(lex_lt(s1[a + 1], s1[b + 1]));
        }
        assert forall|a: int, b: int| 0 <= a < b < t2.len() implies lex_lt(#[trigger] t2[a], #[trigger] t2[b]) by {
            assert(lex_lt(s2[a + 1], s2[b + 1]));
        }
        lemma_sorted_unique(t1, t2);
        assert(s1 =~= seq![s1[0]] + t1);
        assert(s2 =~= seq![s2[0]] + t2);
    }
}

/// A byte-for-byte copy of `v`.
pub fn copy_bytes(v: &Vec<u8>) -> (r: Vec<u8>)
    ensures
        r@ == v@,
{
    let r = v.clone();
    assert(r@ =~= v@);
    r
}

pub fn copy_opt_bytes(o: &Option<Vec<u8>>) -> (r: Option<Vec<u8>>)
    ensures
        opt_bytes_view(r) == opt_bytes_view(*o),
{
    match o {
        Some(v) => Some(copy_bytes(v)),
        None => None,
    }
}

/// Copies a slice into a fixed-width value of `width` bytes; `None` when the
/// slice has any other length.
pub fn fixed_from_slice(b: &[u8], width: usize) -> (r: Option<Vec<u8>>)
    ensures
        r is Some <==> b@.len() == width,
        r is Some ==> r->0@ == b@,
{
    if b.len() != width {
        return None;
    }
    let mut out: Vec<u8> = Vec::new();
    let mut i: usize = 0;
    while i < b.len()
        invariant
            i <= b@.len(),
            out@ == b@.subrange(0, i as int),
        decreases b@.len() - i,
    {
        out.push(b[i]);
        i = i + 1;
        assert(out@ =~= b@.subrange(0, i as int));
    }
    assert(out@ =~= b@);
    Some(out)
}

/// A 32-byte hash from raw bytes, as a block or transaction hash is read off
/// the wire.
pub fn hash_from_slice(b: &[u8]) -> (r: Option<Vec<u8>>)
    ensures
        r is Some <==> is_word(b@),
        r is Some ==> r->0@ == b@,
{
    fixed_from_slice(b, WORD_LEN)
}

} // verus!
