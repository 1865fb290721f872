//! Byte-lexicographic key ordering and the mathematical model of a sequence
//! of key/value entries: the map it denotes and its exact byte footprint.

use vstd::prelude::*;

verus! {

/// Strict byte-lexicographic order: `a` comes before `b`.
pub open spec fn lex_lt(a: Seq<u8>, b: Seq<u8>) -> bool
    decreases a.len(),
{
    if b.len() == 0 {
        false
    } else if a.len() == 0 {
        true
    } else if a[0] < b[0] {
        true
    } else if a[0] > b[0] {
        false
    } else {
        lex_lt(a.drop_first(), b.drop_first())
    }
}

pub proof fn lemma_lex_irrefl(a: Seq<u8>)
    ensures
        !lex_lt(a, a),
    decreases a.len(),
{
    if a.len() > 0 {
        lemma_lex_irrefl(a.drop_first());
    }
}

/// Keys that compare neither way are equal: the order is total.
pub proof fn lemma_lex_connex(a: Seq<u8>, b: Seq<u8>)
    requires
        !lex_lt(a, b),
        !lex_lt(b, a),
    ensures
        a == b,
    decreases a.len(),
{
    if b.len() == 0 {
        assert(a.len() == 0);
        assert(a =~= b);
    } else {
        assert(a.len() > 0);
        assert(a[0] == b[0]);
        lemma_lex_connex(a.drop_first(), b.drop_first());
        assert(a.drop_first() =~= b.drop_first());
        assert(a.len() == b.len());
        assert forall|i: int| 0 <= i < a.len() implies a[i] == b[i] by {
            if i > 0 {
                assert(a.drop_first()[i - 1] == b.drop_first()[i - 1]);
            }
        }
        assert(a =~= b);
    }
}

pub proof fn lemma_lex_trans(a: Seq<u8>, b: Seq<u8>, c: Seq<u8>)
    requires
        lex_lt(a, b),
        lex_lt(b, c),
    ensures
        lex_lt(a, c),
    decreases a.len(),
{
    if a.len() > 0 {
        assert(b.len() > 0);
        assert(c.len() > 0);
        if a[0] == b[0] && b[0] == c[0] {
            lemma_lex_trans(a.drop_first(), b.drop_first(), c.drop_first());
        }
    }
}

/// One step of the element-wise comparison: equal heads at position `i`
/// leave the verdict to the remaining suffixes.
pub proof fn lemma_lex_skip_one(a: Seq<u8>, b: Seq<u8>, i: int)
    requires
        0 <= i < a.len(),
        i < b.len(),
        a[i] == b[i],
    ensures
        lex_lt(a.skip(i), b.skip(i)) == lex_lt(a.skip(i + 1), b.skip(i + 1)),
{
    assert(a.skip(i)[0] == a[i]);
    assert(b.skip(i)[0] == b[i]);
    assert(a.skip(i).drop_first() =~= a.skip(i + 1));
    assert(b.skip(i).drop_first() =~= b.skip(i + 1));
}

/// Strict comparison of two byte strings, element by element.
pub fn key_lt(a: &[u8], b: &[u8]) -> (r: bool)
    ensures
        r == lex_lt(a@, b@),
{
    let alen: usize = a.len();
    let blen: usize = b.len();
    let mut i: usize = 0;
    proof {
        assert(a@.skip(0) =~= a@);
        assert(b@.skip(0) =~= b@);
    }
    loop
        invariant
            i <= alen,
            i <= blen,
            alen == a@.len(),
            blen == b@.len(),
            lex_lt(a@, b@) == lex_lt(a@.skip(i as int), b@.skip(i as int)),
        decreases alen - i,
    {
        if i >= blen {
            return false;
        }
        if i >= alen {
            return true;
        }
        let x: u8 = a[i];
        let y: u8 = b[i];
        if x < y {
            assert(a@.skip(i as int)[0] == x);
            assert(b@.skip(i as int)[0] == y);
            return true;
        }
        if x > y {
            assert(a@.skip(i as int)[0] == x);
            assert(b@.skip(i as int)[0] == y);
            return false;
        }
        proof {
            lemma_lex_skip_one(a@, b@, i as int);
        }
        i = i + 1;
    }
}

/// Equality of two byte strings.
pub fn key_eq(a: &[u8], b: &[u8]) -> (r: bool)
    ensures
        r == (a@ == b@),
{
    let alen: usize = a.len();
    let blen: usize = b.len();
    if alen != blen {
        return false;
    }
    let mut i: usize = 0;
    while i < alen
        invariant
            i <= alen,
            alen == a@.len(),
            alen == b@.len(),
            forall|j: int| 0 <= j < i ==> a@[j] == b@[j],
        decreases alen - i,
    {
        if a[i] != b[i] {
            return false;
        }
        i = i + 1;
    }
    proof {
        assert(a@ =~= b@);
    }
    true
}

/// A sequence of key/value entries, each a pair of byte strings.
pub type KvSeq = Seq<(Seq<u8>, Seq<u8>)>;

/// Keys strictly ascending: sorted, with no duplicates.
pub open spec fn keys_sorted<V>(s: Seq<(Seq<u8>, V)>) -> bool {
    forall|i: int, j: int| 0 <= i < j < s.len() ==> lex_lt(#[trigger] s[i].0, #[trigger] s[j].0)
}

pub open spec fn kv_contains<V>(s: Seq<(Seq<u8>, V)>, k: Seq<u8>) -> bool {
    exists|i: int| 0 <= i < s.len() && #[trigger] s[i].0 == k
}

pub open spec fn kv_idx<V>(s: Seq<(Seq<u8>, V)>, k: Seq<u8>) -> int {
    choose|i: int| 0 <= i < s.len() && #[trigger] s[i].0 == k
}

/// The map denoted by an entry sequence; meaningful when keys are unique.
pub open spec fn kv_map<V>(s: Seq<(Seq<u8>, V)>) -> Map<Seq<u8>, V> {
    Map::new(|k: Seq<u8>| kv_contains(s, k), |k: Seq<u8>| s[kv_idx(s, k)].1)
}

/// In a strictly sorted sequence an occurring key occurs exactly once.
pub proof fn lemma_sorted_key_unique<V>(s: Seq<(Seq<u8>, V)>, i: int, j: int)
    requires
        keys_sorted(s),
        0 <= i < s.len(),
        0 <= j < s.len(),
        s[i].0 == s[j].0,
    ensures
        i == j,
{
    if i < j {
        lemma_lex_irrefl(s[i].0);
    }
    if j < i {
        lemma_lex_irrefl(s[i].0);
    }
}

/// The map agrees with the entries, position by position.
pub proof fn lemma_kv_map_at<V>(s: Seq<(Seq<u8>, V)>, i: int)
    requires
        keys_sorted(s),
        0 <= i < s.len(),
    ensures
        kv_map(s).contains_key(s[i].0),
        kv_map(s)[s[i].0] == s[i].1,
{
    assert(kv_contains(s, s[i].0));
    let w: int = kv_idx(s, s[i].0);
    lemma_sorted_key_unique(s, i, w);
}

/// A key the map holds is one of the entries.
pub proof fn lemma_kv_map_contains<V>(s: Seq<(Seq<u8>, V)>, k: Seq<u8>)
    requires
        kv_map(s).contains_key(k),
    ensures
        kv_contains(s, k),
{
}

/// The exact number of payload bytes an entry sequence occupies.
pub open spec fn byte_sum(s: KvSeq) -> int
    decreases s.len(),
{
    if s.len() == 0 {
        0
    } else {
        byte_sum(s.drop_last()) + s.last().0.len() + s.last().1.len()
    }
}

pub proof fn lemma_byte_sum_concat(a: KvSeq, b: KvSeq)
    ensures
        byte_sum(a + b) == byte_sum(a) + byte_sum(b),
    decreases b.len(),
{
    if b.len() == 0 {
        assert(a + b =~= a);
    } else {
        assert((a + b).drop_last() =~= a + b.drop_last());
        lemma_byte_sum_concat(a, b.drop_last());
    }
}

pub proof fn lemma_byte_sum_nonneg(s: KvSeq)
    ensures
        byte_sum(s) >= 0,
    decreases s.len(),
{
    if s.len() > 0 {
        lemma_byte_sum_nonneg(s.drop_last());
    }
}

/// How many leading entries have keys strictly below `k`: the position of
/// the first entry not below it.
pub open spec fn spec_lower_bound<V>(s: Seq<(Seq<u8>, V)>, k: Seq<u8>) -> int
    decreases s.len(),
{
    if s.len() == 0 {
        0
    } else if lex_lt(s[0].0, k) {
        1 + spec_lower_bound(s.drop_first(), k)
    } else {
        0
    }
}

pub proof fn lemma_lower_bound_props<V>(s: Seq<(Seq<u8>, V)>, k: Seq<u8>)
    requires
        keys_sorted(s),
    ensures
        0 <= spec_lower_bound(s, k) <= s.len(),
        forall|j: int| 0 <= j < spec_lower_bound(s, k) ==> lex_lt((#[trigger] s[j]).0, k),
        forall|j: int|
            spec_lower_bound(s, k) <= j < s.len() ==> !lex_lt((#[trigger] s[j]).0, k),
    decreases s.len(),
{
    if s.len() > 0 {
        let t = s.drop_first();
        assert forall|a: int, b: int| 0 <= a < b < t.len() implies lex_lt(t[a].0, t[b].0) by {
            assert(t[a] == s[a + 1] && t[b] == s[b + 1]);
        }
        if lex_lt(s[0].0, k) {
            lemma_lower_bound_props(t, k);
            let i = spec_lower_bound(s, k);
            assert(i == 1 + spec_lower_bound(t, k));
            assert forall|j: int| 0 <= j < i implies lex_lt((#[trigger] s[j]).0, k) by {
                if j > 0 {
                    assert(t[j - 1] == s[j]);
                    assert(lex_lt(t[j - 1].0, k));
                }
            }
            assert forall|j: int| i <= j < s.len() implies !lex_lt((#[trigger] s[j]).0, k) by {
                assert(t[j - 1] == s[j]);
                assert(!lex_lt(t[j - 1].0, k));
            }
        } else {
            assert forall|j: int| 0 <= j < s.len() implies !lex_lt((#[trigger] s[j]).0, k) by {
                if j > 0 && lex_lt(s[j].0, k) {
                    assert(lex_lt(s[0].0, s[j].0));
                    lemma_lex_trans(s[0].0, s[j].0, k);
                }
            }
        }
    }
}

/// Any position with everything below it strictly under `k` and nothing at
/// or past it under `k` is the lower bound.
pub proof fn lemma_lower_bound_unique<V>(s: Seq<(Seq<u8>, V)>, k: Seq<u8>, i: int)
    requires
        keys_sorted(s),
        0 <= i <= s.len(),
        forall|j: int| 0 <= j < i ==> lex_lt((#[trigger] s[j]).0, k),
        forall|j: int| i <= j < s.len() ==> !lex_lt((#[trigger] s[j]).0, k),
    ensures
        i == spec_lower_bound(s, k),
{
    lemma_lower_bound_props(s, k);
    let lb = spec_lower_bound(s, k);
    if i < lb {
        assert(lex_lt(s[i].0, k));
        assert(!lex_lt(s[i].0, k));
    }
    if lb < i {
        assert(lex_lt(s[lb].0, k));
        assert(!lex_lt(s[lb].0, k));
    }
}

/// Adjacent order gives total order.
pub proof fn lemma_chain_lt<V>(s: Seq<(Seq<u8>, V)>, i: int, j: int)
    requires
        forall|t: int| 0 <= t < s.len() - 1 ==> lex_lt((#[trigger] s[t]).0, s[t + 1].0),
        0 <= i < j < s.len(),
    ensures
        lex_lt(s[i].0, s[j].0),
    decreases j - i,
{
    if j == i + 1 {
        assert(lex_lt(s[i].0, s[i + 1].0));
    } else {
        lemma_chain_lt(s, i, j - 1);
        assert(lex_lt(s[j - 1].0, s[j].0));
        lemma_lex_trans(s[i].0, s[j - 1].0, s[j].0);
    }
}

/// A sequence whose every neighbouring pair ascends is sorted.
pub proof fn lemma_adjacent_sorted<V>(s: Seq<(Seq<u8>, V)>)
    requires
        forall|t: int| 0 <= t < s.len() - 1 ==> lex_lt((#[trigger] s[t]).0, s[t + 1].0),
    ensures
        keys_sorted(s),
{
    assert forall|i: int, j: int| 0 <= i < j < s.len() implies lex_lt(s[i].0, s[j].0) by {
        lemma_chain_lt(s, i, j);
    }
}

/// The model of a vector of key/value pairs.
pub open spec fn pairs_view(s: Seq<(Vec<u8>, Vec<u8>)>) -> KvSeq {
    Seq::new(s.len(), |i: int| (s[i].0@, s[i].1@))
}

pub proof fn lemma_byte_sum_split(s: KvSeq, i: int)
    requires
        0 <= i <= s.len(),
    ensures
        byte_sum(s) == byte_sum(s.subrange(0, i)) + byte_sum(s.subrange(i, s.len() as int)),
{
    assert(s =~= s.subrange(0, i) + s.subrange(i, s.len() as int));
    lemma_byte_sum_concat(s.subrange(0, i), s.subrange(i, s.len() as int));
}

/// Splicing a fresh key into its sorted position keeps the sequence sorted,
/// inserts it into the denoted map, and grows the footprint exactly.
pub proof fn lemma_kv_insert<V>(s: Seq<(Seq<u8>, V)>, i: int, k: Seq<u8>, v: V)
    requires
        keys_sorted(s),
        0 <= i <= s.len(),
        forall|j: int| 0 <= j < i ==> lex_lt(#[trigger] s[j].0, k),
        forall|j: int| i <= j < s.len() ==> lex_lt(k, #[trigger] s[j].0),
    ensures
        keys_sorted(s.insert(i, (k, v))),
        kv_map(s.insert(i, (k, v))) == kv_map(s).insert(k, v),
{
    let s2 = s.insert(i, (k, v));
    s.insert_ensures(i, (k, v));
    assert forall|a: int, b: int| 0 <= a < b < s2.len() implies lex_lt(s2[a].0, s2[b].0) by {
        if b < i {
            assert(s2[a] == s[a] && s2[b] == s[b]);
        } else if b == i {
            assert(s2[a] == s[a] && s2[b].0 == k);
        } else if a < i {
            assert(s2[a] == s[a] && s2[b] == s[b - 1]);
            if a == b - 1 {
                assert(false);
            }
        } else if a == i {
            assert(s2[a].0 == k && s2[b] == s[b - 1]);
        } else {
            assert(s2[a] == s[a - 1] && s2[b] == s[b - 1]);
        }
    }
    let m1 = kv_map(s2);
    let m2 = kv_map(s).insert(k, v);
    assert forall|q: Seq<u8>| m1.contains_key(q) implies m2.contains_key(q) && m1[q] == m2[q] by {
        let w: int = kv_idx(s2, q);
        assert(0 <= w < s2.len() && s2[w].0 == q);
        lemma_kv_map_at(s2, w);
        if w == i {
            assert(q == k);
            assert(m1[q] == v);
        } else if w < i {
            assert(s2[w] == s[w]);
            lemma_lex_irrefl(k);
            assert(q != k);
            lemma_kv_map_at(s, w);
        } else {
            assert(s2[w] == s[w - 1]);
            lemma_lex_irrefl(k);
            assert(q != k);
            lemma_kv_map_at(s, w - 1);
        }
    }
    assert forall|q: Seq<u8>| m2.contains_key(q) implies m1.contains_key(q) by {
        if q == k {
            assert(s2[i].0 == k);
            assert(kv_contains(s2, q));
        } else {
            assert(kv_contains(s, q));
            let w: int = kv_idx(s, q);
            if w < i {
                assert(s2[w].0 == q);
            } else {
                assert(s2[w + 1].0 == q);
            }
            assert(kv_contains(s2, q));
        }
    }
    assert(m1 =~= m2);
}

/// Splicing in an entry grows the byte footprint exactly.
pub proof fn lemma_byte_sum_insert(s: KvSeq, i: int, k: Seq<u8>, v: Seq<u8>)
    requires
        0 <= i <= s.len(),
    ensures
        byte_sum(s.insert(i, (k, v))) == byte_sum(s) + k.len() + v.len(),
{
    s.insert_ensures(i, (k, v));
    assert(s.subrange(0, i).push((k, v)) =~= s.subrange(0, i) + seq![(k, v)]);
    lemma_byte_sum_concat(s.subrange(0, i), seq![(k, v)]);
    lemma_byte_sum_concat(s.subrange(0, i) + seq![(k, v)], s.subrange(i, s.len() as int));
    assert(seq![(k, v)].drop_last() =~= Seq::<(Seq<u8>, Seq<u8>)>::empty());
    assert(seq![(k, v)].last() == (k, v));
    assert(byte_sum(Seq::<(Seq<u8>, Seq<u8>)>::empty()) == 0);
    assert(byte_sum(seq![(k, v)]) == k.len() + v.len());
    lemma_byte_sum_split(s, i);
}

/// Removing one entry keeps the sequence sorted, removes its key from the
/// denoted map, and shrinks the footprint exactly.
pub proof fn lemma_kv_remove<V>(s: Seq<(Seq<u8>, V)>, i: int)
    requires
        keys_sorted(s),
        0 <= i < s.len(),
    ensures
        keys_sorted(s.remove(i)),
        kv_map(s.remove(i)) == kv_map(s).remove(s[i].0),
        forall|j: int| 0 <= j < i ==> #[trigger] s.remove(i)[j] == s[j],
        forall|j: int| i <= j < s.len() - 1 ==> #[trigger] s.remove(i)[j] == s[j + 1],
{
    let s2 = s.remove(i);
    s.remove_ensures(i);
    assert forall|a: int, b: int| 0 <= a < b < s2.len() implies lex_lt(s2[a].0, s2[b].0) by {
        if b < i {
            assert(s2[a] == s[a] && s2[b] == s[b]);
        } else if a < i {
            assert(s2[a] == s[a] && s2[b] == s[b + 1]);
        } else {
            assert(s2[a] == s[a + 1] && s2[b] == s[b + 1]);
        }
    }
    let m1 = kv_map(s2);
    let m2 = kv_map(s).remove(s[i].0);
    assert forall|q: Seq<u8>| #[trigger] m1.dom().contains(q) implies m2.dom().contains(q) && m1[q]
        == m2[q] by {
        assert(kv_contains(s2, q));
        let w: int = kv_idx(s2, q);
        assert(0 <= w < s2.len() && s2[w].0 == q);
        lemma_kv_map_at(s2, w);
        lemma_lex_irrefl(s[i].0);
        if w < i {
            assert(s2[w] == s[w]);
            assert(lex_lt(s[w].0, s[i].0));
            assert(q != s[i].0);
            lemma_kv_map_at(s, w);
        } else {
            assert(s2[w] == s[w + 1]);
            assert(lex_lt(s[i].0, s[w + 1].0));
            assert(q != s[i].0);
            lemma_kv_map_at(s, w + 1);
        }
    }
    assert forall|q: Seq<u8>| #[trigger] m2.dom().contains(q) implies m1.dom().contains(q) by {
        assert(q != s[i].0);
        assert(kv_contains(s, q));
        let w: int = kv_idx(s, q);
        assert(w != i);
        if w < i {
            assert(s2[w].0 == q);
        } else {
            assert(s2[w - 1].0 == q);
        }
        assert(kv_contains(s2, q));
    }
    assert(m1.dom() =~= m2.dom());
    assert(m1 =~= m2);
}

/// Removing an entry shrinks the byte footprint exactly.
pub proof fn lemma_byte_sum_remove(s: KvSeq, i: int)
    requires
        0 <= i < s.len(),
    ensures
        byte_sum(s.remove(i)) == byte_sum(s) - s[i].0.len() - s[i].1.len(),
        byte_sum(s) >= s[i].0.len() + s[i].1.len(),
{
    s.remove_ensures(i);
    lemma_byte_sum_split(s, i);
    lemma_byte_sum_concat(s.subrange(0, i), s.subrange(i + 1, s.len() as int));
    assert(s.subrange(i, s.len() as int) =~= seq![s[i]] + s.subrange(i + 1, s.len() as int));
    lemma_byte_sum_concat(seq![s[i]], s.subrange(i + 1, s.len() as int));
    assert(seq![s[i]].drop_last() =~= Seq::<(Seq<u8>, Seq<u8>)>::empty());
    assert(seq![s[i]].last() == s[i]);
    assert(byte_sum(Seq::<(Seq<u8>, Seq<u8>)>::empty()) == 0);
    assert(byte_sum(seq![s[i]]) == s[i].0.len() + s[i].1.len());
    lemma_byte_sum_nonneg(s.subrange(0, i));
    lemma_byte_sum_nonneg(s.subrange(i + 1, s.len() as int));
}

} // verus!
