//! Lexicographic order on texts (code point by code point, as `String`'s
//! `Ord` compares UTF-8 bytes) and a stable insertion sort on keyed slots.

use vstd::prelude::*;
use vstd::multiset::Multiset;

verus! {

/// `a` sorts strictly before `b`.
pub open spec fn lex_lt(a: Seq<char>, b: Seq<char>) -> bool
    decreases a.len(),
{
    if a.len() == 0 {
        b.len() > 0
    } else if b.len() == 0 {
        false
    } else if a[0] != b[0] {
        (a[0] as int) < (b[0] as int)
    } else {
        lex_lt(a.drop_first(), b.drop_first())
    }
}

pub open spec fn lex_le(a: Seq<char>, b: Seq<char>) -> bool {
    lex_lt(a, b) || a == b
}

pub proof fn lemma_lex_irreflexive(a: Seq<char>)
    ensures
        !lex_lt(a, a),
    decreases a.len(),
{
    if a.len() > 0 {
        lemma_lex_irreflexive(a.drop_first());
    }
}

pub proof fn lemma_lex_total(a: Seq<char>, b: Seq<char>)
    ensures
        lex_lt(a, b) || a == b || lex_lt(b, a),
    decreases a.len(),
{
    if a.len() == 0 && b.len() == 0 {
        assert(a =~= b);
    }
    if a.len() > 0 && b.len() > 0 && a[0] != b[0] {
        assert((a[0] as int) != (b[0] as int));
    }
    if a.len() > 0 && b.len() > 0 && a[0] == b[0] {
        lemma_lex_total(a.drop_first(), b.drop_first());
        if a.drop_first() == b.drop_first() {
            assert(a =~= seq![a[0]] + a.drop_first());
            assert(b =~= seq![b[0]] + b.drop_first());
        }
    }
}

pub proof fn lemma_lex_asymmetric(a: Seq<char>, b: Seq<char>)
    ensures
        !(lex_lt(a, b) && lex_lt(b, a)),
    decreases a.len(),
{
    if a.len() > 0 && b.len() > 0 && a[0] == b[0] {
        lemma_lex_asymmetric(a.drop_first(), b.drop_first());
    }
}

pub proof fn lemma_lex_transitive(a: Seq<char>, b: Seq<char>, c: Seq<char>)
    requires
        lex_lt(a, b),
        lex_lt(b, c),
    ensures
        lex_lt(a, c),
    decreases a.len(),
{
    if a.len() > 0 && b.len() > 0 && c.len() > 0 && a[0] == b[0] && b[0] == c[0] {
        lemma_lex_transitive(a.drop_first(), b.drop_first(), c.drop_first());
    }
}

/// Compares two texts. `Less` / `Equal` / `Greater` as `Precedes` / `Same` / `Follows`.
#[derive(Clone, Copy, Debug, PartialEq, Eq, Structural)]
pub enum Rank {
    Precedes,
    Same,
    Follows,
}

pub open spec fn rank_of(a: Seq<char>, b: Seq<char>) -> Rank {
    if a == b {
        Rank::Same
    } else if lex_lt(a, b) {
        Rank::Precedes
    } else {
        Rank::Follows
    }
}

pub fn rank_texts(a: &Vec<char>, b: &Vec<char>) -> (r: Rank)
    ensures
        r == rank_of(a@, b@),
        r is Follows ==> lex_lt(b@, a@),
{
    let mut k: usize = 0;
    while k < a.len() && k < b.len() && a[k] == b[k]
        invariant
            k <= a@.len(),
            k <= b@.len(),
            a@.subrange(0, k as int) == b@.subrange(0, k as int),
        decreases a@.len() - k,
    {
        assert(a@.subrange(0, k + 1) =~= a@.subrange(0, k as int).push(a@[k as int]));
        assert(b@.subrange(0, k + 1) =~= b@.subrange(0, k as int).push(b@[k as int]));
        k = k + 1;
    }
    proof {
        lemma_lex_common_prefix(a@, b@, k as int);
        lemma_lex_total(a@, b@);
        lemma_lex_asymmetric(a@, b@);
        lemma_lex_irreflexive(a@);
    }
    if k == a.len() && k == b.len() {
        assert(a@ =~= a@.subrange(0, k as int));
        assert(b@ =~= b@.subrange(0, k as int));
        Rank::Same
    } else if k == a.len() {
        Rank::Precedes
    } else if k == b.len() {
        Rank::Follows
    } else if a[k] < b[k] {
        Rank::Precedes
    } else {
        Rank::Follows
    }
}

/// After a common prefix of length `k`, the order is decided by what follows.
pub proof fn lemma_lex_common_prefix(a: Seq<char>, b: Seq<char>, k: int)
    requires
        0 <= k <= a.len(),
        k <= b.len(),
        a.subrange(0, k) == b.subrange(0, k),
    ensures
        lex_lt(a, b) == lex_lt(a.subrange(k, a.len() as int), b.subrange(k, b.len() as int)),
    decreases k,
{
    if k > 0 {
        assert(a[0] == a.subrange(0, k)[0]);
        assert(b[0] == b.subrange(0, k)[0]);
        assert(a.drop_first().subrange(0, k - 1) =~= a.subrange(0, k).drop_first());
        assert(b.drop_first().subrange(0, k - 1) =~= b.subrange(0, k).drop_first());
        lemma_lex_common_prefix(a.drop_first(), b.drop_first(), k - 1);
        assert(a.drop_first().subrange(k - 1, a.len() - 1) =~= a.subrange(k, a.len() as int));
        assert(b.drop_first().subrange(k - 1, b.len() - 1) =~= b.subrange(k, b.len() as int));
    } else {
        assert(a.subrange(0, a.len() as int) =~= a);
        assert(b.subrange(0, b.len() as int) =~= b);
    }
}

// ---------------------------------------------------------------------
// Two-level keys and a stable sort on them.
// ---------------------------------------------------------------------

/// A slot to sort: ordered by `primary`, then `secondary`. `slot` rides along.
pub struct SortItem {
    pub primary: Vec<char>,
    pub secondary: Vec<char>,
    pub slot: usize,
}

pub open spec fn key_of(x: SortItem) -> (Seq<char>, Seq<char>) {
    (x.primary@, x.secondary@)
}

/// Strict order on two-level keys.
pub open spec fn key_lt(a: (Seq<char>, Seq<char>), b: (Seq<char>, Seq<char>)) -> bool {
    lex_lt(a.0, b.0) || (a.0 == b.0 && lex_lt(a.1, b.1))
}

pub open spec fn key_le(a: (Seq<char>, Seq<char>), b: (Seq<char>, Seq<char>)) -> bool {
    key_lt(a, b) || a == b
}

pub proof fn lemma_key_transitive(a: (Seq<char>, Seq<char>), b: (Seq<char>, Seq<char>), c: (Seq<char>, Seq<char>))
    requires
        key_le(a, b),
        key_le(b, c),
    ensures
        key_le(a, c),
{
    if key_lt(a, b) && key_lt(b, c) {
        if lex_lt(a.0, b.0) && lex_lt(b.0, c.0) {
            lemma_lex_transitive(a.0, b.0, c.0);
        } else if a.0 == b.0 && b.0 == c.0 {
            lemma_lex_transitive(a.1, b.1, c.1);
        }
    }
}

pub proof fn lemma_key_total(a: (Seq<char>, Seq<char>), b: (Seq<char>, Seq<char>))
    ensures
        key_lt(a, b) || a == b || key_lt(b, a),
        !(key_lt(a, b) && key_le(b, a)),
{
    lemma_lex_total(a.0, b.0);
    lemma_lex_total(a.1, b.1);
    lemma_lex_asymmetric(a.0, b.0);
    lemma_lex_asymmetric(a.1, b.1);
    lemma_lex_irreflexive(a.0);
    lemma_lex_irreflexive(a.1);
}

/// The keys of the items, in order.
pub open spec fn keys(s: Seq<SortItem>) -> Seq<(Seq<char>, Seq<char>)> {
    s.map_values(|x: SortItem| key_of(x))
}

/// The (key, slot) pairs of the items, in order.
pub open spec fn entries(s: Seq<SortItem>) -> Seq<((Seq<char>, Seq<char>), usize)> {
    s.map_values(|x: SortItem| (key_of(x), x.slot))
}

pub open spec fn sorted_keys(k: Seq<(Seq<char>, Seq<char>)>) -> bool {
    forall|i: int, j: int| 0 <= i < j < k.len() ==> key_le(k[i], k[j])
}

pub fn item_before(a: &SortItem, b: &SortItem) -> (r: bool)
    ensures
        r == key_lt(key_of(*a), key_of(*b)),
{
    proof {
        lemma_lex_irreflexive(a.primary@);
        lemma_lex_irreflexive(a.secondary@);
    }
    match rank_texts(&a.primary, &b.primary) {
        Rank::Precedes => true,
        Rank::Follows => {
            proof {
                lemma_lex_asymmetric(a.primary@, b.primary@);
            }
            false
        },
        Rank::Same => match rank_texts(&a.secondary, &b.secondary) {
            Rank::Precedes => true,
            Rank::Same => false,
            Rank::Follows => {
                proof {
                    lemma_lex_asymmetric(a.secondary@, b.secondary@);
                }
                false
            },
        },
    }
}

pub proof fn lemma_insert_multiset<A>(s: Seq<A>, pos: int, x: A)
    requires
        0 <= pos <= s.len(),
    ensures
        s.insert(pos, x).to_multiset() == s.to_multiset().insert(x),
{
    let a = s.subrange(0, pos);
    let b = s.subrange(pos, s.len() as int);
    assert(s.insert(pos, x) =~= a + (seq![x] + b));
    assert(s =~= a + b);
    vstd::seq_lib::lemma_multiset_commutative(a, seq![x] + b);
    vstd::seq_lib::lemma_multiset_commutative(seq![x], b);
    vstd::seq_lib::lemma_multiset_commutative(a, b);
    assert(seq![x].to_multiset() =~= Multiset::singleton(x)) by {
        broadcast use vstd::seq_lib::group_to_multiset_ensures;
        assert(seq![x] =~= Seq::<A>::empty().push(x));
    }
}

/// Stable insertion sort by key. Equal keys keep their input order.
pub fn sort_items(items: Vec<SortItem>) -> (out: Vec<SortItem>)
    ensures
        sorted_keys(keys(out@)),
        entries(out@).to_multiset() == entries(items@).to_multiset(),
        out@.len() == items@.len(),
{
    let mut out: Vec<SortItem> = Vec::new();
    let mut rest = items;
    let ghost orig = rest@;
    let n = rest.len();
    assert(entries(out@) =~= entries(orig.subrange(n as int, n as int)));
    // Consume from the back so `pop` is cheap; stability is kept by
    // inserting before the first strictly greater key from the right.
    while rest.len() > 0
        invariant
            sorted_keys(keys(out@)),
            orig.len() == n,
            rest@ == orig.subrange(0, rest@.len() as int),
            entries(out@).to_multiset() == entries(orig.subrange(rest@.len() as int, n as int)).to_multiset(),
            out@.len() + rest@.len() == n,
        decreases rest@.len(),
    {
        let x = rest.pop().unwrap();
        let ghost rlen = rest@.len();
        // Find the first position whose key is not below x: insert there, so
        // x precedes every later-input item with an equal key.
        let mut pos: usize = 0;
        while pos < out.len() && item_before(&out[pos], &x)
            invariant
                pos <= out@.len(),
                forall|j: int| 0 <= j < pos ==> key_lt(key_of(out@[j]), key_of(x)),
            decreases out@.len() - pos,
        {
            pos = pos + 1;
        }
        proof {
            let k = keys(out@);
            assert forall|j: int| pos <= j < out@.len() implies key_le(key_of(x), k[j]) by {
                if j == pos {
                    lemma_key_total(k[j], key_of(x));
                } else {
                    lemma_key_total(k[pos as int], key_of(x));
                    lemma_key_transitive(key_of(x), k[pos as int], k[j]);
                }
            }
        }
        let ghost before = out@;
        out.insert(pos, x);
        proof {
            let k = keys(out@);
            assert(out@ =~= before.insert(pos as int, x));
            assert forall|i: int, j: int| 0 <= i < j < k.len() implies key_le(k[i], k[j]) by {
                let kb = keys(before);
                if j < pos {
                    assert(k[i] == kb[i] && k[j] == kb[j]);
                } else if j == pos {
                    assert(k[i] == kb[i]);
                } else if i == pos {
                    assert(k[j] == kb[j - 1]);
                } else if i < pos {
                    assert(k[i] == kb[i] && k[j] == kb[j - 1]);
                    lemma_key_total(key_of(x), kb[j - 1]);
                    lemma_key_transitive(kb[i], key_of(x), kb[j - 1]);
                } else {
                    assert(k[i] == kb[i - 1] && k[j] == kb[j - 1]);
                }
            }
            assert(entries(out@) =~= entries(before).insert(pos as int, (key_of(x), x.slot)));
            lemma_insert_multiset(entries(before), pos as int, (key_of(x), x.slot));
            let tail_new = orig.subrange(rlen as int, n as int);
            let tail_old = orig.subrange(rlen as int + 1, n as int);
            assert(tail_new =~= seq![orig[rlen as int]] + tail_old);
            assert(entries(tail_new) =~= seq![(key_of(x), x.slot)] + entries(tail_old));
            vstd::seq_lib::lemma_multiset_commutative(seq![(key_of(x), x.slot)], entries(tail_old));
            assert(seq![(key_of(x), x.slot)].to_multiset() =~= Multiset::singleton((key_of(x), x.slot))) by {
                broadcast use vstd::seq_lib::group_to_multiset_ensures;
                assert(seq![(key_of(x), x.slot)] =~= Seq::<((Seq<char>, Seq<char>), usize)>::empty().push((key_of(x), x.slot)));
            }
        }
    }
    assert(orig.subrange(0, n as int) =~= orig);
    out
}


// ---------------------------------------------------------------------
// Facts about permutations (equal multisets).
// ---------------------------------------------------------------------

/// Equal multisets map to equal multisets.
pub proof fn lemma_multiset_map<A, B>(s1: Seq<A>, s2: Seq<A>, f: spec_fn(A) -> B)
    requires
        s1.to_multiset() == s2.to_multiset(),
    ensures
        s1.map_values(f).to_multiset() == s2.map_values(f).to_multiset(),
    decreases s1.len(),
{
    broadcast use vstd::seq_lib::group_to_multiset_ensures;

    if s1.len() == 0 {
        assert(s2.to_multiset().len() == 0);
        assert(s2.len() == 0);
        assert(s1.map_values(f) =~= s2.map_values(f));
    } else {
        let x = s1.last();
        let r1 = s1.drop_last();
        assert(s1 =~= r1.push(x));
        assert(s1.to_multiset().count(x) > 0);
        assert(s2.contains(x));
        let j = choose|j: int| 0 <= j < s2.len() && s2[j] == x;
        let r2 = s2.remove(j);
        assert(r1.to_multiset() =~= s1.to_multiset().remove(x));
        assert(r2.to_multiset() =~= s2.to_multiset().remove(x));
        lemma_multiset_map(r1, r2, f);
        assert(s1.map_values(f) =~= r1.map_values(f).push(f(x)));
        assert(r2.map_values(f) =~= s2.map_values(f).remove(j));
        assert(s2.map_values(f)[j] == f(x));
        assert(s2.map_values(f).remove(j).to_multiset() =~= s2.map_values(f).to_multiset().remove(f(x)));
        assert(s2.map_values(f).to_multiset().count(f(x)) > 0);
        assert(s2.map_values(f).to_multiset() =~= s2.map_values(f).to_multiset().remove(f(x)).insert(f(x)));
    }
}

/// With equal multisets, every element of one occurs in the other.
pub proof fn lemma_multiset_members<A>(s1: Seq<A>, s2: Seq<A>)
    requires
        s1.to_multiset() == s2.to_multiset(),
    ensures
        forall|p: int| 0 <= p < s1.len() ==> s2.contains(#[trigger] s1[p]),
        forall|q: int| 0 <= q < s2.len() ==> s1.contains(#[trigger] s2[q]),
{
    broadcast use vstd::seq_lib::group_to_multiset_ensures;

    assert forall|p: int| 0 <= p < s1.len() implies s2.contains(#[trigger] s1[p]) by {
        assert(s1.contains(s1[p]));
        assert(s1.to_multiset().count(s1[p]) > 0);
        assert(s2.to_multiset().count(s1[p]) > 0);
    }
    assert forall|q: int| 0 <= q < s2.len() implies s1.contains(#[trigger] s2[q]) by {
        assert(s2.contains(s2[q]));
        assert(s2.to_multiset().count(s2[q]) > 0);
        assert(s1.to_multiset().count(s2[q]) > 0);
    }
}

/// A permutation of a list without repeats has no repeats.
pub proof fn lemma_multiset_no_dups<A>(s1: Seq<A>, s2: Seq<A>)
    requires
        s1.to_multiset() == s2.to_multiset(),
        s2.no_duplicates(),
    ensures
        s1.no_duplicates(),
{
    s2.lemma_multiset_has_no_duplicates();
    s1.lemma_multiset_has_no_duplicates_conv();
}

/// Texts in non-decreasing order.
pub open spec fn sorted_texts(t: Seq<Seq<char>>) -> bool {
    forall|i: int, j: int| 0 <= i < j < t.len() ==> lex_le(#[trigger] t[i], #[trigger] t[j])
}

/// Texts in strictly increasing order (hence without repeats).
pub open spec fn strictly_sorted_texts(t: Seq<Seq<char>>) -> bool {
    forall|i: int, j: int| 0 <= i < j < t.len() ==> lex_lt(#[trigger] t[i], #[trigger] t[j])
}

/// Sort texts by code point order, keeping all of them.
pub fn sort_texts(v: &Vec<String>) -> (out: Vec<String>)
    ensures
        sorted_texts(crate::store::texts(out@)),
        crate::store::texts(out@).to_multiset() == crate::store::texts(v@).to_multiset(),
{
    let mut items: Vec<SortItem> = Vec::new();
    let n = v.len();
    for i in 0..n
        invariant
            n == v@.len(),
            items@.len() == i,
            forall|p: int| 0 <= p < i ==> (#[trigger] items@[p]).slot == p && items@[p].primary@ == v@[p]@
                && items@[p].secondary@ == Seq::<char>::empty(),
    {
        let primary = crate::text::chars_of(v[i].as_str());
        items.push(SortItem { primary, secondary: Vec::new(), slot: i });
    }
    let ghost inp = items@;
    let sorted = sort_items(items);
    proof {
        lemma_multiset_members(entries(sorted@), entries(inp));
    }
    let mut out: Vec<String> = Vec::new();
    let m = sorted.len();
    for p in 0..m
        invariant
            m == sorted@.len(),
            n == v@.len(),
            inp.len() == n,
            forall|q: int| 0 <= q < n ==> (#[trigger] inp[q]).slot == q && inp[q].primary@ == v@[q]@
                && inp[q].secondary@ == Seq::<char>::empty(),
            forall|q: int| 0 <= q < m ==> entries(inp).contains(#[trigger] entries(sorted@)[q]),
            out@.len() == p,
            forall|q: int| 0 <= q < p ==> (#[trigger] out@[q])@ == sorted@[q].primary@,
    {
        let slot = sorted[p].slot;
        proof {
            let w = choose|w: int| 0 <= w < entries(inp).len() && entries(inp)[w] == entries(sorted@)[p as int];
            assert(entries(inp)[w] == (key_of(inp[w]), inp[w].slot));
        }
        out.push(v[slot].clone());
    }
    proof {
        let prim = |e: ((Seq<char>, Seq<char>), usize)| e.0.0;
        assert(crate::store::texts(out@) =~= entries(sorted@).map_values(prim));
        assert(crate::store::texts(v@) =~= entries(inp).map_values(prim));
        lemma_multiset_map(entries(sorted@), entries(inp), prim);
        assert forall|i: int, j: int|
            0 <= i < j < crate::store::texts(out@).len() implies lex_le(
            #[trigger] crate::store::texts(out@)[i],
            #[trigger] crate::store::texts(out@)[j],
        ) by {
            assert(key_le(keys(sorted@)[i], keys(sorted@)[j]));
        }
    }
    out
}

} // verus!
