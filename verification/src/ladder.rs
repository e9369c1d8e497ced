//! Fourth night pass: motif → belief → trait. Latent traces do not mint.
//!
//! The strengths and valences of axioms are numbers on the weight payload;
//! here is the shape: which hours count as evidence for a schema, which layer
//! a new axiom takes, how support grows along merge edges, and whether an
//! axiom's hours were ever spoken.

use vstd::prelude::*;

use crate::lineage::{contains_text, listed};
use crate::model::{AxiomLayer, IdentityAxiom, MemoryTrace, TraceStatus};
use crate::order::{lemma_lex_asymmetric, lemma_lex_irreflexive, strictly_sorted_texts};
use crate::store::{texts, MemoryStore};
use crate::text::same_text;

verus! {

/// Two or more traces under one schema make a motif; three or more living ones a belief.
pub fn mint_layer(live_n: usize) -> (l: AxiomLayer)
    ensures
        l == (if live_n >= 3 {
            AxiomLayer::Belief
        } else {
            AxiomLayer::Motif
        }),
{
    if live_n >= 3 {
        AxiomLayer::Belief
    } else {
        AxiomLayer::Motif
    }
}

/// A motif that gathers three or more living hours becomes a belief; other layers stay.
pub fn promoted_layer(layer: AxiomLayer, live_n: usize) -> (l: AxiomLayer)
    ensures
        l == (if live_n >= 3 && layer == AxiomLayer::Motif {
            AxiomLayer::Belief
        } else {
            layer
        }),
{
    if live_n >= 3 && layer == AxiomLayer::Motif {
        AxiomLayer::Belief
    } else {
        layer
    }
}

impl<N, W> MemoryStore<N, W> {
    /// Some hour of `support` has been spoken (rehearsed at least once).
    pub open spec fn spoken_support(self, support: Seq<Seq<char>>) -> bool {
        exists|k: int, i: int|
            0 <= k < support.len() && 0 <= i < self.traces@.len() && #[trigger] self.traces@[i].id@
                == #[trigger] support[k] && self.traces@[i].rehearsals > 0
    }

    /// Whether an axiom's hours were ever spoken. Unspoken axioms rust.
    pub fn support_spoken(&self, support: &[String]) -> (r: bool)
        requires
            self.wf(),
        ensures
            r == self.spoken_support(texts(support@)),
    {
        let mut k: usize = 0;
        while k < support.len()
            invariant
                self.wf(),
                k <= support@.len(),
                forall|kk: int, i: int|
                    0 <= kk < k && 0 <= i < self.traces@.len() ==> !(#[trigger] self.traces@[i].id@
                        == #[trigger] texts(support@)[kk] && self.traces@[i].rehearsals > 0),
            decreases support@.len() - k,
        {
            match self.find_trace(support[k].as_str()) {
                Some(i) => {
                    if self.traces[i].rehearsals > 0 {
                        assert(self.traces@[i as int].id@ == texts(support@)[k as int]);
                        return true;
                    }
                    proof {
                        assert forall|i2: int|
                            0 <= i2 < self.traces@.len() && #[trigger] self.traces@[i2].id@ == texts(
                                support@,
                            )[k as int] implies self.traces@[i2].rehearsals == 0 by {
                            if i2 < i {
                                assert(self.traces@[i2].id@ != self.traces@[i as int].id@);
                            } else if i2 > i {
                                assert(self.traces@[i as int].id@ != self.traces@[i2].id@);
                            }
                        }
                    }
                },
                None => {},
            }
            k = k + 1;
        }
        false
    }

    /// The hours reached from `ids` by one merge edge and not already in `ids`.
    pub open spec fn one_step_out(self, ids: Seq<Seq<char>>, y: Seq<char>) -> bool {
        !ids.contains(y) && exists|q: int| 0 <= q < ids.len() && #[trigger] self.linked(ids[q], y)
    }

    /// The two hours do not rest on the same living axioms.
    pub open spec fn families_differ(self, a: Seq<char>, b: Seq<char>) -> bool {
        exists|x: Seq<char>| self.leans_on(a, x) != self.leans_on(b, x)
    }

    /// Whether two hours rest on different sets of living axioms (an hour with
    /// none differs from an hour with some).
    pub fn distinct_families(&self, a: &str, b: &str) -> (r: bool)
        requires
            self.wf(),
        ensures
            r == self.families_differ(a@, b@),
    {
        let fa = self.living_axiom_ids_for(a);
        let fb = self.living_axiom_ids_for(b);
        let same = same_texts(&fa, &fb);
        proof {
            if texts(fa@) == texts(fb@) {
                assert forall|x: Seq<char>| self.leans_on(a@, x) == self.leans_on(b@, x) by {
                    assert(texts(fa@).contains(x) == self.leans_on(a@, x));
                    assert(texts(fb@).contains(x) == self.leans_on(b@, x));
                }
            } else {
                if !self.families_differ(a@, b@) {
                    assert forall|x: Seq<char>| texts(fa@).contains(x) <==> texts(fb@).contains(x) by {
                        assert(self.leans_on(a@, x) == self.leans_on(b@, x));
                    }
                    lemma_sorted_same_members(texts(fa@), texts(fb@));
                }
            }
        }
        !same
    }
}

/// Whether two lists of strings hold the same texts in the same order.
pub fn same_texts(a: &Vec<String>, b: &Vec<String>) -> (r: bool)
    ensures
        r == (texts(a@) == texts(b@)),
{
    if a.len() != b.len() {
        return false;
    }
    let mut i: usize = 0;
    while i < a.len()
        invariant
            a@.len() == b@.len(),
            i <= a@.len(),
            forall|j: int| 0 <= j < i ==> a@[j]@ == b@[j]@,
        decreases a@.len() - i,
    {
        if !same_text(a[i].as_str(), b[i].as_str()) {
            assert(texts(a@)[i as int] != texts(b@)[i as int]);
            return false;
        }
        i = i + 1;
    }
    assert(texts(a@) =~= texts(b@));
    true
}

/// Two strictly sorted lists with the same members are the same list.
pub proof fn lemma_sorted_same_members(a: Seq<Seq<char>>, b: Seq<Seq<char>>)
    requires
        strictly_sorted_texts(a),
        strictly_sorted_texts(b),
        forall|x: Seq<char>| a.contains(x) <==> b.contains(x),
    ensures
        a == b,
    decreases a.len(),
{
    if a.len() == 0 {
        if b.len() > 0 {
            assert(b.contains(b[0]));
        }
        assert(a =~= b);
    } else if b.len() == 0 {
        assert(a.contains(a[0]));
    } else {
        assert(a.contains(a[0]));
        assert(b.contains(b[0]));
        let j = choose|j: int| 0 <= j < b.len() && b[j] == a[0];
        let i = choose|i: int| 0 <= i < a.len() && a[i] == b[0];
        if j > 0 {
            if i > 0 {
                lemma_lex_asymmetric(a[0], b[0]);
            } else {
                lemma_lex_irreflexive(b[0]);
            }
        }
        assert(a[0] == b[0]);
        let a1 = a.drop_first();
        let b1 = b.drop_first();
        assert forall|x: Seq<char>| a1.contains(x) <==> b1.contains(x) by {
            if a1.contains(x) {
                let p = choose|p: int| 0 <= p < a1.len() && a1[p] == x;
                assert(a.contains(x)) by {
                    assert(a[p + 1] == x);
                }
                let q = choose|q: int| 0 <= q < b.len() && b[q] == x;
                if q == 0 {
                    lemma_lex_irreflexive(a[0]);
                    assert(lex_lt_at(a, 0, p + 1));
                }
                assert(b1[q - 1] == x);
            }
            if b1.contains(x) {
                let p = choose|p: int| 0 <= p < b1.len() && b1[p] == x;
                assert(b.contains(x)) by {
                    assert(b[p + 1] == x);
                }
                let q = choose|q: int| 0 <= q < a.len() && a[q] == x;
                if q == 0 {
                    lemma_lex_irreflexive(b[0]);
                    assert(lex_lt_at(b, 0, p + 1));
                }
                assert(a1[q - 1] == x);
            }
        }
        lemma_sorted_same_members(a1, b1);
        assert(a =~= seq![a[0]] + a1);
        assert(b =~= seq![b[0]] + b1);
    }
}

spec fn lex_lt_at(s: Seq<Seq<char>>, i: int, j: int) -> bool {
    crate::order::lex_lt(s[i], s[j])
}

/// Grow a support list along merge edges: every hour one edge away from a
/// listed hour joins it once, after the hours already there.
pub fn extend_support<N, W>(store: &MemoryStore<N, W>, ids: &mut Vec<String>)
    requires
        store.wf(),
    ensures
        texts(final(ids)@).take(old(ids)@.len() as int) == texts(old(ids)@),
        texts(final(ids)@).len() >= old(ids)@.len(),
        texts(final(ids)@).skip(old(ids)@.len() as int).no_duplicates(),
        forall|y: Seq<char>|
            texts(final(ids)@).skip(old(ids)@.len() as int).contains(y) <==> store.one_step_out(
                texts(old(ids)@),
                y,
            ),
{
    let ghost start = texts(ids@);
    let mut extra: Vec<String> = Vec::new();
    let n = ids.len();
    let mut q: usize = 0;
    while q < n
        invariant
            n == start.len(),
            texts(ids@) == start,
            q <= n,
            texts(extra@).no_duplicates(),
            forall|y: Seq<char>| #[trigger] texts(extra@).contains(y) ==> store.one_step_out(start, y),
            forall|qq: int, y: Seq<char>|
                0 <= qq < q && #[trigger] store.linked(start[qq], y) && !start.contains(y)
                    ==> texts(extra@).contains(y),
        decreases n - q,
    {
        let mut e: usize = 0;
        while e < store.edges.len()
            invariant
                n == start.len(),
                texts(ids@) == start,
                q < n,
                e <= store.edges@.len(),
                texts(extra@).no_duplicates(),
                forall|y: Seq<char>| #[trigger] texts(extra@).contains(y) ==> store.one_step_out(start, y),
                forall|qq: int, y: Seq<char>|
                    0 <= qq < q && #[trigger] store.linked(start[qq], y) && !start.contains(y)
                        ==> texts(extra@).contains(y),
                forall|ee: int|
                    0 <= ee < e && #[trigger] store.edges@[ee].a@ == start[q as int] && !start.contains(
                        store.edges@[ee].b@,
                    ) ==> texts(extra@).contains(store.edges@[ee].b@),
            decreases store.edges@.len() - e,
        {
            let y = &store.edges[e].b;
            assert(ids@[q as int]@ == start[q as int]);
            if same_text(store.edges[e].a.as_str(), ids[q].as_str()) && !listed(ids.as_slice(), y.as_str())
                && !listed(extra.as_slice(), y.as_str()) {
                let ghost x0 = extra@;
                extra.push(y.clone());
                proof {
                    assert(texts(extra@) =~= texts(x0).push(y@));
                    assert(store.linked(start[q as int], y@));
                    assert(store.one_step_out(start, y@));
                    assert forall|z: Seq<char>| #[trigger] texts(extra@).contains(z) implies store.one_step_out(start, z) by {
                        let p = choose|p: int| 0 <= p < texts(extra@).len() && texts(extra@)[p] == z;
                        if p < x0.len() {
                            assert(texts(x0)[p] == z);
                            assert(texts(x0).contains(z));
                        } else {
                            assert(texts(extra@)[p] == y@);
                        }
                    }
                    assert forall|zz: Seq<char>| texts(x0).contains(zz) implies texts(extra@).contains(zz) by {
                        let p = choose|p: int| 0 <= p < texts(x0).len() && texts(x0)[p] == zz;
                        assert(texts(extra@)[p] == zz);
                    }
                    assert(texts(extra@)[x0.len() as int] == y@);
                }
            }
            e = e + 1;
        }
        proof {
            assert forall|qq: int, y: Seq<char>|
                0 <= qq < q + 1 && #[trigger] store.linked(start[qq], y) && !start.contains(y)
                    implies texts(extra@).contains(y) by {
                if qq == q {
                    let ee = choose|ee: int|
                        0 <= ee < store.edges@.len() && #[trigger] store.edges@[ee].a@ == start[qq]
                            && store.edges@[ee].b@ == y;
                }
            }
        }
        q = q + 1;
    }
    let ghost x = texts(extra@);
    let m = extra.len();
    let mut k: usize = 0;
    while k < m
        invariant
            m == extra@.len(),
            k <= m,
            x == texts(extra@),
            texts(ids@) == start + x.take(k as int),
        decreases m - k,
    {
        let ghost i0 = texts(ids@);
        ids.push(extra[k].clone());
        assert(texts(ids@) =~= i0.push(x[k as int]));
        assert(x.take(k + 1) =~= x.take(k as int).push(x[k as int]));
        assert(start + x.take(k + 1) =~= (start + x.take(k as int)).push(x[k as int]));
        k = k + 1;
    }
    assert(x.take(m as int) =~= x);
    assert(texts(ids@).take(n as int) =~= start);
    assert(texts(ids@).skip(n as int) =~= x);
    proof {
        assert forall|y: Seq<char>| x.contains(y) <==> store.one_step_out(start, y) by {
            if store.one_step_out(start, y) {
                let q2 = choose|q2: int| 0 <= q2 < start.len() && #[trigger] store.linked(start[q2], y);
            }
        }
    }
}


impl<N, W> MemoryStore<N, W> {
    /// What the living axioms say, in book order.
    pub open spec fn living_statements(self) -> Seq<Seq<char>> {
        self.axioms@.filter(|a: IdentityAxiom<W>| a.is_living()).map_values(
            |a: IdentityAxiom<W>| a.statement@,
        )
    }

    /// The statements of the living axioms, in book order.
    pub fn said_statements(&self) -> (r: Vec<String>)
        ensures
            texts(r@) == self.living_statements(),
    {
        let ghost live = |a: IdentityAxiom<W>| a.is_living();
        let ghost say = |a: IdentityAxiom<W>| a.statement@;
        let mut r: Vec<String> = Vec::new();
        let n = self.axioms.len();
        let mut j: usize = 0;
        while j < n
            invariant
                n == self.axioms@.len(),
                j <= n,
                live == (|a: IdentityAxiom<W>| a.is_living()),
                say == (|a: IdentityAxiom<W>| a.statement@),
                texts(r@) == self.axioms@.take(j as int).filter(live).map_values(say),
            decreases n - j,
        {
            proof {
                reveal(Seq::filter);
                assert(self.axioms@.take(j + 1).drop_last() =~= self.axioms@.take(j as int));
                assert(self.axioms@.take(j + 1).last() == self.axioms@[j as int]);
            }
            if self.axioms[j].superseded_by.is_none() {
                let ghost f0 = self.axioms@.take(j as int).filter(live);
                let ghost r0 = r@;
                r.push(self.axioms[j].statement.clone());
                proof {
                    assert(self.axioms@.take(j + 1).filter(live) == f0.push(self.axioms@[j as int]));
                    assert(f0.push(self.axioms@[j as int]).map_values(say) =~= f0.map_values(say).push(
                        self.axioms@[j as int].statement@,
                    ));
                    assert(texts(r@) =~= texts(r0).push(self.axioms@[j as int].statement@));
                }
            }
            j = j + 1;
        }
        assert(self.axioms@.take(n as int) =~= self.axioms@);
        r
    }
}

/// Mint the axiom unless one of `said` already says its statement. `said`
/// holds what the living axioms said when the ladder began, so an axiom
/// minted earlier in the same night does not hold back a later one.
/// Returns whether the axiom went into the book.
pub fn mint_unless_said<N, W>(store: &mut MemoryStore<N, W>, said: &[String], ax: IdentityAxiom<W>) -> (added: bool)
    requires
        old(store).wf(),
    ensures
        final(store).wf(),
        added == !texts(said@).contains(ax.statement@),
        !added ==> *final(store) == *old(store),
        added && (forall|i: int| 0 <= i < old(store).axioms@.len() ==> old(store).axioms@[i].id@ != ax.id@)
            ==> final(store).axioms@ == old(store).axioms@.push(ax),
        added && (exists|i: int| 0 <= i < old(store).axioms@.len() && old(store).axioms@[i].id@ == ax.id@)
            ==> exists|i: int|
            0 <= i < old(store).axioms@.len() && old(store).axioms@[i].id@ == ax.id@
                && final(store).axioms@ == old(store).axioms@.update(i, ax),
        final(store).traces@ == old(store).traces@,
        final(store).archives@ == old(store).archives@,
        final(store).edges@ == old(store).edges@,
        final(store).pending_night@ == old(store).pending_night@,
        final(store).last_deep_at == old(store).last_deep_at,
        final(store).merges_refused == old(store).merges_refused,
{
    if listed(said, ax.statement.as_str()) {
        return false;
    }
    let _ = store.add_axiom(ax);
    true
}

} // verus!
