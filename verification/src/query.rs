//! Reading the book: living axioms, the hours they rest on, the order in
//! which a night visits traces, and the hours still waiting for a deep night.

use vstd::prelude::*;

use crate::model::{Channel, IdentityAxiom, MemoryTrace};
use crate::order::{
    entries, key_le, key_of, keys, lemma_multiset_map, lemma_multiset_members, lex_lt, sort_items,
    sort_texts, sorted_texts, strictly_sorted_texts, SortItem,
};
use crate::lineage::contains_text;
use crate::store::{texts, MemoryStore};
use crate::text::chars_of;

verus! {

pub open spec fn is_living<W>(a: IdentityAxiom<W>) -> bool {
    a.superseded_by is None
}

/// The text a trace is ordered by: its core, or its gist when the core is empty.
pub open spec fn order_text<N>(t: MemoryTrace<N>) -> Seq<char> {
    if t.core@.len() == 0 {
        t.gist@
    } else {
        t.core@
    }
}

pub open spec fn visit_key<N>(t: MemoryTrace<N>) -> (Seq<char>, Seq<char>) {
    (order_text(t), t.id@)
}

impl<N, W> MemoryStore<N, W> {
    /// Axioms not superseded, in book order.
    pub open spec fn living(self) -> Seq<IdentityAxiom<W>> {
        self.axioms@.filter(|a: IdentityAxiom<W>| is_living(a))
    }

    /// Ids of the living axioms that list `trace_id` as support.
    pub open spec fn leans_on(self, trace_id: Seq<char>, x: Seq<char>) -> bool {
        exists|j: int|
            0 <= j < self.axioms@.len() && #[trigger] self.axioms@[j].id@ == x
                && self.axioms@[j].is_living() && self.axioms@[j].supports(trace_id)
    }

    /// There is a Selfhood trace with this id.
    pub open spec fn has_selfhood(self, id: Seq<char>) -> bool {
        exists|i: int|
            0 <= i < self.traces@.len() && #[trigger] self.traces@[i].id@ == id
                && self.traces@[i].channel == Channel::Selfhood
    }

    /// Selfhood hours that wait for the next deep night, as ids: the pending
    /// list when it holds anything, else every Selfhood hour created after the
    /// last deep night (all of them if there was none).
    pub open spec fn waiting_hours(self) -> Seq<Seq<char>> {
        if self.pending_night@.len() > 0 {
            texts(self.pending_night@).filter(|p: Seq<char>| self.has_selfhood(p))
        } else {
            let since: u64 = match self.last_deep_at {
                Some(t) => t,
                None => 0,
            };
            self.traces@.filter(
                |t: MemoryTrace<N>| t.channel == Channel::Selfhood && t.created_at > since,
            ).map_values(|t: MemoryTrace<N>| t.id@)
        }
    }

    pub fn living_axioms(&self) -> (r: Vec<&IdentityAxiom<W>>)
        ensures
            r@.map_values(|a: &IdentityAxiom<W>| *a) == self.living(),
    {
        let mut r: Vec<&IdentityAxiom<W>> = Vec::new();
        let n = self.axioms.len();
        for i in 0..n
            invariant
                n == self.axioms@.len(),
                r@.map_values(|a: &IdentityAxiom<W>| *a) == self.axioms@.take(i as int).filter(
                    |a: IdentityAxiom<W>| is_living(a),
                ),
        {
            let ghost before = r@;
            proof {
                reveal(Seq::filter);
                assert(self.axioms@.take(i + 1).drop_last() =~= self.axioms@.take(i as int));
                assert(self.axioms@.take(i + 1).last() == self.axioms@[i as int]);
            }
            if self.axioms[i].superseded_by.is_none() {
                r.push(&self.axioms[i]);
                assert(r@.map_values(|a: &IdentityAxiom<W>| *a) =~= before.map_values(
                    |a: &IdentityAxiom<W>| *a,
                ).push(self.axioms@[i as int]));
            }
        }
        assert(self.axioms@.take(n as int) =~= self.axioms@);
        r
    }

    /// Living axiom ids that list this hour as support, in code point order.
    pub fn living_axiom_ids_for(&self, trace_id: &str) -> (r: Vec<String>)
        requires
            self.wf(),
        ensures
            strictly_sorted_texts(texts(r@)),
            forall|x: Seq<char>| texts(r@).contains(x) <==> self.leans_on(trace_id@, x),
    {
        let mut ids: Vec<String> = Vec::new();
        let n = self.axioms.len();
        // `src[p]` is the position of the axiom whose id `ids[p]` copies.
        let ghost mut src: Seq<int> = Seq::empty();
        let mut j: usize = 0;
        while j < n
            invariant
                n == self.axioms@.len(),
                j <= n,
                self.wf(),
                src.len() == ids@.len(),
                forall|p: int|
                    0 <= p < src.len() ==> 0 <= #[trigger] src[p] < j && self.axioms@[src[p]].id@
                        == ids@[p]@ && self.axioms@[src[p]].is_living()
                        && self.axioms@[src[p]].supports(trace_id@),
                forall|p: int, q: int| 0 <= p < q < src.len() ==> #[trigger] src[p] < #[trigger] src[q],
                forall|jj: int|
                    0 <= jj < j && self.axioms@[jj].is_living() && self.axioms@[jj].supports(
                        trace_id@,
                    ) ==> texts(ids@).contains(#[trigger] self.axioms@[jj].id@),
            decreases n - j,
        {
            let hit = self.axioms[j].superseded_by.is_none() && contains_text(
                &self.axioms[j].support_trace_ids,
                trace_id,
            );
            proof {
                if self.axioms@[j as int].supports(trace_id@) {
                    let w = choose|w: int|
                        0 <= w < self.axioms@[j as int].support_trace_ids@.len()
                            && #[trigger] self.axioms@[j as int].support_trace_ids@[w]@ == trace_id@;
                    assert(texts(self.axioms@[j as int].support_trace_ids@)[w] == trace_id@);
                }
                if texts(self.axioms@[j as int].support_trace_ids@).contains(trace_id@) {
                    let w = choose|w: int|
                        0 <= w < texts(self.axioms@[j as int].support_trace_ids@).len() && texts(
                            self.axioms@[j as int].support_trace_ids@,
                        )[w] == trace_id@;
                    assert(self.axioms@[j as int].support_trace_ids@[w]@ == trace_id@);
                }
            }
            if hit {
                let ghost before = ids@;
                ids.push(self.axioms[j].id.clone());
                proof {
                    src = src.push(j as int);
                    assert(texts(ids@) =~= texts(before).push(self.axioms@[j as int].id@));
                    assert forall|jj: int|
                        0 <= jj < j + 1 && self.axioms@[jj].is_living() && self.axioms@[jj].supports(
                            trace_id@,
                        ) implies texts(ids@).contains(#[trigger] self.axioms@[jj].id@) by {
                        if jj < j {
                            let w = choose|w: int|
                                0 <= w < texts(before).len() && texts(before)[w]
                                    == self.axioms@[jj].id@;
                            assert(texts(ids@)[w] == texts(before)[w]);
                        } else {
                            assert(texts(ids@)[before.len() as int] == self.axioms@[jj].id@);
                        }
                    }
                }
            }
            j = j + 1;
        }
        proof {
            assert forall|p: int, q: int|
                0 <= p < q < texts(ids@).len() implies texts(ids@)[p] != texts(ids@)[q] by {
                assert(src[p] < src[q]);
                assert(self.axioms@[src[p]].id@ != self.axioms@[src[q]].id@);
            }
        }
        let out = sort_texts(&ids);
        proof {
            lemma_multiset_members(texts(out@), texts(ids@));
            crate::order::lemma_multiset_no_dups(texts(out@), texts(ids@));
            assert forall|x: Seq<char>| texts(out@).contains(x) <==> self.leans_on(trace_id@, x) by {
                if texts(out@).contains(x) {
                    let p = choose|p: int| 0 <= p < texts(out@).len() && texts(out@)[p] == x;
                    assert(texts(ids@).contains(texts(out@)[p]));
                    let q = choose|q: int| 0 <= q < texts(ids@).len() && texts(ids@)[q] == x;
                    assert(ids@[q]@ == x);
                    assert(self.axioms@[src[q]].id@ == x);
                }
                if self.leans_on(trace_id@, x) {
                    let jj = choose|jj: int|
                        0 <= jj < self.axioms@.len() && #[trigger] self.axioms@[jj].id@ == x
                            && self.axioms@[jj].is_living() && self.axioms@[jj].supports(trace_id@);
                    assert(texts(ids@).contains(x));
                    let q = choose|q: int| 0 <= q < texts(ids@).len() && texts(ids@)[q] == x;
                    assert(texts(out@).contains(texts(ids@)[q]));
                }
            }
            let t = texts(out@);
            assert forall|i: int, j: int| 0 <= i < j < t.len() implies lex_lt(
                #[trigger] t[i],
                #[trigger] t[j],
            ) by {
                assert(t[i] != t[j]);
            }
        }
        out
    }

    /// The order key of the trace with this id.
    pub open spec fn visit_key_of(self, id: Seq<char>) -> (Seq<char>, Seq<char>) {
        let i = choose|i: int| 0 <= i < self.traces@.len() && #[trigger] self.traces@[i].id@ == id;
        visit_key(self.traces@[i])
    }

    proof fn lemma_visit_key_of(self, i: int)
        requires
            self.wf(),
            0 <= i < self.traces@.len(),
        ensures
            self.visit_key_of(self.traces@[i].id@) == visit_key(self.traces@[i]),
    {
        let k = choose|k: int| 0 <= k < self.traces@.len() && #[trigger] self.traces@[k].id@ == self.traces@[i].id@;
        if k != i {
            if k < i {
                assert(self.traces@[k].id@ != self.traces@[i].id@);
            } else {
                assert(self.traces@[i].id@ != self.traces@[k].id@);
            }
        }
    }

    /// Every trace id, ordered by (core or gist, id). Nights visit traces in this order.
    pub fn active_ids(&self) -> (r: Vec<String>)
        requires
            self.wf(),
        ensures
            texts(r@).to_multiset() == self.trace_ids().to_multiset(),
            forall|i: int, j: int|
                0 <= i < j < r@.len() ==> key_le(
                    self.visit_key_of(#[trigger] r@[i]@),
                    self.visit_key_of(#[trigger] r@[j]@),
                ),
    {
        let mut items: Vec<SortItem> = Vec::new();
        let n = self.traces.len();
        for i in 0..n
            invariant
                n == self.traces@.len(),
                items@.len() == i,
                forall|p: int|
                    0 <= p < i ==> (#[trigger] items@[p]).slot == p && key_of(items@[p]) == visit_key(
                        self.traces@[p],
                    ),
        {
            let t = &self.traces[i];
            let primary = if t.core.as_str().is_empty() {
                chars_of(t.gist.as_str())
            } else {
                chars_of(t.core.as_str())
            };
            let secondary = chars_of(t.id.as_str());
            items.push(SortItem { primary, secondary, slot: i });
        }
        let ghost inp = items@;
        let sorted = sort_items(items);
        proof {
            lemma_multiset_members(entries(sorted@), entries(inp));
        }
        let mut out: Vec<String> = Vec::new();
        let m = sorted.len();
        let mut p: usize = 0;
        while p < m
            invariant
                p <= m,
                m == sorted@.len(),
                n == self.traces@.len(),
                inp.len() == n,
                forall|q: int|
                    0 <= q < n ==> (#[trigger] inp[q]).slot == q && key_of(inp[q]) == visit_key(
                        self.traces@[q],
                    ),
                forall|q: int| 0 <= q < m ==> entries(inp).contains(#[trigger] entries(sorted@)[q]),
                out@.len() == p,
                forall|q: int|
                    0 <= q < p ==> (#[trigger] out@[q])@ == sorted@[q].secondary@ && sorted@[q].slot
                        < n && key_of(sorted@[q]) == visit_key(self.traces@[sorted@[q].slot as int]),
            decreases m - p,
        {
            let slot = sorted[p].slot;
            proof {
                let w = choose|w: int|
                    0 <= w < entries(inp).len() && entries(inp)[w] == entries(sorted@)[p as int];
                assert(entries(inp)[w] == (key_of(inp[w]), inp[w].slot));
                assert(entries(sorted@)[p as int] == (key_of(sorted@[p as int]), sorted@[p as int].slot));
                assert(slot == w);
            }
            let ghost before = out@;
            out.push(self.traces[slot].id.clone());
            proof {
                assert forall|q: int|
                    0 <= q < p + 1 implies (#[trigger] out@[q])@ == sorted@[q].secondary@ && sorted@[q].slot
                        < n && key_of(sorted@[q]) == visit_key(self.traces@[sorted@[q].slot as int]) by {
                    if q < p {
                        assert(out@[q] == before[q]);
                    }
                }
            }
            p = p + 1;
        }
        proof {
            let sec = |e: ((Seq<char>, Seq<char>), usize)| e.0.1;
            assert(texts(out@) =~= entries(sorted@).map_values(sec));
            assert(self.trace_ids() =~= entries(inp).map_values(sec));
            lemma_multiset_map(entries(sorted@), entries(inp), sec);
            assert forall|i: int, j: int| 0 <= i < j < out@.len() implies key_le(
                self.visit_key_of(#[trigger] out@[i]@),
                self.visit_key_of(#[trigger] out@[j]@),
            ) by {
                assert(key_le(keys(sorted@)[i], keys(sorted@)[j]));
                assert(out@[i]@ == sorted@[i].secondary@);
                assert(out@[j]@ == sorted@[j].secondary@);
                self.lemma_visit_key_of(sorted@[i].slot as int);
                self.lemma_visit_key_of(sorted@[j].slot as int);
            }
        }
        out
    }

    /// New Selfhood hours since the last deep night (all of them if none yet),
    /// ordered by id. Hours in the pending list come first in line: while it
    /// holds anything, it alone says which hours wait.
    pub fn hours_since_deep(&self) -> (r: Vec<&MemoryTrace<N>>)
        requires
            self.wf(),
        ensures
            sorted_texts(r@.map_values(|t: &MemoryTrace<N>| t.id@)),
            r@.map_values(|t: &MemoryTrace<N>| t.id@).to_multiset() == self.waiting_hours().to_multiset(),
            forall|p: int|
                0 <= p < r@.len() ==> self.traces@.contains(*(#[trigger] r@[p])),
    {
        let n = self.traces.len();
        let mut cand: Vec<usize> = Vec::new();
        let ghost mut cid: Seq<Seq<char>> = Seq::empty();
        if self.pending_night.len() > 0 {
            let ghost hs = |p: Seq<char>| self.has_selfhood(p);
            let pn = self.pending_night.len();
            let mut k: usize = 0;
            while k < pn
                invariant
                    n == self.traces@.len(),
                    pn == self.pending_night@.len(),
                    k <= pn,
                    self.wf(),
                    hs == (|p: Seq<char>| self.has_selfhood(p)),
                    cid == texts(self.pending_night@).take(k as int).filter(hs),
                    cid.len() == cand@.len(),
                    forall|q: int|
                        0 <= q < cand@.len() ==> (#[trigger] cand@[q]) < n && self.traces@[cand@[q] as int].id@
                            == cid[q],
                decreases pn - k,
            {
                let ghost pid = self.pending_night@[k as int]@;
                proof {
                    reveal(Seq::filter);
                    assert(texts(self.pending_night@).take(k + 1).drop_last() =~= texts(
                        self.pending_night@,
                    ).take(k as int));
                    assert(texts(self.pending_night@).take(k + 1).last() == pid);
                }
                match self.find_trace(self.pending_night[k].as_str()) {
                    Some(i) => {
                        if self.traces[i].channel == Channel::Selfhood {
                            cand.push(i);
                            proof {
                                assert(self.has_selfhood(pid));
                                cid = cid.push(pid);
                            }
                        } else {
                            proof {
                                if self.has_selfhood(pid) {
                                    let i2 = choose|i2: int|
                                        0 <= i2 < self.traces@.len() && #[trigger] self.traces@[i2].id@
                                            == pid && self.traces@[i2].channel == Channel::Selfhood;
                                    if i2 < i {
                                        assert(self.traces@[i2].id@ != self.traces@[i as int].id@);
                                    } else if i2 > i {
                                        assert(self.traces@[i as int].id@ != self.traces@[i2].id@);
                                    }
                                }
                            }
                        }
                    },
                    None => {},
                }
                k = k + 1;
            }
            assert(texts(self.pending_night@).take(pn as int) =~= texts(self.pending_night@));
        } else {
            let since = match self.last_deep_at {
                Some(t) => t,
                None => 0,
            };
            let ghost pred = |t: MemoryTrace<N>| t.channel == Channel::Selfhood && t.created_at > since;
            let ghost idf = |t: MemoryTrace<N>| t.id@;
            let mut i: usize = 0;
            while i < n
                invariant
                    n == self.traces@.len(),
                    i <= n,
                    pred == (|t: MemoryTrace<N>| t.channel == Channel::Selfhood && t.created_at > since),
                    idf == (|t: MemoryTrace<N>| t.id@),
                    cid == self.traces@.take(i as int).filter(pred).map_values(idf),
                    cid.len() == cand@.len(),
                    forall|q: int|
                        0 <= q < cand@.len() ==> (#[trigger] cand@[q]) < n && self.traces@[cand@[q] as int].id@
                            == cid[q],
                decreases n - i,
            {
                proof {
                    reveal(Seq::filter);
                    assert(self.traces@.take(i + 1).drop_last() =~= self.traces@.take(i as int));
                    assert(self.traces@.take(i + 1).last() == self.traces@[i as int]);
                }
                if self.traces[i].channel == Channel::Selfhood && self.traces[i].created_at > since {
                    let ghost f0 = self.traces@.take(i as int).filter(pred);
                    cand.push(i);
                    proof {
                        assert(self.traces@.take(i + 1).filter(pred) == f0.push(self.traces@[i as int]));
                        assert(f0.push(self.traces@[i as int]).map_values(idf) =~= f0.map_values(idf).push(
                            self.traces@[i as int].id@,
                        ));
                        cid = cid.push(self.traces@[i as int].id@);
                    }
                }
                i = i + 1;
            }
            assert(self.traces@.take(n as int) =~= self.traces@);
        }
        assert(cid == self.waiting_hours());
        let mut items: Vec<SortItem> = Vec::new();
        let c = cand.len();
        let mut q: usize = 0;
        while q < c
            invariant
                c == cand@.len(),
                q <= c,
                n == self.traces@.len(),
                cid.len() == c,
                forall|w: int|
                    0 <= w < c ==> (#[trigger] cand@[w]) < n && self.traces@[cand@[w] as int].id@ == cid[w],
                items@.len() == q,
                forall|w: int|
                    0 <= w < q ==> (#[trigger] items@[w]).slot == cand@[w] && items@[w].primary@ == cid[w]
                        && items@[w].secondary@ == Seq::<char>::empty(),
            decreases c - q,
        {
            let slot = cand[q];
            let primary = chars_of(self.traces[slot].id.as_str());
            items.push(SortItem { primary, secondary: Vec::new(), slot });
            q = q + 1;
        }
        let ghost inp = items@;
        let sorted = sort_items(items);
        proof {
            lemma_multiset_members(entries(sorted@), entries(inp));
        }
        let mut out: Vec<&MemoryTrace<N>> = Vec::new();
        let m = sorted.len();
        let mut p: usize = 0;
        while p < m
            invariant
                p <= m,
                m == sorted@.len(),
                n == self.traces@.len(),
                inp.len() == c,
                forall|w: int|
                    0 <= w < c ==> (#[trigger] inp[w]).slot == cand@[w] && inp[w].primary@ == cid[w]
                        && inp[w].secondary@ == Seq::<char>::empty() && cand@[w] < n
                        && self.traces@[cand@[w] as int].id@ == cid[w],
                forall|w: int| 0 <= w < m ==> entries(inp).contains(#[trigger] entries(sorted@)[w]),
                out@.len() == p,
                forall|w: int|
                    0 <= w < p ==> sorted@[w].slot < n && *(#[trigger] out@[w]) == self.traces@[sorted@[w].slot as int]
                        && out@[w].id@ == sorted@[w].primary@ && sorted@[w].secondary@ == Seq::<char>::empty(),
            decreases m - p,
        {
            let slot = sorted[p].slot;
            proof {
                let w = choose|w: int|
                    0 <= w < entries(inp).len() && entries(inp)[w] == entries(sorted@)[p as int];
                assert(entries(inp)[w] == (key_of(inp[w]), inp[w].slot));
                assert(entries(sorted@)[p as int] == (key_of(sorted@[p as int]), sorted@[p as int].slot));
            }
            let ghost before = out@;
            out.push(&self.traces[slot]);
            proof {
                assert forall|w: int|
                    0 <= w < p + 1 implies sorted@[w].slot < n && *(#[trigger] out@[w])
                        == self.traces@[sorted@[w].slot as int] && out@[w].id@ == sorted@[w].primary@
                        && sorted@[w].secondary@ == Seq::<char>::empty() by {
                    if w < p {
                        assert(out@[w] == before[w]);
                    }
                }
            }
            p = p + 1;
        }
        proof {
            let prim = |e: ((Seq<char>, Seq<char>), usize)| e.0.0;
            let ids = out@.map_values(|t: &MemoryTrace<N>| t.id@);
            assert forall|w: int| 0 <= w < ids.len() implies ids[w] == entries(sorted@).map_values(prim)[w] by {
                assert(out@[w].id@ == sorted@[w].primary@);
            }
            assert(ids =~= entries(sorted@).map_values(prim));
            assert(cid =~= entries(inp).map_values(prim));
            lemma_multiset_map(entries(sorted@), entries(inp), prim);
            assert forall|i: int, j: int| 0 <= i < j < ids.len() implies crate::order::lex_le(
                #[trigger] ids[i],
                #[trigger] ids[j],
            ) by {
                assert(key_le(keys(sorted@)[i], keys(sorted@)[j]));
                assert(out@[i].id@ == sorted@[i].primary@);
                assert(out@[j].id@ == sorted@[j].primary@);
                assert(sorted@[i].secondary@ == Seq::<char>::empty());
            }
            assert forall|w: int| 0 <= w < out@.len() implies self.traces@.contains(*(#[trigger] out@[w])) by {
                let i = sorted@[w].slot as int;
                assert(self.traces@[i] == *out@[w]);
            }
        }
        out
    }
}

impl<N, W> MemoryStore<N, W> {
    /// The axioms filed under a schema.
    pub open spec fn filed_under(self, schema: Seq<char>) -> Seq<IdentityAxiom<W>> {
        self.axioms@.filter(|a: IdentityAxiom<W>| a.schema matches Some(x) && x@ == schema)
    }

    /// The chain of a schema: every axiom filed under it (living or
    /// superseded), oldest first.
    pub fn schema_lineage(&self, schema: &str) -> (r: Vec<&IdentityAxiom<W>>)
        ensures
            r@.map_values(|a: &IdentityAxiom<W>| *a).to_multiset() == self.filed_under(schema@).to_multiset(),
            forall|i: int, j: int| 0 <= i < j < r@.len() ==> r@[i].created_at <= r@[j].created_at,
    {
        let ghost p = |a: IdentityAxiom<W>| a.schema matches Some(x) && x@ == schema@;
        let ghost deref = |a: &IdentityAxiom<W>| *a;
        let mut out: Vec<&IdentityAxiom<W>> = Vec::new();
        let n = self.axioms.len();
        let mut i: usize = 0;
        proof {
            broadcast use vstd::seq_lib::group_to_multiset_ensures;
            assert(self.axioms@.take(0).filter(p) =~= Seq::<IdentityAxiom<W>>::empty());
            assert(out@.map_values(deref) =~= Seq::<IdentityAxiom<W>>::empty());
        }
        while i < n
            invariant
                n == self.axioms@.len(),
                i <= n,
                p == (|a: IdentityAxiom<W>| a.schema matches Some(x) && x@ == schema@),
                deref == (|a: &IdentityAxiom<W>| *a),
                out@.map_values(deref).to_multiset() == self.axioms@.take(i as int).filter(p).to_multiset(),
                forall|a: int, b: int| 0 <= a < b < out@.len() ==> out@[a].created_at <= out@[b].created_at,
            decreases n - i,
        {
            let ghost pf = self.axioms@.take(i as int).filter(p);
            let ghost x = self.axioms@[i as int];
            proof {
                reveal(Seq::filter);
                assert(self.axioms@.take(i + 1).drop_last() =~= self.axioms@.take(i as int));
                assert(self.axioms@.take(i + 1).last() == x);
            }
            let filed = match &self.axioms[i].schema {
                Some(s) => crate::text::same_text(s.as_str(), schema),
                None => false,
            };
            if filed {
                let a = &self.axioms[i];
                let mut pos = out.len();
                while pos > 0 && out[pos - 1].created_at > a.created_at
                    invariant
                        pos <= out@.len(),
                        forall|j: int| pos <= j < out@.len() ==> out@[j].created_at > a.created_at,
                    decreases pos,
                {
                    pos = pos - 1;
                }
                let ghost before = out@;
                out.insert(pos, a);
                proof {
                    broadcast use vstd::seq_lib::group_to_multiset_ensures;
                    assert(out@ =~= before.insert(pos as int, a));
                    assert(out@.map_values(deref) =~= before.map_values(deref).insert(pos as int, x));
                    crate::order::lemma_insert_multiset(before.map_values(deref), pos as int, x);
                    assert(self.axioms@.take(i + 1).filter(p) == pf.push(x));
                    assert forall|u: int, v: int| 0 <= u < v < out@.len() implies out@[u].created_at
                        <= out@[v].created_at by {
                        if v < pos {
                            assert(out@[u] == before[u] && out@[v] == before[v]);
                        } else if v == pos {
                            assert(out@[u] == before[u]);
                            if pos > 0 {
                                assert(before[pos - 1].created_at <= a.created_at);
                                if u < pos - 1 {
                                    assert(before[u].created_at <= before[pos - 1].created_at);
                                }
                            }
                        } else if u == pos {
                            assert(out@[v] == before[v - 1]);
                        } else if u < pos {
                            assert(out@[u] == before[u] && out@[v] == before[v - 1]);
                        } else {
                            assert(out@[u] == before[u - 1] && out@[v] == before[v - 1]);
                        }
                    }
                }
            } else {
                assert(self.axioms@.take(i + 1).filter(p) == pf);
            }
            i = i + 1;
        }
        proof {
            assert(self.axioms@.take(n as int) =~= self.axioms@);
        }
        out
    }
}

} // verus!
