//! Lineage: the marked hours, their same-schema siblings, every hour a merge
//! edge reaches, and every hour an axiom lists beside one already in.

use vstd::prelude::*;

use crate::evidence::first_seen;
use crate::model::IdentityAxiom;
use crate::store::{texts, MemoryStore};
use crate::text::same_text;

verus! {

/// Whether `s` is in the list of strings.
pub fn contains_text(v: &Vec<String>, s: &str) -> (r: bool)
    ensures
        r == texts(v@).contains(s@),
{
    let mut i: usize = 0;
    while i < v.len()
        invariant
            i <= v@.len(),
            forall|j: int| 0 <= j < i ==> v@[j]@ != s@,
        decreases v@.len() - i,
    {
        if same_text(v[i].as_str(), s) {
            assert(texts(v@)[i as int] == s@);
            return true;
        }
        i = i + 1;
    }
    assert forall|j: int| 0 <= j < texts(v@).len() implies texts(v@)[j] != s@ by {
        assert(texts(v@)[j] == v@[j]@);
    }
    false
}

/// Whether `s` is in the slice of strings.
pub fn listed(v: &[String], s: &str) -> (r: bool)
    ensures
        r == texts(v@).contains(s@),
{
    let mut i: usize = 0;
    while i < v.len()
        invariant
            i <= v@.len(),
            forall|j: int| 0 <= j < i ==> v@[j]@ != s@,
        decreases v@.len() - i,
    {
        if same_text(v[i].as_str(), s) {
            assert(texts(v@)[i as int] == s@);
            return true;
        }
        i = i + 1;
    }
    assert forall|j: int| 0 <= j < texts(v@).len() implies texts(v@)[j] != s@ by {
        assert(texts(v@)[j] == v@[j]@);
    }
    false
}

/// All hours listed by some axiom, axiom after axiom.
pub open spec fn support_pool<W>(axioms: Seq<IdentityAxiom<W>>) -> Seq<Seq<char>>
    decreases axioms.len(),
{
    if axioms.len() == 0 {
        Seq::empty()
    } else {
        support_pool(axioms.drop_last()) + texts(axioms.last().support_trace_ids@)
    }
}

pub proof fn lemma_support_in_pool<W>(axioms: Seq<IdentityAxiom<W>>, j: int, k: int)
    requires
        0 <= j < axioms.len(),
        0 <= k < axioms[j].support_trace_ids@.len(),
    ensures
        support_pool(axioms).contains(axioms[j].support_trace_ids@[k]@),
    decreases axioms.len(),
{
    let rest = support_pool(axioms.drop_last());
    let last = texts(axioms.last().support_trace_ids@);
    if j == axioms.len() - 1 {
        assert((rest + last)[rest.len() + k] == last[k]);
    } else {
        lemma_support_in_pool(axioms.drop_last(), j, k);
        let i = choose|i: int| 0 <= i < rest.len() && rest[i] == axioms[j].support_trace_ids@[k]@;
        assert((rest + last)[i] == rest[i]);
    }
}

/// A list without repeats, drawn from a pool, is no longer than the pool.
pub proof fn lemma_unique_within<A>(out: Seq<A>, pool: Seq<A>)
    requires
        out.no_duplicates(),
        forall|p: int| 0 <= p < out.len() ==> pool.contains(#[trigger] out[p]),
    ensures
        out.len() <= pool.len(),
{
    broadcast use vstd::seq_lib::seq_to_set_is_finite;

    out.unique_seq_to_set();
    pool.lemma_cardinality_of_set();
    assert(out.to_set().subset_of(pool.to_set())) by {
        assert forall|x: A| out.to_set().contains(x) implies pool.to_set().contains(x) by {
            let p = choose|p: int| 0 <= p < out.len() && out[p] == x;
        }
    }
    vstd::set_lib::lemma_len_subset(out.to_set(), pool.to_set());
}

impl<N, W> MemoryStore<N, W> {
    /// `s` is the (non-empty) schema of a marked hour.
    pub open spec fn marked_schema(self, marked: Seq<Seq<char>>, s: Seq<char>) -> bool {
        s.len() > 0 && exists|i: int|
            0 <= i < self.traces@.len() && marked.contains(#[trigger] self.traces@[i].id@)
                && (self.traces@[i].schema matches Some(x) && x@ == s)
    }

    /// `S` holds the marked hours and everything lineage reaches from them.
    pub open spec fn lineage_closed(self, marked: Seq<Seq<char>>, S: Set<Seq<char>>) -> bool {
        &&& forall|m: Seq<char>| marked.contains(m) ==> #[trigger] S.contains(m)
        &&& forall|i: int|
            0 <= i < self.traces@.len() && (#[trigger] self.traces@[i].schema matches Some(x)
                && self.marked_schema(marked, x@)) ==> S.contains(self.traces@[i].id@)
        &&& forall|x: Seq<char>, y: Seq<char>|
            #[trigger] S.contains(x) && #[trigger] self.linked(x, y) ==> S.contains(y)
        &&& forall|x: Seq<char>, j: int, k: int|
            #[trigger] S.contains(x) && 0 <= j < self.axioms@.len() && self.axioms@[j].supports(x)
                && 0 <= k < self.axioms@[j].support_trace_ids@.len() ==> S.contains(
                #[trigger] self.axioms@[j].support_trace_ids@[k]@,
            )
    }

    /// The lineage of the marked ids: the ids in every closed set that holds them.
    pub open spec fn lineage_set(self, marked: Seq<Seq<char>>) -> Set<Seq<char>> {
        Set::new(|x: Seq<char>| forall|S: Set<Seq<char>>| #[trigger] self.lineage_closed(marked, S) ==> S.contains(x))
    }

    /// Every id lineage may touch.
    pub open spec fn lineage_pool(self, marked: Seq<Seq<char>>) -> Seq<Seq<char>> {
        marked + self.trace_ids() + self.edges@.map_values(|l: crate::store::Link| l.b@)
            + support_pool(self.axioms@)
    }

    /// Marked ids, same-schema siblings, merge edges, axiom supports that touch the set.
    /// The result is the least set that holds the marked ids and is closed under those
    /// three steps; each id appears once.
    pub fn lineage(&self, marked: &[String]) -> (out: Vec<String>)
        requires
            self.wf(),
        ensures
            texts(out@).no_duplicates(),
            self.lineage_closed(texts(marked@), texts(out@).to_set()),
            forall|S: Set<Seq<char>>|
                #[trigger] self.lineage_closed(texts(marked@), S) ==> texts(out@).to_set().subset_of(S),
            texts(out@).to_set() == self.lineage_set(texts(marked@)),
            first_seen(texts(marked@)).is_prefix_of(texts(out@)),
    {
        let ghost m = texts(marked@);
        let ghost pool = self.lineage_pool(m);
        let ghost fm = first_seen(m);
        let mut out: Vec<String> = Vec::new();

        // Seeds.
        let mut i: usize = 0;
        while i < marked.len()
            invariant
                m == texts(marked@),
                pool == self.lineage_pool(m),
                fm == first_seen(m),
                i <= marked@.len(),
                texts(out@) == first_seen(m.take(i as int)),
                texts(out@).no_duplicates(),
                forall|p: int| 0 <= p < out@.len() ==> pool.contains(#[trigger] out@[p]@),
                forall|q: int| 0 <= q < i ==> texts(out@).contains(#[trigger] m[q]),
                forall|S: Set<Seq<char>>|
                    #[trigger] self.lineage_closed(m, S) ==> forall|p: int|
                        0 <= p < out@.len() ==> S.contains(#[trigger] out@[p]@),
            decreases marked@.len() - i,
        {
            proof {
                assert(m.take(i + 1).drop_last() =~= m.take(i as int));
                assert(m.take(i + 1).last() == marked@[i as int]@);
            }
            if !contains_text(&out, marked[i].as_str()) {
                let ghost before = out@;
                out.push(marked[i].clone());
                proof {
                    self.lemma_push_keeps(before, out@, m[i as int], fm);
                    assert(m[i as int] == marked@[i as int]@);
                    assert(pool.contains(m[i as int])) by {
                        assert(pool[i as int] == m[i as int]);
                    }
                    assert forall|S: Set<Seq<char>>|
                        #[trigger] self.lineage_closed(m, S) implies forall|p: int|
                        0 <= p < out@.len() ==> S.contains(#[trigger] out@[p]@) by {
                        assert(m.contains(m[i as int]));
                        assert(forall|p: int| 0 <= p < before.len() ==> out@[p] == before[p]);
                    }
                }
            }
            i = i + 1;
        }
        proof {
            assert(m.take(marked@.len() as int) =~= m);
        }

        // Schemas of the marked hours.
        let mut schemas: Vec<String> = Vec::new();
        let mut i: usize = 0;
        while i < marked.len()
            invariant
                m == texts(marked@),
                i <= marked@.len(),
                forall|q: int| 0 <= q < schemas@.len() ==> self.marked_schema(m, #[trigger] schemas@[q]@),
                forall|q: int, t: int|
                    0 <= q < i && 0 <= t < self.traces@.len() && #[trigger] self.traces@[t].id@
                        == #[trigger] m[q] && (self.traces@[t].schema matches Some(x) && x@.len()
                        > 0) ==> texts(schemas@).contains(self.traces@[t].schema->0@),
                self.wf(),
            decreases marked@.len() - i,
        {
            match self.find_trace(marked[i].as_str()) {
                Some(t) => {
                    match &self.traces[t].schema {
                        Some(s) => {
                            if !s.as_str().is_empty() && !contains_text(&schemas, s.as_str()) {
                                let ghost before = schemas@;
                                schemas.push(s.clone());
                                proof {
                                    assert(m.contains(self.traces@[t as int].id@)) by {
                                        assert(m[i as int] == self.traces@[t as int].id@);
                                    }
                                    assert forall|q: int, t2: int|
                                        0 <= q < i + 1 && 0 <= t2 < self.traces@.len()
                                            && #[trigger] self.traces@[t2].id@ == #[trigger] m[q]
                                            && (self.traces@[t2].schema matches Some(x) && x@.len()
                                            > 0) implies texts(schemas@).contains(
                                        self.traces@[t2].schema->0@,
                                    ) by {
                                        if q < i {
                                            assert(texts(before).contains(self.traces@[t2].schema->0@));
                                            let w = choose|w: int|
                                                0 <= w < texts(before).len() && texts(before)[w]
                                                    == self.traces@[t2].schema->0@;
                                            assert(texts(schemas@)[w] == texts(before)[w]);
                                        } else {
                                            if t2 != t {
                                                assert(self.traces@[t2].id@ != self.traces@[t as int].id@);
                                            }
                                            assert(texts(schemas@)[before.len() as int] == s@);
                                        }
                                    }
                                }
                            } else {
                                proof {
                                    assert forall|q: int, t2: int|
                                        0 <= q < i + 1 && 0 <= t2 < self.traces@.len()
                                            && #[trigger] self.traces@[t2].id@ == #[trigger] m[q]
                                            && (self.traces@[t2].schema matches Some(x) && x@.len()
                                            > 0) implies texts(schemas@).contains(
                                        self.traces@[t2].schema->0@,
                                    ) by {
                                        if q == i && t2 != t {
                                            assert(self.traces@[t2].id@ != self.traces@[t as int].id@);
                                        }
                                    }
                                }
                            }
                        },
                        None => {
                            proof {
                                assert forall|q: int, t2: int|
                                    0 <= q < i + 1 && 0 <= t2 < self.traces@.len()
                                        && #[trigger] self.traces@[t2].id@ == #[trigger] m[q]
                                        && (self.traces@[t2].schema matches Some(x) && x@.len()
                                        > 0) implies texts(schemas@).contains(
                                    self.traces@[t2].schema->0@,
                                ) by {
                                    if q == i && t2 != t {
                                        assert(self.traces@[t2].id@ != self.traces@[t as int].id@);
                                    }
                                }
                            }
                        },
                    }
                },
                None => {},
            }
            i = i + 1;
        }

        // Same-schema siblings.
        let mut i: usize = 0;
        while i < self.traces.len()
            invariant
                m == texts(marked@),
                pool == self.lineage_pool(m),
                fm == first_seen(m),
                fm.is_prefix_of(texts(out@)),
                i <= self.traces@.len(),
                forall|q: int| 0 <= q < schemas@.len() ==> self.marked_schema(m, #[trigger] schemas@[q]@),
                forall|s: Seq<char>| self.marked_schema(m, s) ==> texts(schemas@).contains(s),
                texts(out@).no_duplicates(),
                forall|p: int| 0 <= p < out@.len() ==> pool.contains(#[trigger] out@[p]@),
                forall|mm: Seq<char>| m.contains(mm) ==> texts(out@).contains(mm),
                forall|t: int|
                    0 <= t < i && (#[trigger] self.traces@[t].schema matches Some(x)
                        && self.marked_schema(m, x@)) ==> texts(out@).contains(self.traces@[t].id@),
                forall|S: Set<Seq<char>>|
                    #[trigger] self.lineage_closed(m, S) ==> forall|p: int|
                        0 <= p < out@.len() ==> S.contains(#[trigger] out@[p]@),
            decreases self.traces@.len() - i,
        {
            let hit = match &self.traces[i].schema {
                Some(s) => contains_text(&schemas, s.as_str()),
                None => false,
            };
            if hit && !contains_text(&out, self.traces[i].id.as_str()) {
                let ghost before = out@;
                let ghost x = self.traces@[i as int].schema->0@;
                out.push(self.traces[i].id.clone());
                proof {
                    self.lemma_push_keeps(before, out@, self.traces@[i as int].id@, fm);
                    let w = choose|w: int| 0 <= w < texts(schemas@).len() && texts(schemas@)[w] == x;
                    assert(schemas@[w]@ == x);
                    assert(pool.contains(self.traces@[i as int].id@)) by {
                        assert(pool[m.len() + i] == self.trace_ids()[i as int]);
                    }
                    assert forall|S: Set<Seq<char>>|
                        #[trigger] self.lineage_closed(m, S) implies forall|p: int|
                        0 <= p < out@.len() ==> S.contains(#[trigger] out@[p]@) by {
                        assert(forall|p: int| 0 <= p < before.len() ==> out@[p] == before[p]);
                        assert(self.traces@[i as int].schema matches Some(y) && self.marked_schema(m, y@));
                    }
                }
            } else if hit {
                proof {
                    let x = self.traces@[i as int].schema->0@;
                    let w = choose|w: int| 0 <= w < texts(schemas@).len() && texts(schemas@)[w] == x;
                    assert(schemas@[w]@ == x);
                }
            }
            i = i + 1;
        }

        // Walk: merge edges and axiom supports, first in, first out.
        let mut head: usize = 0;
        while head < out.len()
            invariant
                m == texts(marked@),
                pool == self.lineage_pool(m),
                fm == first_seen(m),
                fm.is_prefix_of(texts(out@)),
                head <= out@.len(),
                texts(out@).no_duplicates(),
                forall|p: int| 0 <= p < out@.len() ==> pool.contains(#[trigger] out@[p]@),
                forall|mm: Seq<char>| m.contains(mm) ==> texts(out@).contains(mm),
                forall|t: int|
                    0 <= t < self.traces@.len() && (#[trigger] self.traces@[t].schema matches Some(x)
                        && self.marked_schema(m, x@)) ==> texts(out@).contains(self.traces@[t].id@),
                forall|p: int, y: Seq<char>|
                    0 <= p < head && #[trigger] self.linked(out@[p]@, y) ==> texts(out@).contains(y),
                forall|p: int, j: int, k: int|
                    0 <= p < head && 0 <= j < self.axioms@.len() && self.axioms@[j].supports(
                        #[trigger] out@[p]@,
                    ) && 0 <= k < self.axioms@[j].support_trace_ids@.len() ==> texts(out@).contains(
                        #[trigger] self.axioms@[j].support_trace_ids@[k]@,
                    ),
                forall|S: Set<Seq<char>>|
                    #[trigger] self.lineage_closed(m, S) ==> forall|p: int|
                        0 <= p < out@.len() ==> S.contains(#[trigger] out@[p]@),
            decreases pool.len() - head,
        {
            proof {
                lemma_unique_within(texts(out@), pool);
            }
            let id = out[head].clone();
            let ghost cur = id@;
            // Merge neighbors.
            let mut e: usize = 0;
            while e < self.edges.len()
                invariant
                    m == texts(marked@),
                    pool == self.lineage_pool(m),
                    fm == first_seen(m),
                    fm.is_prefix_of(texts(out@)),
                    head < out@.len(),
                    out@[head as int]@ == cur,
                    id@ == cur,
                    e <= self.edges@.len(),
                    texts(out@).no_duplicates(),
                    forall|p: int| 0 <= p < out@.len() ==> pool.contains(#[trigger] out@[p]@),
                    forall|mm: Seq<char>| m.contains(mm) ==> texts(out@).contains(mm),
                    forall|t: int|
                        0 <= t < self.traces@.len() && (#[trigger] self.traces@[t].schema matches Some(x)
                            && self.marked_schema(m, x@)) ==> texts(out@).contains(self.traces@[t].id@),
                    forall|p: int, y: Seq<char>|
                        0 <= p < head && #[trigger] self.linked(out@[p]@, y) ==> texts(out@).contains(y),
                    forall|p: int, j: int, k: int|
                        0 <= p < head && 0 <= j < self.axioms@.len() && self.axioms@[j].supports(
                            #[trigger] out@[p]@,
                        ) && 0 <= k < self.axioms@[j].support_trace_ids@.len() ==> texts(out@).contains(
                            #[trigger] self.axioms@[j].support_trace_ids@[k]@,
                        ),
                    forall|q: int|
                        0 <= q < e && #[trigger] self.edges@[q].a@ == cur ==> texts(out@).contains(
                            self.edges@[q].b@,
                        ),
                    forall|S: Set<Seq<char>>|
                        #[trigger] self.lineage_closed(m, S) ==> forall|p: int|
                            0 <= p < out@.len() ==> S.contains(#[trigger] out@[p]@),
                decreases self.edges@.len() - e,
            {
                if same_text(self.edges[e].a.as_str(), id.as_str()) && !contains_text(
                    &out,
                    self.edges[e].b.as_str(),
                ) {
                    let ghost before = out@;
                    let ghost y = self.edges@[e as int].b@;
                    out.push(self.edges[e].b.clone());
                    proof {
                        self.lemma_push_keeps(before, out@, y, fm);
                        assert(pool.contains(y)) by {
                            let bs = self.edges@.map_values(|l: crate::store::Link| l.b@);
                            assert(pool[m.len() + self.trace_ids().len() + e] == bs[e as int]);
                        }
                        assert(self.linked(cur, y));
                        assert forall|S: Set<Seq<char>>|
                            #[trigger] self.lineage_closed(m, S) implies forall|p: int|
                            0 <= p < out@.len() ==> S.contains(#[trigger] out@[p]@) by {
                            assert(forall|p: int| 0 <= p < before.len() ==> out@[p] == before[p]);
                            assert(S.contains(before[head as int]@));
                        }
                    }
                }
                e = e + 1;
            }
            // Hours an axiom lists beside this one.
            let mut j: usize = 0;
            while j < self.axioms.len()
                invariant
                    m == texts(marked@),
                    pool == self.lineage_pool(m),
                    fm == first_seen(m),
                    fm.is_prefix_of(texts(out@)),
                    head < out@.len(),
                    out@[head as int]@ == cur,
                    id@ == cur,
                    j <= self.axioms@.len(),
                    texts(out@).no_duplicates(),
                    forall|p: int| 0 <= p < out@.len() ==> pool.contains(#[trigger] out@[p]@),
                    forall|mm: Seq<char>| m.contains(mm) ==> texts(out@).contains(mm),
                    forall|t: int|
                        0 <= t < self.traces@.len() && (#[trigger] self.traces@[t].schema matches Some(x)
                            && self.marked_schema(m, x@)) ==> texts(out@).contains(self.traces@[t].id@),
                    forall|p: int, y: Seq<char>|
                        0 <= p <= head && #[trigger] self.linked(out@[p]@, y) ==> texts(out@).contains(y),
                    forall|p: int, jj: int, k: int|
                        0 <= p < head && 0 <= jj < self.axioms@.len() && self.axioms@[jj].supports(
                            #[trigger] out@[p]@,
                        ) && 0 <= k < self.axioms@[jj].support_trace_ids@.len() ==> texts(out@).contains(
                            #[trigger] self.axioms@[jj].support_trace_ids@[k]@,
                        ),
                    forall|jj: int, k: int|
                        0 <= jj < j && self.axioms@[jj].supports(cur) && 0 <= k
                            < self.axioms@[jj].support_trace_ids@.len() ==> texts(out@).contains(
                            #[trigger] self.axioms@[jj].support_trace_ids@[k]@,
                        ),
                    forall|S: Set<Seq<char>>|
                        #[trigger] self.lineage_closed(m, S) ==> forall|p: int|
                            0 <= p < out@.len() ==> S.contains(#[trigger] out@[p]@),
                decreases self.axioms@.len() - j,
            {
                if contains_text(&self.axioms[j].support_trace_ids, id.as_str()) {
                    proof {
                        let w = choose|w: int|
                            0 <= w < texts(self.axioms@[j as int].support_trace_ids@).len() && texts(
                                self.axioms@[j as int].support_trace_ids@,
                            )[w] == cur;
                        assert(self.axioms@[j as int].support_trace_ids@[w]@ == cur);
                        assert(self.axioms@[j as int].supports(cur));
                    }
                    let n = self.axioms[j].support_trace_ids.len();
                    let mut k: usize = 0;
                    while k < n
                        invariant
                            m == texts(marked@),
                            pool == self.lineage_pool(m),
                            fm == first_seen(m),
                            fm.is_prefix_of(texts(out@)),
                            n == self.axioms@[j as int].support_trace_ids@.len(),
                            j < self.axioms@.len(),
                            self.axioms@[j as int].supports(cur),
                            head < out@.len(),
                            out@[head as int]@ == cur,
                            k <= n,
                            texts(out@).no_duplicates(),
                            forall|p: int| 0 <= p < out@.len() ==> pool.contains(#[trigger] out@[p]@),
                            forall|mm: Seq<char>| m.contains(mm) ==> texts(out@).contains(mm),
                            forall|t: int|
                                0 <= t < self.traces@.len() && (
                                #[trigger] self.traces@[t].schema matches Some(x) && self.marked_schema(
                                    m,
                                    x@,
                                )) ==> texts(out@).contains(self.traces@[t].id@),
                            forall|p: int, y: Seq<char>|
                                0 <= p <= head && #[trigger] self.linked(out@[p]@, y) ==> texts(
                                    out@,
                                ).contains(y),
                            forall|p: int, jj: int, kk: int|
                                0 <= p < head && 0 <= jj < self.axioms@.len()
                                    && self.axioms@[jj].supports(#[trigger] out@[p]@) && 0 <= kk
                                    < self.axioms@[jj].support_trace_ids@.len() ==> texts(
                                    out@,
                                ).contains(#[trigger] self.axioms@[jj].support_trace_ids@[kk]@),
                            forall|jj: int, kk: int|
                                0 <= jj < j && self.axioms@[jj].supports(cur) && 0 <= kk
                                    < self.axioms@[jj].support_trace_ids@.len() ==> texts(
                                    out@,
                                ).contains(#[trigger] self.axioms@[jj].support_trace_ids@[kk]@),
                            forall|kk: int|
                                0 <= kk < k ==> texts(out@).contains(
                                    #[trigger] self.axioms@[j as int].support_trace_ids@[kk]@,
                                ),
                            forall|S: Set<Seq<char>>|
                                #[trigger] self.lineage_closed(m, S) ==> forall|p: int|
                                    0 <= p < out@.len() ==> S.contains(#[trigger] out@[p]@),
                        decreases n - k,
                    {
                        let s = &self.axioms[j].support_trace_ids[k];
                        if !contains_text(&out, s.as_str()) {
                            let ghost before = out@;
                            out.push(s.clone());
                            proof {
                                self.lemma_push_keeps(before, out@, s@, fm);
                                lemma_support_in_pool(self.axioms@, j as int, k as int);
                                assert(pool.contains(s@)) by {
                                    let sp = support_pool(self.axioms@);
                                    let w = choose|w: int| 0 <= w < sp.len() && sp[w] == s@;
                                    let off = m.len() + self.trace_ids().len() + self.edges@.len();
                                    assert(pool[off + w] == sp[w]);
                                }
                                assert forall|S: Set<Seq<char>>|
                                    #[trigger] self.lineage_closed(m, S) implies forall|p: int|
                                    0 <= p < out@.len() ==> S.contains(#[trigger] out@[p]@) by {
                                    assert(forall|p: int|
                                        0 <= p < before.len() ==> out@[p] == before[p]);
                                    assert(S.contains(before[head as int]@));
                                }
                            }
                        }
                        k = k + 1;
                    }
                } else {
                    proof {
                        if self.axioms@[j as int].supports(cur) {
                            let w = choose|w: int|
                                0 <= w < self.axioms@[j as int].support_trace_ids@.len()
                                    && #[trigger] self.axioms@[j as int].support_trace_ids@[w]@ == cur;
                            assert(texts(self.axioms@[j as int].support_trace_ids@)[w] == cur);
                        }
                    }
                }
                j = j + 1;
            }
            head = head + 1;
        }
        proof {
            let S = texts(out@).to_set();
            assert forall|x: Seq<char>, y: Seq<char>|
                #[trigger] S.contains(x) && #[trigger] self.linked(x, y) implies S.contains(y) by {
                let p = choose|p: int| 0 <= p < texts(out@).len() && texts(out@)[p] == x;
                assert(out@[p]@ == x);
            }
            assert forall|x: Seq<char>, j: int, k: int|
                #[trigger] S.contains(x) && 0 <= j < self.axioms@.len() && self.axioms@[j].supports(x)
                    && 0 <= k < self.axioms@[j].support_trace_ids@.len() implies S.contains(
                #[trigger] self.axioms@[j].support_trace_ids@[k]@,
            ) by {
                let p = choose|p: int| 0 <= p < texts(out@).len() && texts(out@)[p] == x;
                assert(out@[p]@ == x);
            }
            assert forall|S2: Set<Seq<char>>|
                #[trigger] self.lineage_closed(m, S2) implies texts(out@).to_set().subset_of(S2) by {
                assert forall|x: Seq<char>| texts(out@).to_set().contains(x) implies S2.contains(x) by {
                    let p = choose|p: int| 0 <= p < texts(out@).len() && texts(out@)[p] == x;
                    assert(out@[p]@ == x);
                }
            }
            assert(self.lineage_closed(m, texts(out@).to_set()));
            assert(texts(out@).to_set() =~= self.lineage_set(m));
        }
        out
    }

    /// Pushing a fresh id keeps every earlier membership and adds the new one.
    proof fn lemma_push_keeps(
        self,
        before: Seq<String>,
        after: Seq<String>,
        y: Seq<char>,
        d: Seq<Seq<char>>,
    )
        requires
            texts(before).no_duplicates(),
            !texts(before).contains(y),
            after.len() == before.len() + 1,
            forall|p: int| 0 <= p < before.len() ==> after[p] == before[p],
            after[before.len() as int]@ == y,
        ensures
            texts(after).no_duplicates(),
            texts(after) == texts(before).push(y),
            forall|z: Seq<char>| texts(before).contains(z) ==> texts(after).contains(z),
            texts(after).contains(y),
            d.is_prefix_of(texts(before)) ==> d.is_prefix_of(texts(after)),
    {
        assert(texts(after) =~= texts(before).push(y));
        if d.is_prefix_of(texts(before)) {
            assert(d =~= texts(after).subrange(0, d.len() as int));
        }
        assert forall|z: Seq<char>| texts(before).contains(z) implies texts(after).contains(z) by {
            let p = choose|p: int| 0 <= p < texts(before).len() && texts(before)[p] == z;
            assert(texts(after)[p] == z);
        }
        assert(texts(after)[before.len() as int] == y);
    }
}

} // verus!
