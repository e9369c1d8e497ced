//! What the ladder pass decides before any statement is written: which
//! schemas have enough hours to stand on, whether each grows the living
//! axiom of its schema or mints a new one, and at which layer.
//!
//! Statements and strengths come from the narrator and the affect numbers;
//! they are not decided here.

use vstd::prelude::*;

use crate::ladder::{extend_support, mint_layer, promoted_layer};
use crate::lineage::listed;
use crate::merge::union_into;
use crate::model::{AxiomLayer, IdentityAxiom, MemoryTrace, TraceStatus};
use crate::store::{texts, MemoryStore};
use crate::text::{merged_texts, same_text};

verus! {

/// The schema an hour is filed under when minting ("self" when it has none).
pub open spec fn schema_name(s: Option<String>) -> Seq<char> {
    match s {
        Some(x) => x@,
        None => "self"@,
    }
}

/// An hour counts as evidence: not a verbatim record, and active, cold or
/// myth (merged siblings still count; latent hours must not mint).
pub open spec fn counts_as_evidence<N>(t: MemoryTrace<N>) -> bool {
    !t.channel.is_verbatim() && (t.status is Active || t.status is Cold || t.status is Myth)
}

/// An hour counts as living evidence: not verbatim, active or cold.
pub open spec fn counts_as_living<N>(t: MemoryTrace<N>) -> bool {
    !t.channel.is_verbatim() && (t.status is Active || t.status is Cold)
}

/// Each text once, in order of first appearance.
pub open spec fn first_seen(s: Seq<Seq<char>>) -> Seq<Seq<char>>
    decreases s.len(),
{
    if s.len() == 0 {
        Seq::empty()
    } else {
        let p = first_seen(s.drop_last());
        if p.contains(s.last()) {
            p
        } else {
            p.push(s.last())
        }
    }
}

impl<N, W> MemoryStore<N, W> {
    /// The schemas that have evidence, in order of their first hour.
    pub open spec fn evidence_schemas(self) -> Seq<Seq<char>> {
        first_seen(
            self.traces@.filter(|t: MemoryTrace<N>| counts_as_evidence(t)).map_values(
                |t: MemoryTrace<N>| schema_name(t.schema),
            ),
        )
    }

    /// The evidence hours of one schema, in book order.
    pub open spec fn evidence_for(self, s: Seq<char>) -> Seq<Seq<char>> {
        self.traces@.filter(|t: MemoryTrace<N>| counts_as_evidence(t) && schema_name(t.schema) == s).map_values(
            |t: MemoryTrace<N>| t.id@,
        )
    }

    /// How many living hours one schema has.
    pub open spec fn living_count(self, s: Seq<char>) -> nat {
        self.traces@.filter(|t: MemoryTrace<N>| counts_as_living(t) && schema_name(t.schema) == s).len()
    }

    /// Position of the first living axiom filed under this schema.
    pub open spec fn schema_axiom(self, s: Seq<char>) -> Option<int> {
        if exists|j: int|
            0 <= j < self.axioms@.len() && #[trigger] self.axioms@[j].is_living() && (
            self.axioms@[j].schema matches Some(x) && x@ == s) {
            Some(
                choose|j: int|
                    0 <= j < self.axioms@.len() && #[trigger] self.axioms@[j].is_living() && (
                    self.axioms@[j].schema matches Some(x) && x@ == s) && forall|k: int|
                        0 <= k < j ==> !(#[trigger] self.axioms@[k].is_living() && (
                        self.axioms@[k].schema matches Some(x) && x@ == s)),
            )
        } else {
            None
        }
    }
}

/// One schema's evidence.
#[derive(Clone, Debug)]
pub struct Evidence {
    pub schema: String,
    pub ids: Vec<String>,
    pub living: usize,
}

fn schema_text(s: &Option<String>) -> (r: String)
    ensures
        r@ == schema_name(*s),
{
    match s {
        Some(x) => x.clone(),
        None => "self".to_owned(),
    }
}

fn counts(status: TraceStatus, verbatim: bool) -> (r: (bool, bool))
    ensures
        r.0 == (!verbatim && (status is Active || status is Cold || status is Myth)),
        r.1 == (!verbatim && (status is Active || status is Cold)),
{
    if verbatim {
        (false, false)
    } else {
        match status {
            TraceStatus::Active => (true, true),
            TraceStatus::Cold => (true, true),
            TraceStatus::Myth => (true, false),
            TraceStatus::Latent => (false, false),
        }
    }
}

impl<N, W> MemoryStore<N, W> {
    /// The schemas with evidence, each once, in order of their first hour.
    fn schemas_with_evidence(&self) -> (r: Vec<String>)
        ensures
            texts(r@) == self.evidence_schemas(),
    {
        let ghost ev = |t: MemoryTrace<N>| counts_as_evidence(t);
        let ghost nm = |t: MemoryTrace<N>| schema_name(t.schema);
        let mut out: Vec<String> = Vec::new();
        let mut i: usize = 0;
        assert(self.traces@.take(0).filter(ev) =~= Seq::<MemoryTrace<N>>::empty());
        assert(self.traces@.take(0).filter(ev).map_values(nm) =~= Seq::<Seq<char>>::empty());
        assert(texts(out@) =~= Seq::<Seq<char>>::empty());
        while i < self.traces.len()
            invariant
                i <= self.traces@.len(),
                ev == (|t: MemoryTrace<N>| counts_as_evidence(t)),
                nm == (|t: MemoryTrace<N>| schema_name(t.schema)),
                texts(out@) == first_seen(self.traces@.take(i as int).filter(ev).map_values(nm)),
            decreases self.traces@.len() - i,
        {
            let t = &self.traces[i];
            let ghost x = self.traces@[i as int];
            let ghost pf = self.traces@.take(i as int).filter(ev);
            proof {
                reveal(Seq::filter);
                assert(self.traces@.take(i + 1).drop_last() =~= self.traces@.take(i as int));
                assert(self.traces@.take(i + 1).last() == x);
            }
            let (e, _) = counts(t.status, t.channel.verbatim());
            if e {
                let name = schema_text(&t.schema);
                proof {
                    assert(self.traces@.take(i + 1).filter(ev) == pf.push(x));
                    assert(pf.push(x).map_values(nm) =~= pf.map_values(nm).push(nm(x)));
                    assert(pf.push(x).map_values(nm).drop_last() =~= pf.map_values(nm));
                }
                if !listed(out.as_slice(), name.as_str()) {
                    let ghost o0 = out@;
                    out.push(name);
                    assert(texts(out@) =~= texts(o0).push(nm(x)));
                }
            } else {
                assert(self.traces@.take(i + 1).filter(ev) == pf);
            }
            i = i + 1;
        }
        proof {
            assert(self.traces@.take(self.traces@.len() as int) =~= self.traces@);
        }
        out
    }

    /// The evidence hours of one schema and how many of them are living.
    fn evidence_of(&self, s: &str) -> (r: (Vec<String>, usize))
        ensures
            texts(r.0@) == self.evidence_for(s@),
            r.1 == self.living_count(s@),
    {
        let ghost ev = |t: MemoryTrace<N>| counts_as_evidence(t) && schema_name(t.schema) == s@;
        let ghost lv = |t: MemoryTrace<N>| counts_as_living(t) && schema_name(t.schema) == s@;
        let ghost idf = |t: MemoryTrace<N>| t.id@;
        let mut ids: Vec<String> = Vec::new();
        let mut living: usize = 0;
        let mut i: usize = 0;
        assert(self.traces@.take(0).filter(ev) =~= Seq::<MemoryTrace<N>>::empty());
        assert(self.traces@.take(0).filter(lv) =~= Seq::<MemoryTrace<N>>::empty());
        assert(texts(ids@) =~= self.traces@.take(0).filter(ev).map_values(idf));
        while i < self.traces.len()
            invariant
                i <= self.traces@.len(),
                ev == (|t: MemoryTrace<N>| counts_as_evidence(t) && schema_name(t.schema) == s@),
                lv == (|t: MemoryTrace<N>| counts_as_living(t) && schema_name(t.schema) == s@),
                idf == (|t: MemoryTrace<N>| t.id@),
                texts(ids@) == self.traces@.take(i as int).filter(ev).map_values(idf),
                living == self.traces@.take(i as int).filter(lv).len(),
                living <= i,
            decreases self.traces@.len() - i,
        {
            let t = &self.traces[i];
            let ghost x = self.traces@[i as int];
            let ghost pf = self.traces@.take(i as int).filter(ev);
            proof {
                reveal(Seq::filter);
                assert(self.traces@.take(i + 1).drop_last() =~= self.traces@.take(i as int));
                assert(self.traces@.take(i + 1).last() == x);
            }
            let (e, l) = counts(t.status, t.channel.verbatim());
            let name = schema_text(&t.schema);
            let same = same_text(name.as_str(), s);
            if e && same {
                let ghost o0 = ids@;
                ids.push(t.id.clone());
                proof {
                    assert(pf.push(x).map_values(idf) =~= pf.map_values(idf).push(x.id@));
                    assert(texts(ids@) =~= texts(o0).push(x.id@));
                }
            }
            if l && same {
                living = living + 1;
            }
            i = i + 1;
        }
        proof {
            assert(self.traces@.take(self.traces@.len() as int) =~= self.traces@);
        }
        (ids, living)
    }

    /// Each schema with evidence: its hours in book order and its living count.
    pub fn schema_evidence(&self) -> (r: Vec<Evidence>)
        ensures
            r@.len() == self.evidence_schemas().len(),
            forall|k: int|
                0 <= k < r@.len() ==> {
                    let s = self.evidence_schemas()[k];
                    &&& (#[trigger] r@[k]).schema@ == s
                    &&& texts(r@[k].ids@) == self.evidence_for(s)
                    &&& r@[k].living == self.living_count(s)
                },
    {
        let names = self.schemas_with_evidence();
        let mut out: Vec<Evidence> = Vec::new();
        let mut k: usize = 0;
        while k < names.len()
            invariant
                k <= names@.len(),
                texts(names@) == self.evidence_schemas(),
                out@.len() == k,
                forall|q: int|
                    0 <= q < k ==> {
                        let s = self.evidence_schemas()[q];
                        &&& (#[trigger] out@[q]).schema@ == s
                        &&& texts(out@[q].ids@) == self.evidence_for(s)
                        &&& out@[q].living == self.living_count(s)
                    },
            decreases names@.len() - k,
        {
            assert(texts(names@)[k as int] == names@[k as int]@);
            let (ids, living) = self.evidence_of(names[k].as_str());
            out.push(Evidence { schema: names[k].clone(), ids, living });
            k = k + 1;
        }
        out
    }

    /// The first living axiom filed under this schema.
    pub fn find_schema_axiom(&self, s: &str) -> (r: Option<usize>)
        ensures
            match r {
                Some(j) => j < self.axioms@.len() && self.schema_axiom(s@) == Some(j as int),
                None => self.schema_axiom(s@) is None,
            },
    {
        let mut j: usize = 0;
        while j < self.axioms.len()
            invariant
                j <= self.axioms@.len(),
                forall|k: int|
                    0 <= k < j ==> !(#[trigger] self.axioms@[k].is_living() && (
                    self.axioms@[k].schema matches Some(x) && x@ == s@)),
            decreases self.axioms@.len() - j,
        {
            let living = self.axioms[j].superseded_by.is_none();
            let filed = match &self.axioms[j].schema {
                Some(x) => same_text(x.as_str(), s),
                None => false,
            };
            if living && filed {
                proof {
                    let jj = j as int;
                    assert(self.axioms@[jj].is_living() && (self.axioms@[jj].schema matches Some(x)
                        && x@ == s@));
                    assert(0 <= jj < self.axioms@.len() && self.axioms@[jj].is_living() && (
                    self.axioms@[jj].schema matches Some(x) && x@ == s@) && forall|k: int|
                        0 <= k < jj ==> !(#[trigger] self.axioms@[k].is_living() && (
                        self.axioms@[k].schema matches Some(x) && x@ == s@)));
                    let c = choose|c: int|
                        0 <= c < self.axioms@.len() && #[trigger] self.axioms@[c].is_living() && (
                        self.axioms@[c].schema matches Some(x) && x@ == s@) && forall|k: int|
                            0 <= k < c ==> !(#[trigger] self.axioms@[k].is_living() && (
                            self.axioms@[k].schema matches Some(x) && x@ == s@));
                    if c > jj {
                        assert(!(self.axioms@[jj].is_living() && (self.axioms@[jj].schema matches Some(
                            x,
                        ) && x@ == s@)));
                    }
                    assert(c == jj);
                }
                return Some(j);
            }
            j = j + 1;
        }
        None
    }
}

/// What the ladder does with one schema's evidence.
#[derive(Clone, Debug)]
pub enum AxiomStep {
    /// Grow the schema's living axiom with this support.
    Keep { target: String, support: Vec<String>, living: usize },
    /// Mint a new axiom for the schema, at this layer, on this support.
    Mint { schema: String, support: Vec<String>, layer: AxiomLayer },
}

impl AxiomStep {
    pub open spec fn support_texts(self) -> Seq<Seq<char>> {
        match self {
            AxiomStep::Keep { support, .. } => texts(support@),
            AxiomStep::Mint { support, .. } => texts(support@),
        }
    }
}

/// A schema stands: two or more evidence hours, at least one of them living.
pub open spec fn stands<N, W>(store: MemoryStore<N, W>, s: Seq<char>) -> bool {
    store.evidence_for(s).len() >= 2 && store.living_count(s) >= 1
}

/// The support of a schema: its evidence hours, then each hour one merge
/// edge away from them, once.
pub open spec fn support_of<N, W>(store: MemoryStore<N, W>, s: Seq<char>, sup: Seq<Seq<char>>) -> bool {
    let ids = store.evidence_for(s);
    &&& sup.len() >= ids.len()
    &&& sup.take(ids.len() as int) == ids
    &&& sup.skip(ids.len() as int).no_duplicates()
    &&& forall|y: Seq<char>| sup.skip(ids.len() as int).contains(y) <==> store.one_step_out(ids, y)
}

/// The step for a standing schema: grow its living axiom if it has one,
/// else mint at the layer its living count calls for.
pub open spec fn step_for<N, W>(store: MemoryStore<N, W>, s: Seq<char>, step: AxiomStep) -> bool {
    &&& support_of(store, s, step.support_texts())
    &&& match store.schema_axiom(s) {
        Some(j) => step matches AxiomStep::Keep { target, living, .. } && target@ == store.axioms@[j].id@
            && living == store.living_count(s),
        None => step matches AxiomStep::Mint { schema, layer, .. } && schema@ == s && layer == (
        if store.living_count(s) >= 3 {
            AxiomLayer::Belief
        } else {
            AxiomLayer::Motif
        }),
    }
}

impl<N, W> MemoryStore<N, W> {
    /// The ladder's steps, one per standing schema, in schema order.
    pub fn axiom_steps(&self) -> (r: Vec<AxiomStep>)
        requires
            self.wf(),
        ensures
            r@.len() == self.evidence_schemas().filter(|s: Seq<char>| stands(*self, s)).len(),
            forall|k: int|
                0 <= k < r@.len() ==> step_for(
                    *self,
                    self.evidence_schemas().filter(|s: Seq<char>| stands(*self, s))[k],
                    #[trigger] r@[k],
                ),
    {
        let groups = self.schema_evidence();
        let ghost all = self.evidence_schemas();
        let ghost st = |s: Seq<char>| stands(*self, s);
        let mut out: Vec<AxiomStep> = Vec::new();
        let mut g: usize = 0;
        assert(all.take(0).filter(st) =~= Seq::<Seq<char>>::empty());
        while g < groups.len()
            invariant
                self.wf(),
                g <= groups@.len(),
                groups@.len() == all.len(),
                all == self.evidence_schemas(),
                st == (|s: Seq<char>| stands(*self, s)),
                forall|k: int|
                    0 <= k < groups@.len() ==> {
                        let s = all[k];
                        &&& (#[trigger] groups@[k]).schema@ == s
                        &&& texts(groups@[k].ids@) == self.evidence_for(s)
                        &&& groups@[k].living == self.living_count(s)
                    },
                out@.len() == all.take(g as int).filter(st).len(),
                forall|k: int| 0 <= k < out@.len() ==> step_for(*self, all.take(g as int).filter(st)[k], #[trigger] out@[k]),
            decreases groups@.len() - g,
        {
            let ghost s = all[g as int];
            let ghost pf = all.take(g as int).filter(st);
            proof {
                reveal(Seq::filter);
                assert(all.take(g + 1).drop_last() =~= all.take(g as int));
                assert(all.take(g + 1).last() == s);
            }
            let grp = &groups[g];
            if grp.ids.len() >= 2 && grp.living >= 1 {
                let mut support = crate::merge::clone_texts(&grp.ids);
                extend_support(self, &mut support);
                let step = match self.find_schema_axiom(grp.schema.as_str()) {
                    Some(j) => AxiomStep::Keep {
                        target: self.axioms[j].id.clone(),
                        support,
                        living: grp.living,
                    },
                    None => AxiomStep::Mint {
                        schema: grp.schema.clone(),
                        support,
                        layer: mint_layer(grp.living),
                    },
                };
                proof {
                    assert(st(s));
                    assert(all.take(g + 1).filter(st) == pf.push(s));
                    assert(step_for(*self, s, step));
                }
                out.push(step);
                proof {
                    assert forall|k: int| 0 <= k < out@.len() implies step_for(
                        *self,
                        all.take(g + 1).filter(st)[k],
                        #[trigger] out@[k],
                    ) by {
                        if k < pf.len() {
                            assert(all.take(g + 1).filter(st)[k] == pf[k]);
                        }
                    }
                }
            } else {
                proof {
                    assert(!st(s));
                    assert(all.take(g + 1).filter(st) == pf);
                }
            }
            g = g + 1;
        }
        proof {
            assert(all.take(groups@.len() as int) =~= all);
        }
        out
    }

    /// Grow the schema's living axiom: each support hour it does not list
    /// yet joins its support, and a motif standing on three or more living
    /// hours becomes a belief. The axiom's strength is the caller's.
    pub fn keep_schema_axiom(&mut self, prev_id: &str, support: &[String], live_n: usize)
        requires
            old(self).wf(),
        ensures
            final(self).wf(),
            final(self).traces@ == old(self).traces@,
            final(self).archives@ == old(self).archives@,
            final(self).edges@ == old(self).edges@,
            final(self).pending_night@ == old(self).pending_night@,
            final(self).last_deep_at == old(self).last_deep_at,
            final(self).merges_refused == old(self).merges_refused,
            final(self).axioms@.len() == old(self).axioms@.len(),
            forall|j: int| 0 <= j < old(self).axioms@.len() ==> {
                let a = old(self).axioms@[j];
                let b = #[trigger] final(self).axioms@[j];
                if a.id@ == prev_id@ {
                    &&& b.id == a.id
                    &&& b.statement == a.statement
                    &&& b.weight == a.weight
                    &&& b.schema == a.schema
                    &&& b.superseded_by == a.superseded_by
                    &&& b.created_at == a.created_at
                    &&& texts(b.support_trace_ids@) == merged_texts(texts(a.support_trace_ids@), texts(support@))
                    &&& b.layer == (if live_n >= 3 && a.layer == AxiomLayer::Motif {
                        AxiomLayer::Belief
                    } else {
                        a.layer
                    })
                } else {
                    b == a
                }
            },
    {
        match self.find_axiom(prev_id) {
            None => {},
            Some(i) => {
                let ghost a0 = self.axioms@;
                union_into(&mut self.axioms[i].support_trace_ids, support);
                let l = promoted_layer(self.axioms[i].layer, live_n);
                self.axioms[i].layer = l;
                proof {
                    assert forall|p: int, q: int|
                        0 <= p < q < self.axioms@.len() implies #[trigger] self.axioms@[p].id@
                        != #[trigger] self.axioms@[q].id@ by {
                        assert(self.axioms@[p].id == a0[p].id && self.axioms@[q].id == a0[q].id);
                    }
                    assert forall|j: int| 0 <= j < a0.len() && j != i implies #[trigger] self.axioms@[j]
                        == a0[j] && a0[j].id@ != prev_id@ by {
                        if j < i {
                            assert(a0[j].id@ != a0[i as int].id@);
                        } else {
                            assert(a0[i as int].id@ != a0[j].id@);
                        }
                    }
                }
            },
        }
    }
}

/// Latent hours do not mint: a schema whose hours are all latent (or
/// verbatim records) has no evidence, so no axiom step stands on it.
pub proof fn latent_hours_do_not_mint<N, W>(store: MemoryStore<N, W>, s: Seq<char>)
    requires
        forall|i: int|
            0 <= i < store.traces@.len() && schema_name(#[trigger] store.traces@[i].schema) == s
                ==> store.traces@[i].status is Latent || store.traces@[i].channel.is_verbatim(),
    ensures
        store.evidence_for(s).len() == 0,
        !stands(store, s),
{
    let pred = |t: MemoryTrace<N>| counts_as_evidence(t) && schema_name(t.schema) == s;
    broadcast use vstd::seq_lib::group_filter_ensures;

    let f = store.traces@.filter(pred);
    if f.len() > 0 {
        assert(pred(f[0]));
        store.traces@.lemma_filter_contains_rev(pred, f[0]);
        let i = choose|i: int| 0 <= i < store.traces@.len() && store.traces@[i] == f[0];
        assert(schema_name(store.traces@[i].schema) == s);
    }
}

} // verus!
