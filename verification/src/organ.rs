//! What one call of the organ decides, once the floating-point work is set
//! apart: which hour a speech notes as spoken and what its mouth is given,
//! and how a night ends.

use vstd::prelude::*;

use crate::model::{IdentityAxiom, MemoryTrace};
use crate::retrieve::{axiom_supported_by_lineage, lineage_of, RecallBias};
use crate::store::{texts, MemoryStore};

verus! {

/// The hour rehearsed once more (saturating).
pub open spec fn rehearsed<N>(t: MemoryTrace<N>) -> MemoryTrace<N> {
    MemoryTrace {
        rehearsals: if t.rehearsals == u32::MAX {
            u32::MAX
        } else {
            (t.rehearsals + 1) as u32
        },
        ..t
    }
}

impl<N, W> MemoryStore<N, W> {
    /// `s` is the schema of an hour in the lineage of the marked ids.
    pub open spec fn lineage_schema(self, marked: Seq<Seq<char>>, s: Seq<char>) -> bool {
        exists|i: int|
            0 <= i < self.traces@.len() && self.lineage_set(marked).contains(#[trigger] self.traces@[i].id@)
                && (self.traces@[i].schema matches Some(x) && x@ == s)
    }

    /// The axiom derives from the lineage: it lists a lineage hour, or is
    /// filed under the schema of one.
    pub open spec fn drawn_from_lineage(self, a: IdentityAxiom<W>, marked: Seq<Seq<char>>) -> bool {
        ||| exists|k: int|
            0 <= k < a.support_trace_ids@.len() && self.lineage_set(marked).contains(
                #[trigger] a.support_trace_ids@[k]@,
            )
        ||| (a.schema matches Some(s) && self.lineage_schema(marked, s@))
    }

    /// The axiom a probe's mouth may see: living, and not drawn from the
    /// lineage of the marked ids when the probe drops that lineage.
    pub open spec fn shown_to_probe(self, a: IdentityAxiom<W>, bias: RecallBias, marked: Seq<Seq<char>>) -> bool {
        a.is_living() && !(bias == RecallBias::DropLineage && self.drawn_from_lineage(a, marked))
    }

    /// The ids of the axioms a probe's mouth may see, in book order.
    pub open spec fn probe_axioms(self, bias: RecallBias, marked: Seq<Seq<char>>) -> Seq<Seq<char>> {
        self.axioms@.filter(|a: IdentityAxiom<W>| self.shown_to_probe(a, bias, marked)).map_values(
            |a: IdentityAxiom<W>| a.id@,
        )
    }
}

/// The schemas of the hours of a lineage, each once or more.
fn lineage_schemas<N, W>(store: &MemoryStore<N, W>, lineage: &[String]) -> (r: Vec<String>)
    requires
        store.wf(),
    ensures
        forall|s: Seq<char>|
            #[trigger] texts(r@).contains(s) <==> exists|i: int|
                0 <= i < store.traces@.len() && texts(lineage@).contains(#[trigger] store.traces@[i].id@)
                    && (store.traces@[i].schema matches Some(x) && x@ == s),
{
    let mut r: Vec<String> = Vec::new();
    let n = lineage.len();
    let mut k: usize = 0;
    while k < n
        invariant
            n == lineage@.len(),
            k <= n,
            store.wf(),
            forall|s: Seq<char>|
                #[trigger] texts(r@).contains(s) <==> exists|i: int|
                    0 <= i < store.traces@.len() && texts(lineage@).take(k as int).contains(
                        #[trigger] store.traces@[i].id@,
                    ) && (store.traces@[i].schema matches Some(x) && x@ == s),
        decreases n - k,
    {
        let ghost lk = texts(lineage@).take(k as int);
        let ghost lk1 = texts(lineage@).take(k + 1);
        let ghost id = lineage@[k as int]@;
        proof {
            assert(lk1 =~= lk.push(id));
            assert forall|y: Seq<char>| #[trigger] lk1.contains(y) <==> (lk.contains(y) || y == id) by {
                if lk.contains(y) {
                    let w = choose|w: int| 0 <= w < lk.len() && lk[w] == y;
                    assert(lk1[w] == y);
                }
                if y == id {
                    assert(lk1[k as int] == y);
                }
                if lk1.contains(y) {
                    let w = choose|w: int| 0 <= w < lk1.len() && #[trigger] lk1[w] == y;
                    if w < k {
                        assert(lk[w] == y);
                    }
                }
            }
        }
        let ghost r0 = texts(r@);
        match store.find_trace(lineage[k].as_str()) {
            Some(t) => {
                match &store.traces[t].schema {
                    Some(sc) => {
                        r.push(sc.clone());
                        proof {
                            assert(texts(r@) =~= r0.push(sc@));
                            assert forall|s: Seq<char>|
                                #[trigger] texts(r@).contains(s) <==> exists|i: int|
                                    0 <= i < store.traces@.len() && lk1.contains(
                                        #[trigger] store.traces@[i].id@,
                                    ) && (store.traces@[i].schema matches Some(x) && x@ == s) by {
                                if texts(r@).contains(s) {
                                    let w = choose|w: int| 0 <= w < texts(r@).len() && texts(r@)[w] == s;
                                    if w < r0.len() {
                                        assert(r0[w] == s);
                                        assert(r0.contains(s));
                                    } else {
                                        assert(lk1.contains(store.traces@[t as int].id@));
                                    }
                                }
                                if exists|i: int|
                                    0 <= i < store.traces@.len() && lk1.contains(
                                        #[trigger] store.traces@[i].id@,
                                    ) && (store.traces@[i].schema matches Some(x) && x@ == s) {
                                    let i = choose|i: int|
                                        0 <= i < store.traces@.len() && lk1.contains(
                                            #[trigger] store.traces@[i].id@,
                                        ) && (store.traces@[i].schema matches Some(x) && x@ == s);
                                    if lk.contains(store.traces@[i].id@) {
                                        assert(r0.contains(s));
                                        let w = choose|w: int| 0 <= w < r0.len() && r0[w] == s;
                                        assert(texts(r@)[w] == s);
                                    } else {
                                        assert(store.traces@[i].id@ == id);
                                        if i != t {
                                            if i < t {
                                                assert(store.traces@[i].id@ != store.traces@[t as int].id@);
                                            } else {
                                                assert(store.traces@[t as int].id@ != store.traces@[i].id@);
                                            }
                                        }
                                        assert(texts(r@)[r0.len() as int] == s);
                                    }
                                }
                            }
                        }
                    },
                    None => {
                        proof {
                            assert forall|s: Seq<char>|
                                #[trigger] texts(r@).contains(s) <==> exists|i: int|
                                    0 <= i < store.traces@.len() && lk1.contains(
                                        #[trigger] store.traces@[i].id@,
                                    ) && (store.traces@[i].schema matches Some(x) && x@ == s) by {
                                if exists|i: int|
                                    0 <= i < store.traces@.len() && lk1.contains(
                                        #[trigger] store.traces@[i].id@,
                                    ) && (store.traces@[i].schema matches Some(x) && x@ == s) {
                                    let i = choose|i: int|
                                        0 <= i < store.traces@.len() && lk1.contains(
                                            #[trigger] store.traces@[i].id@,
                                        ) && (store.traces@[i].schema matches Some(x) && x@ == s);
                                    if !lk.contains(store.traces@[i].id@) {
                                        assert(store.traces@[i].id@ == id);
                                        if i != t {
                                            if i < t {
                                                assert(store.traces@[i].id@ != store.traces@[t as int].id@);
                                            } else {
                                                assert(store.traces@[t as int].id@ != store.traces@[i].id@);
                                            }
                                        }
                                    }
                                }
                            }
                        }
                    },
                }
            },
            None => {
                proof {
                    assert forall|s: Seq<char>|
                        #[trigger] texts(r@).contains(s) <==> exists|i: int|
                            0 <= i < store.traces@.len() && lk1.contains(#[trigger] store.traces@[i].id@)
                                && (store.traces@[i].schema matches Some(x) && x@ == s) by {
                        if exists|i: int|
                            0 <= i < store.traces@.len() && lk1.contains(#[trigger] store.traces@[i].id@)
                                && (store.traces@[i].schema matches Some(x) && x@ == s) {
                            let i = choose|i: int|
                                0 <= i < store.traces@.len() && lk1.contains(
                                    #[trigger] store.traces@[i].id@,
                                ) && (store.traces@[i].schema matches Some(x) && x@ == s);
                            if !lk.contains(store.traces@[i].id@) {
                                assert(store.traces@[i].id@ == id);
                            }
                        }
                    }
                }
            },
        }
        k = k + 1;
    }
    proof {
        assert(texts(lineage@).take(n as int) =~= texts(lineage@));
    }
    r
}

/// What the mouth is given on one speech.
pub struct SpeakPlan {
    /// The selected hour was noted as spoken.
    pub noted: bool,
    /// How many of the recalled memories reach the mouth, from the first.
    pub memories: usize,
    /// A live speech tells the mouth the entity's name in place of axioms.
    pub name_line: bool,
    /// The axioms a probe's mouth sees, by id, in book order.
    pub axiom_ids: Vec<String>,
}

/// The speech around a recall. A live speech (`hold`) notes the first
/// selected hour as spoken (a rehearsal, unless it is a verbatim record),
/// hands the mouth one memory and the name line. A probe writes nothing,
/// hands the mouth every recalled memory (none when it sees axioms only) and
/// the living axioms, less those drawn from the lineage of the marked ids
/// when it drops that lineage.
pub fn speak_plan<N, W>(
    store: &mut MemoryStore<N, W>,
    hold: bool,
    axioms_only: bool,
    selected: &[String],
    recalled: usize,
    bias: RecallBias,
    marked: &[String],
) -> (p: SpeakPlan)
    requires
        old(store).wf(),
    ensures
        final(store).wf(),
        hold && selected@.len() > 0 ==> {
            let id = selected@[0]@;
            &&& p.noted == (old(store).has_trace(id) && !old(store).the_trace(id).channel.is_verbatim())
            &&& final(store).traces@.len() == old(store).traces@.len()
            &&& forall|i: int|
                0 <= i < old(store).traces@.len() ==> #[trigger] final(store).traces@[i] == if p.noted
                    && old(store).traces@[i].id@ == id {
                    rehearsed(old(store).traces@[i])
                } else {
                    old(store).traces@[i]
                }
            &&& final(store).archives@ == old(store).archives@
            &&& final(store).axioms@ == old(store).axioms@
            &&& final(store).edges@ == old(store).edges@
            &&& final(store).pending_night@ == old(store).pending_night@
            &&& final(store).last_deep_at == old(store).last_deep_at
            &&& final(store).merges_refused == old(store).merges_refused
        },
        !(hold && selected@.len() > 0) ==> *final(store) == *old(store) && !p.noted,
        hold ==> p.memories == (if recalled > 0 { 1usize } else { 0usize }) && p.name_line
            && p.axiom_ids@.len() == 0,
        !hold ==> p.memories == (if axioms_only { 0 } else { recalled }) && !p.name_line
            && texts(p.axiom_ids@) == old(store).probe_axioms(bias, texts(marked@)),
{
    if hold {
        let noted = if selected.len() > 0 {
            store.note_spoken_hour(selected[0].as_str())
        } else {
            false
        };
        let memories: usize = if recalled > 0 {
            1
        } else {
            0
        };
        return SpeakPlan { noted, memories, name_line: true, axiom_ids: Vec::new() };
    }
    let drop = bias == RecallBias::DropLineage;
    let lineage = lineage_of(store, marked);
    let schemas = lineage_schemas(store, lineage.as_slice());
    let ghost m = texts(marked@);
    let ghost keep = |a: IdentityAxiom<W>| store.shown_to_probe(a, bias, m);
    let ghost idf = |a: IdentityAxiom<W>| a.id@;
    let mut ids: Vec<String> = Vec::new();
    let n = store.axioms.len();
    let mut j: usize = 0;
    while j < n
        invariant
            n == store.axioms@.len(),
            j <= n,
            m == texts(marked@),
            drop == (bias == RecallBias::DropLineage),
            keep == (|a: IdentityAxiom<W>| store.shown_to_probe(a, bias, m)),
            idf == (|a: IdentityAxiom<W>| a.id@),
            texts(lineage@).to_set() == store.lineage_set(m),
            forall|s: Seq<char>|
                #[trigger] texts(schemas@).contains(s) <==> exists|i: int|
                    0 <= i < store.traces@.len() && texts(lineage@).contains(#[trigger] store.traces@[i].id@)
                        && (store.traces@[i].schema matches Some(x) && x@ == s),
            texts(ids@) == store.axioms@.take(j as int).filter(keep).map_values(idf),
        decreases n - j,
    {
        proof {
            reveal(Seq::filter);
            assert(store.axioms@.take(j + 1).drop_last() =~= store.axioms@.take(j as int));
            assert(store.axioms@.take(j + 1).last() == store.axioms@[j as int]);
        }
        let a = &store.axioms[j];
        let shown = a.superseded_by.is_none() && !(drop && axiom_supported_by_lineage(
            a.support_trace_ids.as_slice(),
            match &a.schema {
                Some(s) => Some(s.as_str()),
                None => None,
            },
            lineage.as_slice(),
            schemas.as_slice(),
        ));
        proof {
            let ax = store.axioms@[j as int];
            let ls = store.lineage_set(m);
            assert forall|x: Seq<char>| texts(lineage@).contains(x) == ls.contains(x) by {
                assert(texts(lineage@).to_set().contains(x) == texts(lineage@).contains(x));
            }
            if drop && ax.is_living() {
                let by_support = exists|k: int|
                    0 <= k < ax.support_trace_ids@.len() && texts(lineage@).contains(
                        #[trigger] ax.support_trace_ids@[k]@,
                    );
                assert(by_support == exists|k: int|
                    0 <= k < ax.support_trace_ids@.len() && ls.contains(#[trigger] ax.support_trace_ids@[k]@));
                match ax.schema {
                    Some(s) => {
                        assert(texts(schemas@).contains(s@) == store.lineage_schema(m, s@)) by {
                            if store.lineage_schema(m, s@) {
                                let i = choose|i: int|
                                    0 <= i < store.traces@.len() && ls.contains(#[trigger] store.traces@[i].id@)
                                        && (store.traces@[i].schema matches Some(x) && x@ == s@);
                                assert(texts(lineage@).contains(store.traces@[i].id@));
                            }
                            if texts(schemas@).contains(s@) {
                                let i = choose|i: int|
                                    0 <= i < store.traces@.len() && texts(lineage@).contains(
                                        #[trigger] store.traces@[i].id@,
                                    ) && (store.traces@[i].schema matches Some(x) && x@ == s@);
                                assert(ls.contains(store.traces@[i].id@));
                            }
                        }
                    },
                    None => {},
                }
            }
            assert(shown == keep(ax));
        }
        if shown {
            let ghost f0 = store.axioms@.take(j as int).filter(keep);
            let ghost i0 = ids@;
            ids.push(store.axioms[j].id.clone());
            proof {
                assert(store.axioms@.take(j + 1).filter(keep) == f0.push(store.axioms@[j as int]));
                assert(f0.push(store.axioms@[j as int]).map_values(idf) =~= f0.map_values(idf).push(
                    store.axioms@[j as int].id@,
                ));
                assert(texts(ids@) =~= texts(i0).push(store.axioms@[j as int].id@));
            }
        }
        j = j + 1;
    }
    proof {
        assert(store.axioms@.take(n as int) =~= store.axioms@);
    }
    SpeakPlan {
        noted: false,
        memories: if axioms_only {
            0
        } else {
            recalled
        },
        name_line: false,
        axiom_ids: ids,
    }
}

} // verus!
