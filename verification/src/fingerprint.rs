//! The shape side of an entity's fingerprint: how many hours, myths,
//! living axioms and traits the book holds, the text its tokens are drawn
//! from, and how many schemas hold hours of both signs. The means and the
//! founders are read on the affect numbers.

use vstd::prelude::*;

use crate::evidence::first_seen;
use crate::model::{AxiomLayer, IdentityAxiom, MemoryTrace, TraceStatus};
use crate::narrator::distinct;
use crate::query::is_living;
use crate::store::{texts, MemoryStore};
use crate::text::{append_chars, chars_of, string_of};

verus! {

/// The counts of a fingerprint.
pub struct ShapeCounts {
    pub traces: usize,
    pub myths: usize,
    pub axioms: usize,
    pub traits: usize,
}

/// The text an hour stands for: its core, or its gist when the core is empty.
pub open spec fn told_text<N>(t: MemoryTrace<N>) -> Seq<char> {
    if t.core@.len() == 0 {
        t.gist@
    } else {
        t.core@
    }
}

/// An hour's words in the blob: its text, then its schema, each followed by a space.
pub open spec fn hour_words<N>(t: MemoryTrace<N>) -> Seq<char> {
    told_text(t) + " "@ + match t.schema {
        Some(s) => s@ + " "@,
        None => Seq::empty(),
    }
}

pub open spec fn hours_blob<N>(ts: Seq<MemoryTrace<N>>) -> Seq<char>
    decreases ts.len(),
{
    if ts.len() == 0 {
        Seq::empty()
    } else {
        hours_blob(ts.drop_last()) + hour_words(ts.last())
    }
}

pub open spec fn statements_blob<W>(axs: Seq<IdentityAxiom<W>>) -> Seq<char>
    decreases axs.len(),
{
    if axs.len() == 0 {
        Seq::empty()
    } else {
        statements_blob(axs.drop_last()) + axs.last().statement@ + " "@
    }
}

/// The schemas of the hours that have one, in book order.
pub open spec fn schema_list<N>(ts: Seq<MemoryTrace<N>>) -> Seq<Seq<char>> {
    ts.filter(|t: MemoryTrace<N>| t.schema is Some).map_values(|t: MemoryTrace<N>| t.schema->0@)
}

/// Some hour under `s` leans the given way (`lean[i]` is the sign of hour `i`).
pub open spec fn leans(ts: Seq<Seq<char>>, lean: Seq<i8>, s: Seq<char>, positive: bool) -> bool {
    exists|i: int|
        0 <= i < ts.len() && #[trigger] ts[i] == s && (if positive {
            lean[i] > 0
        } else {
            lean[i] < 0
        })
}

/// How many schemas hold an hour leaning each way.
pub open spec fn contradictions(ts: Seq<Seq<char>>, lean: Seq<i8>) -> nat {
    first_seen(ts).filter(|s: Seq<char>| leans(ts, lean, s, true) && leans(ts, lean, s, false)).len()
}

impl<N, W> MemoryStore<N, W> {
    /// The counts of the fingerprint: hours, myths, living axioms, living traits.
    pub fn shape_counts(&self) -> (c: ShapeCounts)
        ensures
            c.traces == self.traces@.len(),
            c.myths == self.traces@.filter(|t: MemoryTrace<N>| t.status == TraceStatus::Myth).len(),
            c.axioms == self.living().len(),
            c.traits == self.living().filter(|a: IdentityAxiom<W>| a.layer == AxiomLayer::Trait).len(),
    {
        let ghost myth = |t: MemoryTrace<N>| t.status == TraceStatus::Myth;
        let n = self.traces.len();
        let mut myths: usize = 0;
        let mut i: usize = 0;
        while i < n
            invariant
                n == self.traces@.len(),
                i <= n,
                myth == (|t: MemoryTrace<N>| t.status == TraceStatus::Myth),
                myths == self.traces@.take(i as int).filter(myth).len(),
            decreases n - i,
        {
            proof {
                reveal(Seq::filter);
                assert(self.traces@.take(i + 1).drop_last() =~= self.traces@.take(i as int));
                assert(self.traces@.take(i + 1).last() == self.traces@[i as int]);
                self.traces@.take(i as int).lemma_filter_len(myth);
            }
            if self.traces[i].status == TraceStatus::Myth {
                myths = myths + 1;
            }
            i = i + 1;
        }
        assert(self.traces@.take(n as int) =~= self.traces@);
        let ghost live = |a: IdentityAxiom<W>| is_living(a);
        let ghost trait_ = |a: IdentityAxiom<W>| a.layer == AxiomLayer::Trait;
        let m = self.axioms.len();
        let mut axioms: usize = 0;
        let mut traits: usize = 0;
        let mut j: usize = 0;
        while j < m
            invariant
                m == self.axioms@.len(),
                j <= m,
                live == (|a: IdentityAxiom<W>| is_living(a)),
                trait_ == (|a: IdentityAxiom<W>| a.layer == AxiomLayer::Trait),
                axioms == self.axioms@.take(j as int).filter(live).len(),
                traits == self.axioms@.take(j as int).filter(live).filter(trait_).len(),
            decreases m - j,
        {
            let ghost f0 = self.axioms@.take(j as int).filter(live);
            proof {
                reveal(Seq::filter);
                assert(self.axioms@.take(j + 1).drop_last() =~= self.axioms@.take(j as int));
                assert(self.axioms@.take(j + 1).last() == self.axioms@[j as int]);
                self.axioms@.take(j as int).lemma_filter_len(live);
                f0.lemma_filter_len(trait_);
            }
            if self.axioms[j].superseded_by.is_none() {
                proof {
                    assert(self.axioms@.take(j + 1).filter(live) == f0.push(self.axioms@[j as int]));
                    assert(f0.push(self.axioms@[j as int]).drop_last() =~= f0);
                }
                axioms = axioms + 1;
                if self.axioms[j].layer == AxiomLayer::Trait {
                    traits = traits + 1;
                }
            }
            j = j + 1;
        }
        assert(self.axioms@.take(m as int) =~= self.axioms@);
        ShapeCounts { traces: n, myths, axioms, traits }
    }

    /// The text the fingerprint's tokens are drawn from: each hour's text
    /// and schema, then each living axiom's statement.
    pub fn fingerprint_blob(&self) -> (r: String)
        ensures
            r@ == hours_blob(self.traces@) + statements_blob(self.living()),
    {
        let mut out: Vec<char> = Vec::new();
        let n = self.traces.len();
        let mut i: usize = 0;
        while i < n
            invariant
                n == self.traces@.len(),
                i <= n,
                out@ == hours_blob(self.traces@.take(i as int)),
            decreases n - i,
        {
            let t = &self.traces[i];
            let ghost o0 = out@;
            if t.core.as_str().is_empty() {
                append_chars(&mut out, &chars_of(t.gist.as_str()));
            } else {
                append_chars(&mut out, &chars_of(t.core.as_str()));
            }
            out.push(' ');
            match &t.schema {
                Some(s) => {
                    append_chars(&mut out, &chars_of(s.as_str()));
                    out.push(' ');
                },
                None => {},
            }
            proof {
                reveal_strlit(" ");
                assert(self.traces@.take(i + 1).drop_last() =~= self.traces@.take(i as int));
                assert(self.traces@.take(i + 1).last() == self.traces@[i as int]);
                assert(out@ =~= o0 + hour_words(self.traces@[i as int]));
            }
            i = i + 1;
        }
        assert(self.traces@.take(n as int) =~= self.traces@);
        let ghost head = out@;
        let ghost live = |a: IdentityAxiom<W>| is_living(a);
        let m = self.axioms.len();
        let mut j: usize = 0;
        while j < m
            invariant
                m == self.axioms@.len(),
                j <= m,
                live == (|a: IdentityAxiom<W>| is_living(a)),
                out@ == head + statements_blob(self.axioms@.take(j as int).filter(live)),
            decreases m - j,
        {
            let ghost f0 = self.axioms@.take(j as int).filter(live);
            proof {
                reveal(Seq::filter);
                assert(self.axioms@.take(j + 1).drop_last() =~= self.axioms@.take(j as int));
                assert(self.axioms@.take(j + 1).last() == self.axioms@[j as int]);
            }
            if self.axioms[j].superseded_by.is_none() {
                let ghost o0 = out@;
                append_chars(&mut out, &chars_of(self.axioms[j].statement.as_str()));
                out.push(' ');
                proof {
                    reveal_strlit(" ");
                    let f1 = f0.push(self.axioms@[j as int]);
                    assert(self.axioms@.take(j + 1).filter(live) == f1);
                    assert(f1.drop_last() =~= f0);
                    assert(out@ =~= head + statements_blob(f1));
                }
            }
            j = j + 1;
        }
        assert(self.axioms@.take(m as int) =~= self.axioms@);
        string_of(out.as_slice())
    }

    /// The schemas of the hours, in book order.
    pub fn schemas_in_order(&self) -> (r: Vec<String>)
        ensures
            texts(r@) == schema_list(self.traces@),
    {
        let ghost has = |t: MemoryTrace<N>| t.schema is Some;
        let ghost nm = |t: MemoryTrace<N>| t.schema->0@;
        let mut r: Vec<String> = Vec::new();
        let n = self.traces.len();
        let mut i: usize = 0;
        while i < n
            invariant
                n == self.traces@.len(),
                i <= n,
                has == (|t: MemoryTrace<N>| t.schema is Some),
                nm == (|t: MemoryTrace<N>| t.schema->0@),
                texts(r@) == self.traces@.take(i as int).filter(has).map_values(nm),
            decreases n - i,
        {
            proof {
                reveal(Seq::filter);
                assert(self.traces@.take(i + 1).drop_last() =~= self.traces@.take(i as int));
                assert(self.traces@.take(i + 1).last() == self.traces@[i as int]);
            }
            match &self.traces[i].schema {
                Some(s) => {
                    let ghost f0 = self.traces@.take(i as int).filter(has);
                    let ghost r0 = r@;
                    r.push(s.clone());
                    proof {
                        assert(self.traces@.take(i + 1).filter(has) == f0.push(self.traces@[i as int]));
                        assert(f0.push(self.traces@[i as int]).map_values(nm) =~= f0.map_values(nm).push(s@));
                        assert(texts(r@) =~= texts(r0).push(s@));
                    }
                },
                None => {},
            }
            i = i + 1;
        }
        assert(self.traces@.take(n as int) =~= self.traces@);
        r
    }
}

/// Some hour under `s` leans the given way.
fn leaning(schemas: &Vec<String>, lean: &[i8], s: &str, positive: bool) -> (r: bool)
    requires
        lean@.len() == schemas@.len(),
    ensures
        r == leans(texts(schemas@), lean@, s@, positive),
{
    let mut i: usize = 0;
    while i < schemas.len()
        invariant
            lean@.len() == schemas@.len(),
            i <= schemas@.len(),
            forall|k: int|
                0 <= k < i ==> !(#[trigger] texts(schemas@)[k] == s@ && (if positive {
                    lean@[k] > 0
                } else {
                    lean@[k] < 0
                })),
        decreases schemas@.len() - i,
    {
        if crate::text::same_text(schemas[i].as_str(), s) && (if positive {
            lean[i] > 0
        } else {
            lean[i] < 0
        }) {
            assert(texts(schemas@)[i as int] == s@);
            return true;
        }
        i = i + 1;
    }
    false
}

/// How many schemas hold hours of both signs. `schemas` are the schemas of
/// the hours that have one, in book order; `lean` is the sign of each of
/// those hours' valence (read on the affect numbers): 1, -1 or 0.
pub fn count_contradictions(schemas: &Vec<String>, lean: &[i8]) -> (n: usize)
    requires
        lean@.len() == schemas@.len(),
    ensures
        n == contradictions(texts(schemas@), lean@),
{
    let ghost ts = texts(schemas@);
    let d = distinct(schemas);
    let ghost both = |s: Seq<char>| leans(ts, lean@, s, true) && leans(ts, lean@, s, false);
    let mut n: usize = 0;
    let mut k: usize = 0;
    while k < d.len()
        invariant
            lean@.len() == schemas@.len(),
            ts == texts(schemas@),
            texts(d@) == first_seen(ts),
            both == (|s: Seq<char>| leans(ts, lean@, s, true) && leans(ts, lean@, s, false)),
            k <= d@.len(),
            n == texts(d@).take(k as int).filter(both).len(),
            n <= k,
        decreases d@.len() - k,
    {
        proof {
            reveal(Seq::filter);
            assert(texts(d@).take(k + 1).drop_last() =~= texts(d@).take(k as int));
            assert(texts(d@).take(k + 1).last() == d@[k as int]@);
            texts(d@).take(k as int).lemma_filter_len(both);
        }
        if leaning(schemas, lean, d[k].as_str(), true) && leaning(schemas, lean, d[k].as_str(), false) {
            proof {
                let f0 = texts(d@).take(k as int).filter(both);
                assert(texts(d@).take(k + 1).filter(both) == f0.push(d@[k as int]@));
            }
            n = n + 1;
        }
        k = k + 1;
    }
    assert(texts(d@).take(d@.len() as int) =~= texts(d@));
    n
}

} // verus!
