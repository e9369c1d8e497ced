//! The rule narrator: the fallback voice when no language model is bound.
//!
//! Of its axiom distillation, what is decided on the hours themselves is
//! kept here: which schema an axiom is named after.

use vstd::prelude::*;

use crate::evidence::first_seen;
use crate::lineage::listed;
use crate::store::texts;
use crate::text::same_text;

verus! {

/// The fallback narrator (no LLM).
#[derive(Clone, Copy, Debug)]
pub struct RuleNarrator;

/// The schema names present among the hours, one per hour that has one.
pub open spec fn schema_list(s: Seq<Option<String>>) -> Seq<Seq<char>> {
    s.filter(|o: Option<String>| o is Some).map_values(|o: Option<String>| o.unwrap()@)
}

/// How many hours carry this schema.
pub open spec fn count_of(list: Seq<Seq<char>>, x: Seq<char>) -> nat {
    list.filter(|y: Seq<char>| y == x).len()
}

/// The most frequent candidate; among equally frequent ones the last wins.
pub open spec fn heaviest(cands: Seq<Seq<char>>, list: Seq<Seq<char>>) -> Option<Seq<char>>
    decreases cands.len(),
{
    if cands.len() == 0 {
        None
    } else {
        match heaviest(cands.drop_last(), list) {
            None => Some(cands.last()),
            Some(b) => if count_of(list, cands.last()) >= count_of(list, b) {
                Some(cands.last())
            } else {
                Some(b)
            },
        }
    }
}

/// The schema an axiom on these hours is named after: the most frequent
/// one (ties go to the schema seen last for the first time), or "self".
pub open spec fn dominant_schema(s: Seq<Option<String>>) -> Seq<char> {
    match heaviest(first_seen(schema_list(s)), schema_list(s)) {
        Some(x) => x,
        None => "self"@,
    }
}

/// The named schemas, in order.
fn named(schemas: &[Option<String>]) -> (r: Vec<String>)
    ensures
        texts(r@) == schema_list(schemas@),
{
    let ghost some = |o: Option<String>| o is Some;
    let ghost un = |o: Option<String>| o.unwrap()@;
    let mut out: Vec<String> = Vec::new();
    let mut i: usize = 0;
    assert(schemas@.take(0).filter(some) =~= Seq::<Option<String>>::empty());
    assert(texts(out@) =~= schemas@.take(0).filter(some).map_values(un));
    while i < schemas.len()
        invariant
            i <= schemas@.len(),
            some == (|o: Option<String>| o is Some),
            un == (|o: Option<String>| o.unwrap()@),
            texts(out@) == schemas@.take(i as int).filter(some).map_values(un),
        decreases schemas@.len() - i,
    {
        let ghost pf = schemas@.take(i as int).filter(some);
        proof {
            reveal(Seq::filter);
            assert(schemas@.take(i + 1).drop_last() =~= schemas@.take(i as int));
            assert(schemas@.take(i + 1).last() == schemas@[i as int]);
        }
        match &schemas[i] {
            Some(x) => {
                let ghost o0 = out@;
                out.push(x.clone());
                proof {
                    assert(pf.push(schemas@[i as int]).map_values(un) =~= pf.map_values(un).push(x@));
                    assert(texts(out@) =~= texts(o0).push(x@));
                }
            },
            None => {},
        }
        i = i + 1;
    }
    proof {
        assert(schemas@.take(schemas@.len() as int) =~= schemas@);
    }
    out
}

/// Each name once, in order of first appearance.
pub(crate) fn distinct(list: &Vec<String>) -> (r: Vec<String>)
    ensures
        texts(r@) == first_seen(texts(list@)),
{
    let mut out: Vec<String> = Vec::new();
    let mut i: usize = 0;
    assert(texts(list@).take(0) =~= Seq::<Seq<char>>::empty());
    while i < list.len()
        invariant
            i <= list@.len(),
            texts(out@) == first_seen(texts(list@).take(i as int)),
        decreases list@.len() - i,
    {
        proof {
            assert(texts(list@).take(i + 1).drop_last() =~= texts(list@).take(i as int));
            assert(texts(list@).take(i + 1).last() == list@[i as int]@);
        }
        if !listed(out.as_slice(), list[i].as_str()) {
            let ghost o0 = out@;
            out.push(list[i].clone());
            assert(texts(out@) =~= texts(o0).push(list@[i as int]@));
        }
        i = i + 1;
    }
    proof {
        assert(texts(list@).take(list@.len() as int) =~= texts(list@));
    }
    out
}

/// How many times a name occurs.
fn count(list: &Vec<String>, x: &str) -> (r: usize)
    ensures
        r == count_of(texts(list@), x@),
{
    let ghost eq = |y: Seq<char>| y == x@;
    let mut n: usize = 0;
    let mut i: usize = 0;
    assert(texts(list@).take(0).filter(eq) =~= Seq::<Seq<char>>::empty());
    while i < list.len()
        invariant
            i <= list@.len(),
            eq == (|y: Seq<char>| y == x@),
            n == texts(list@).take(i as int).filter(eq).len(),
            n <= i,
        decreases list@.len() - i,
    {
        proof {
            reveal(Seq::filter);
            assert(texts(list@).take(i + 1).drop_last() =~= texts(list@).take(i as int));
            assert(texts(list@).take(i + 1).last() == list@[i as int]@);
        }
        if same_text(list[i].as_str(), x) {
            n = n + 1;
        }
        i = i + 1;
    }
    proof {
        assert(texts(list@).take(list@.len() as int) =~= texts(list@));
    }
    n
}

impl RuleNarrator {
    /// The schema an axiom distilled from these hours (given by their
    /// schemas) is named after; nothing is distilled from fewer than two.
    pub fn distill_schema(&self, schemas: &[Option<String>]) -> (r: Option<String>)
        ensures
            schemas@.len() < 2 ==> r is None,
            schemas@.len() >= 2 ==> (r matches Some(x) && x@ == dominant_schema(schemas@)),
    {
        if schemas.len() < 2 {
            return None;
        }
        let list = named(schemas);
        let cands = distinct(&list);
        let ghost lt = texts(list@);
        let ghost ct = texts(cands@);
        let mut best: Option<usize> = None;
        let mut best_n: usize = 0;
        let mut k: usize = 0;
        while k < cands.len()
            invariant
                k <= cands@.len(),
                lt == texts(list@),
                ct == texts(cands@),
                match best {
                    Some(b) => b < k && heaviest(ct.take(k as int), lt) == Some(ct[b as int])
                        && best_n == count_of(lt, ct[b as int]),
                    None => k == 0,
                },
                k == 0 ==> heaviest(ct.take(k as int), lt) is None,
            decreases cands@.len() - k,
        {
            let c = count(&list, cands[k].as_str());
            proof {
                assert(ct.take(k + 1).drop_last() =~= ct.take(k as int));
                assert(ct.take(k + 1).last() == ct[k as int]);
                if k == 0 {
                    assert(ct.take(0) =~= Seq::<Seq<char>>::empty());
                }
            }
            match best {
                None => {
                    best = Some(k);
                    best_n = c;
                },
                Some(_) => {
                    if c >= best_n {
                        best = Some(k);
                        best_n = c;
                    }
                },
            }
            k = k + 1;
        }
        proof {
            assert(ct.take(cands@.len() as int) =~= ct);
        }
        match best {
            Some(b) => Some(cands[b].clone()),
            None => {
                proof {
                    assert(ct.take(0) =~= Seq::<Seq<char>>::empty());
                }
                Some("self".to_owned())
            },
        }
    }
}

} // verus!
