//! One night: weather, rewrite, merge, ladder, release, in this order.
//!
//! This file holds what a night does to the shape of the book: which spent
//! latent hours leave, how an absorbed hour is fused into its keeper, how an
//! axiom's support grows along merge edges, and the deep-night stamp.

use vstd::prelude::*;

use crate::lineage::{contains_text, listed};
use crate::model::{ArchiveRecord, Channel, IdentityAxiom, MemoryTrace, OrganCut, TraceStatus};
use crate::store::{texts, MemoryStore};
use crate::text::same_text;

verus! {

/// Scientific order for a deep night. A swap changes the book; unit tests on traces will not see it.
pub const NIGHT_PASSES: &'static [&'static str; 5] = &["weather", "rewrite", "merge", "ladder", "release"];

/// Shallow night: weather and release only. No rewrite, merge, or ladder.
pub const SHALLOW_PASSES: &'static [&'static str; 2] = &["weather", "release"];

#[derive(Clone, Copy, Debug, PartialEq, Eq, Structural)]
pub enum NightKind {
    Shallow,
    Deep,
}

impl NightKind {
    pub fn as_str(self) -> (r: &'static str)
        ensures
            self is Shallow ==> r@ == "shallow"@,
            self is Deep ==> r@ == "deep"@,
    {
        match self {
            NightKind::Shallow => "shallow",
            NightKind::Deep => "deep",
        }
    }
}

/// The hour keeps its sealed record under this archive id.
pub open spec fn keeps_archive<N>(t: MemoryTrace<N>, aid: Seq<char>) -> bool {
    t.archive_id matches Some(x) && x@ == aid
}

/// Part way through the release: an hour of `s0` already gone kept the
/// archive, and no hour still in `now` keeps it.
spec fn let_go<N, W>(
    s0: MemoryStore<N, W>,
    now: MemoryStore<N, W>,
    gone: Seq<Seq<char>>,
    aid: Seq<char>,
) -> bool {
    &&& exists|t: MemoryTrace<N>|
        #[trigger] s0.traces@.contains(t) && gone.contains(t.id@) && keeps_archive(t, aid)
    &&& !exists|t: MemoryTrace<N>| #[trigger] now.traces@.contains(t) && keeps_archive(t, aid)
}

impl<N, W> MemoryStore<N, W> {
    /// The release lets this archive go: an hour that leaves kept it, and no
    /// hour that stays keeps it.
    pub open spec fn archive_freed(
        self,
        aid: Seq<char>,
        previously_latent: Seq<Seq<char>>,
        spent: Seq<Seq<char>>,
    ) -> bool {
        &&& exists|t: MemoryTrace<N>|
            #[trigger] self.traces@.contains(t) && self.may_leave(t, previously_latent, spent)
                && keeps_archive(t, aid)
        &&& !exists|t: MemoryTrace<N>|
            #[trigger] self.traces@.contains(t) && !self.may_leave(t, previously_latent, spent)
                && keeps_archive(t, aid)
    }

    /// Some living axiom lists this hour.
    pub open spec fn held_by_living(self, id: Seq<char>) -> bool {
        exists|j: int|
            0 <= j < self.axioms@.len() && #[trigger] self.axioms@[j].is_living() && self.axioms@[j].supports(id)
    }

    /// A spent latent hour: latent before this night, still latent, not a
    /// verbatim record, its access / anchor / permanence all low (`spent`),
    /// and no living axiom leans on it.
    pub open spec fn may_leave(
        self,
        t: MemoryTrace<N>,
        previously_latent: Seq<Seq<char>>,
        spent: Seq<Seq<char>>,
    ) -> bool {
        &&& previously_latent.contains(t.id@)
        &&& !t.channel.is_verbatim()
        &&& t.status == TraceStatus::Latent
        &&& spent.contains(t.id@)
        &&& !self.held_by_living(t.id@)
    }

    /// Whether some living axiom lists this hour.
    pub fn is_held_by_living(&self, id: &str) -> (r: bool)
        ensures
            r == self.held_by_living(id@),
    {
        let mut j: usize = 0;
        while j < self.axioms.len()
            invariant
                j <= self.axioms@.len(),
                forall|jj: int|
                    0 <= jj < j ==> !(#[trigger] self.axioms@[jj].is_living() && self.axioms@[jj].supports(
                        id@,
                    )),
            decreases self.axioms@.len() - j,
        {
            if self.axioms[j].superseded_by.is_none() && contains_text(
                &self.axioms[j].support_trace_ids,
                id,
            ) {
                proof {
                    let w = choose|w: int|
                        0 <= w < texts(self.axioms@[j as int].support_trace_ids@).len() && texts(
                            self.axioms@[j as int].support_trace_ids@,
                        )[w] == id@;
                    assert(self.axioms@[j as int].support_trace_ids@[w]@ == id@);
                    assert(self.axioms@[j as int].is_living() && self.axioms@[j as int].supports(id@));
                }
                return true;
            }
            proof {
                if self.axioms@[j as int].supports(id@) {
                    let w = choose|w: int|
                        0 <= w < self.axioms@[j as int].support_trace_ids@.len()
                            && #[trigger] self.axioms@[j as int].support_trace_ids@[w]@ == id@;
                    assert(texts(self.axioms@[j as int].support_trace_ids@)[w] == id@);
                }
            }
            j = j + 1;
        }
        false
    }
}

/// Last night pass: a spent latent hour may leave the book.
///
/// `previously_latent` lists the hours that were latent before this night
/// began; `spent` lists the hours whose access, anchor and permanence are all
/// low. Only an hour in both, still latent, not verbatim, and listed by no
/// living axiom is released. Returns how many left, counted in a `u32`
/// that wraps past `u32::MAX`.
pub fn release<N, W>(
    store: &mut MemoryStore<N, W>,
    previously_latent: &[String],
    spent: &[String],
) -> (n: u32)
    requires
        old(store).wf(),
    ensures
        final(store).wf(),
        n == old(store).traces@.filter(
            |t: MemoryTrace<N>| old(store).may_leave(t, texts(previously_latent@), texts(spent@)),
        ).len() as u32,
        final(store).traces@ == old(store).traces@.filter(
            |t: MemoryTrace<N>| !old(store).may_leave(t, texts(previously_latent@), texts(spent@)),
        ),
        forall|t: MemoryTrace<N>|
            #[trigger] final(store).traces@.contains(t) <==> (old(store).traces@.contains(t)
                && !old(store).may_leave(t, texts(previously_latent@), texts(spent@))),
        forall|t: MemoryTrace<N>|
            old(store).traces@.contains(t) && old(store).held_by_living(t.id@)
                ==> #[trigger] final(store).traces@.contains(t),
        forall|t: MemoryTrace<N>|
            old(store).traces@.contains(t) && !texts(previously_latent@).contains(t.id@)
                ==> #[trigger] final(store).traces@.contains(t),
        forall|x: Seq<char>, y: Seq<char>|
            #[trigger] final(store).linked(x, y) ==> old(store).linked(x, y),
        forall|r: ArchiveRecord|
            #[trigger] final(store).archives@.contains(r) <==> (old(store).archives@.contains(r)
                && !old(store).archive_freed(r.id@, texts(previously_latent@), texts(spent@))),
        final(store).axioms@ == old(store).axioms@,
        final(store).pending_night@ == old(store).pending_night@,
        final(store).last_deep_at == old(store).last_deep_at,
{
    let ghost pl = texts(previously_latent@);
    let ghost sp = texts(spent@);
    let ghost s0 = *store;
    let ghost pred = |t: MemoryTrace<N>| s0.may_leave(t, pl, sp);
    // Decide first, from the book as it stood when the pass began.
    let mut drop: Vec<String> = Vec::new();
    let n = store.traces.len();
    let mut i: usize = 0;
    while i < n
        invariant
            *store == s0,
            s0.wf(),
            n == s0.traces@.len(),
            i <= n,
            pred == (|t: MemoryTrace<N>| s0.may_leave(t, pl, sp)),
            pl == texts(previously_latent@),
            sp == texts(spent@),
            texts(drop@) == s0.traces@.take(i as int).filter(pred).map_values(|t: MemoryTrace<N>| t.id@),
        decreases n - i,
    {
        proof {
            reveal(Seq::filter);
            assert(s0.traces@.take(i + 1).drop_last() =~= s0.traces@.take(i as int));
            assert(s0.traces@.take(i + 1).last() == s0.traces@[i as int]);
        }
        let t = &store.traces[i];
        let leave = listed(previously_latent, t.id.as_str()) && !t.channel.verbatim() && t.status
            == TraceStatus::Latent && listed(spent, t.id.as_str()) && !store.is_held_by_living(
            t.id.as_str(),
        );
        if leave {
            let ghost f0 = s0.traces@.take(i as int).filter(pred);
            let ghost before = drop@;
            drop.push(t.id.clone());
            proof {
                assert(s0.traces@.take(i + 1).filter(pred) == f0.push(s0.traces@[i as int]));
                assert(texts(drop@) =~= texts(before).push(s0.traces@[i as int].id@));
                assert(f0.push(s0.traces@[i as int]).map_values(|t: MemoryTrace<N>| t.id@)
                    =~= f0.map_values(|t: MemoryTrace<N>| t.id@).push(s0.traces@[i as int].id@));
            }
        }
        i = i + 1;
    }
    proof {
        assert(s0.traces@.take(n as int) =~= s0.traces@);
        s0.traces@.lemma_filter_len(pred);
    }
    let ghost leaving = s0.traces@.filter(pred);
    let ghost dids = texts(drop@);
    proof {
        // Each id to drop names exactly one hour that may leave.
        assert forall|t: MemoryTrace<N>| s0.traces@.contains(t) implies (pred(t) <==> dids.contains(t.id@)) by {
            let k = choose|k: int| 0 <= k < s0.traces@.len() && s0.traces@[k] == t;
            if pred(t) {
                leaving_contains(s0.traces@, pred, k);
                let w = choose|w: int| 0 <= w < leaving.len() && leaving[w] == t;
                assert(dids[w] == t.id@);
            }
            if dids.contains(t.id@) {
                let w = choose|w: int| 0 <= w < dids.len() && dids[w] == t.id@;
                assert(dids[w] == leaving[w].id@);
                s0.traces@.lemma_filter_pred(pred, w);
                leaving_from(s0.traces@, pred, w);
                let k2 = choose|k2: int| 0 <= k2 < s0.traces@.len() && s0.traces@[k2] == leaving[w];
                if k2 != k {
                    if k2 < k {
                        assert(s0.traces@[k2].id@ != s0.traces@[k].id@);
                    } else {
                        assert(s0.traces@[k].id@ != s0.traces@[k2].id@);
                    }
                }
            }
        }
    }
    let count = drop.len();
    let mut k: usize = 0;
    proof {
        let p0 = |t: MemoryTrace<N>| !dids.take(0).contains(t.id@);
        lemma_filter_all(s0.traces@, p0);
    }
    while k < count
        invariant
            count == drop@.len(),
            dids == texts(drop@),
            k <= count,
            store.traces@ == s0.traces@.filter(|t: MemoryTrace<N>| !dids.take(k as int).contains(t.id@)),
            store.wf(),
            s0.wf(),
            forall|t: MemoryTrace<N>| s0.traces@.contains(t) ==> (pred(t) <==> dids.contains(t.id@)),
            forall|t: MemoryTrace<N>|
                #[trigger] store.traces@.contains(t) <==> (s0.traces@.contains(t) && !dids.take(
                    k as int,
                ).contains(t.id@)),
            forall|x: Seq<char>, y: Seq<char>| #[trigger] store.linked(x, y) ==> s0.linked(x, y),
            forall|r: ArchiveRecord|
                #[trigger] store.archives@.contains(r) <==> (s0.archives@.contains(r) && !let_go(
                    s0,
                    *store,
                    dids.take(k as int),
                    r.id@,
                )),
            store.axioms@ == s0.axioms@,
            store.pending_night@ == s0.pending_night@,
            store.last_deep_at == s0.last_deep_at,
        decreases count - k,
    {
        let ghost before = *store;
        let gone = store.release_trace(drop[k].as_str());
        proof {
            let idk = dids[k as int];
            assert(drop@[k as int]@ == idk);
            let tk = dids.take(k as int);
            assert(dids.take(k + 1) =~= tk.push(idk));
            assert forall|x: Seq<char>| #[trigger] dids.take(k + 1).contains(x) <==> (tk.contains(x) || x == idk) by {
                if tk.contains(x) {
                    let w = choose|w: int| 0 <= w < tk.len() && tk[w] == x;
                    assert(dids.take(k + 1)[w] == x);
                }
                if x == idk {
                    assert(dids.take(k + 1)[k as int] == x);
                }
                if dids.take(k + 1).contains(x) {
                    let w = choose|w: int| 0 <= w < k + 1 && #[trigger] dids.take(k + 1)[w] == x;
                    if w < k {
                        assert(tk[w] == x);
                    }
                }
            }
            assert forall|t: MemoryTrace<N>|
                #[trigger] store.traces@.contains(t) <==> (before.traces@.contains(t) && t.id@ != idk) by {
                if before.has_trace(idk) {
                    let i = choose|i: int|
                        0 <= i < before.traces@.len() && before.traces@[i].id@ == idk
                            && store.traces@ == before.traces@.remove(i);
                    if store.traces@.contains(t) {
                        let q = choose|q: int| 0 <= q < store.traces@.len() && store.traces@[q] == t;
                        let qq = if q < i { q } else { q + 1 };
                        assert(before.traces@[qq] == t);
                        assert(before.traces@.contains(t));
                        if t.id@ == idk {
                            if qq < i {
                                assert(before.traces@[qq].id@ != before.traces@[i].id@);
                            } else {
                                assert(before.traces@[i].id@ != before.traces@[qq].id@);
                            }
                        }
                    }
                    if before.traces@.contains(t) && t.id@ != idk {
                        let q = choose|q: int| 0 <= q < before.traces@.len() && before.traces@[q] == t;
                        assert(q != i);
                        let qq = if q < i { q } else { q - 1 };
                        assert(store.traces@[qq] == t);
                    }
                } else {
                    if before.traces@.contains(t) && t.id@ == idk {
                        let q = choose|q: int| 0 <= q < before.traces@.len() && before.traces@[q] == t;
                        assert(before.traces@[q].id@ == idk);
                    }
                }
            }
            assert forall|t: MemoryTrace<N>|
                #[trigger] store.traces@.contains(t) <==> (s0.traces@.contains(t) && !dids.take(
                    k + 1,
                ).contains(t.id@)) by {
                assert(before.traces@.contains(t) <==> (s0.traces@.contains(t) && !tk.contains(t.id@)));
                assert(dids.take(k + 1).contains(t.id@) <==> (tk.contains(t.id@) || t.id@ == idk));
            }
            lemma_release_step(s0, before, *store, tk, idk, gone);
            assert(tk.push(idk) == dids.take(k + 1));
            let pk = |t: MemoryTrace<N>| !tk.contains(t.id@);
            let pn = |t: MemoryTrace<N>| !dids.take(k + 1).contains(t.id@);
            match gone {
                Some(tt) => {
                    let i = choose|i: int|
                        0 <= i < before.traces@.len() && before.traces@[i] == tt
                            && store.traces@ == before.traces@.remove(i);
                    lemma_filter_drop_id(s0.traces@, pk, idk, i);
                    let pq = |t: MemoryTrace<N>| pk(t) && t.id@ != idk;
                    lemma_filter_congruent(s0.traces@, pq, pn);
                },
                None => {
                    assert forall|q: int| 0 <= q < s0.traces@.len() implies pk(s0.traces@[q]) == pn(
                        s0.traces@[q],
                    ) by {
                        let t = s0.traces@[q];
                        assert(s0.traces@.contains(t));
                        if t.id@ == idk && !tk.contains(t.id@) {
                            assert(before.traces@.contains(t));
                            let j = choose|j: int| 0 <= j < before.traces@.len() && before.traces@[j] == t;
                            assert(before.traces@[j].id@ == idk);
                        }
                    }
                    lemma_filter_congruent(s0.traces@, pk, pn);
                },
            }
        }
        k = k + 1;
    }
    proof {
        assert(dids.take(count as int) =~= dids);
        let pd = |t: MemoryTrace<N>| !dids.take(count as int).contains(t.id@);
        let pm = |t: MemoryTrace<N>| !s0.may_leave(t, pl, sp);
        assert forall|q: int| 0 <= q < s0.traces@.len() implies pd(s0.traces@[q]) == pm(s0.traces@[q]) by {
            assert(s0.traces@.contains(s0.traces@[q]));
            assert(pred(s0.traces@[q]) == s0.may_leave(s0.traces@[q], pl, sp));
        }
        lemma_filter_congruent(s0.traces@, pd, pm);
        assert forall|r: ArchiveRecord|
            let_go(s0, *store, dids, r.id@) == s0.archive_freed(r.id@, pl, sp) by {
            let a = r.id@;
            if let_go(s0, *store, dids, a) {
                let t = choose|t: MemoryTrace<N>|
                    #[trigger] s0.traces@.contains(t) && dids.contains(t.id@) && keeps_archive(t, a);
                assert(pred(t));
                assert forall|u: MemoryTrace<N>|
                    #[trigger] s0.traces@.contains(u) && !s0.may_leave(u, pl, sp) implies !keeps_archive(
                    u,
                    a,
                ) by {
                    assert(!pred(u));
                    assert(store.traces@.contains(u));
                }
            }
            if s0.archive_freed(a, pl, sp) {
                let t = choose|t: MemoryTrace<N>|
                    #[trigger] s0.traces@.contains(t) && s0.may_leave(t, pl, sp) && keeps_archive(t, a);
                assert(pred(t));
                assert forall|u: MemoryTrace<N>|
                    #[trigger] store.traces@.contains(u) implies !keeps_archive(u, a) by {
                    assert(s0.traces@.contains(u));
                    assert(!pred(u));
                }
            }
        }
        assert forall|t: MemoryTrace<N>|
            #[trigger] store.traces@.contains(t) <==> (s0.traces@.contains(t) && !s0.may_leave(
                t,
                pl,
                sp,
            )) by {
            if s0.traces@.contains(t) {
                assert(pred(t) == s0.may_leave(t, pl, sp));
            }
        }
    }
    count as u32
}

/// A filter that keeps every item keeps the list.
proof fn lemma_filter_all<A>(s: Seq<A>, p: spec_fn(A) -> bool)
    requires
        forall|i: int| 0 <= i < s.len() ==> p(#[trigger] s[i]),
    ensures
        s.filter(p) == s,
    decreases s.len(),
{
    reveal(Seq::filter);
    if s.len() > 0 {
        lemma_filter_all(s.drop_last(), p);
        assert(p(s[s.len() - 1]));
        assert(s.drop_last().push(s.last()) =~= s);
    }
}

/// Two filters that agree on every item of the list keep the same items.
proof fn lemma_filter_congruent<A>(s: Seq<A>, p: spec_fn(A) -> bool, q: spec_fn(A) -> bool)
    requires
        forall|i: int| 0 <= i < s.len() ==> p(#[trigger] s[i]) == q(s[i]),
    ensures
        s.filter(p) == s.filter(q),
    decreases s.len(),
{
    reveal(Seq::filter);
    if s.len() > 0 {
        lemma_filter_congruent(s.drop_last(), p, q);
        assert(p(s[s.len() - 1]) == q(s[s.len() - 1]));
    }
}

/// In a list of hours with unique ids, dropping the kept hour with id `x`
/// from a filter is filtering `x` out as well.
proof fn lemma_filter_drop_id<N>(s: Seq<MemoryTrace<N>>, p: spec_fn(MemoryTrace<N>) -> bool, x: Seq<char>, i: int)
    requires
        forall|a: int, b: int| 0 <= a < b < s.len() ==> #[trigger] s[a].id@ != #[trigger] s[b].id@,
        0 <= i < s.filter(p).len(),
        s.filter(p)[i].id@ == x,
    ensures
        s.filter(p).remove(i) == s.filter(|t: MemoryTrace<N>| p(t) && t.id@ != x),
    decreases s.len(),
{
    reveal(Seq::filter);
    let q = |t: MemoryTrace<N>| p(t) && t.id@ != x;
    let d = s.drop_last();
    let last = s.last();
    let fd = d.filter(p);
    assert forall|a: int, b: int| 0 <= a < b < d.len() implies #[trigger] d[a].id@ != #[trigger] d[b].id@ by {
        assert(d[a] == s[a] && d[b] == s[b]);
    }
    // Every hour the filter keeps from `d` is an hour of `d`.
    assert forall|j: int| 0 <= j < fd.len() implies d.contains(#[trigger] fd[j]) by {
        assert(fd.contains(fd[j]));
        d.lemma_filter_contains_rev(p, fd[j]);
    }
    if last.id@ == x {
        // No hour of `d` has id `x`.
        assert forall|j: int| 0 <= j < d.len() implies p(#[trigger] d[j]) == q(d[j]) by {
            assert(d[j] == s[j]);
            assert(s[j].id@ != s[s.len() - 1].id@);
        }
        lemma_filter_congruent(d, p, q);
        assert(!q(last));
        if !p(last) {
            assert(s.filter(p) == fd);
            let w = choose|w: int| 0 <= w < d.len() && d[w] == fd[i];
            assert(d[w] == s[w]);
            assert(s[w].id@ != s[s.len() - 1].id@);
        } else {
            assert(s.filter(p) == fd.push(last));
            if i < fd.len() {
                let w = choose|w: int| 0 <= w < d.len() && d[w] == fd[i];
                assert(d[w] == s[w]);
                assert(s[w].id@ != s[s.len() - 1].id@);
            }
            assert(i == fd.len());
            assert(fd.push(last).remove(i) =~= fd);
        }
    } else {
        assert(q(last) == p(last));
        if p(last) {
            assert(s.filter(p) == fd.push(last));
            assert(i < fd.len());
            lemma_filter_drop_id(d, p, x, i);
            assert(fd.push(last).remove(i) =~= fd.remove(i).push(last));
        } else {
            assert(s.filter(p) == fd);
            lemma_filter_drop_id(d, p, x, i);
        }
    }
}

/// Some hour of the book keeps this archive, read by membership.
proof fn lemma_used_iff<N, W>(s: MemoryStore<N, W>, aid: Seq<char>)
    ensures
        s.archive_used(aid) <==> exists|t: MemoryTrace<N>|
            #[trigger] s.traces@.contains(t) && keeps_archive(t, aid),
{
    if s.archive_used(aid) {
        let i = choose|i: int|
            0 <= i < s.traces@.len() && (#[trigger] s.traces@[i].archive_id matches Some(x) && x@
                == aid);
        assert(s.traces@.contains(s.traces@[i]));
    }
    if exists|t: MemoryTrace<N>| #[trigger] s.traces@.contains(t) && keeps_archive(t, aid) {
        let t = choose|t: MemoryTrace<N>| #[trigger] s.traces@.contains(t) && keeps_archive(t, aid);
        let i = choose|i: int| 0 <= i < s.traces@.len() && s.traces@[i] == t;
        assert(s.traces@[i].archive_id matches Some(x) && x@ == aid);
    }
}

/// With unique ids, dropping the record at `k` drops exactly the records with its id.
proof fn lemma_remove_archive(arcs: Seq<ArchiveRecord>, k: int, r: ArchiveRecord)
    requires
        0 <= k < arcs.len(),
        forall|i: int, j: int| 0 <= i < j < arcs.len() ==> #[trigger] arcs[i].id@ != #[trigger] arcs[j].id@,
    ensures
        arcs.remove(k).contains(r) <==> (arcs.contains(r) && r.id@ != arcs[k].id@),
{
    if arcs.remove(k).contains(r) {
        let q = choose|q: int| 0 <= q < arcs.remove(k).len() && arcs.remove(k)[q] == r;
        let qq = if q < k { q } else { q + 1 };
        assert(arcs[qq] == r);
        if qq < k {
            assert(arcs[qq].id@ != arcs[k].id@);
        } else {
            assert(arcs[k].id@ != arcs[qq].id@);
        }
    }
    if arcs.contains(r) && r.id@ != arcs[k].id@ {
        let q = choose|q: int| 0 <= q < arcs.len() && arcs[q] == r;
        assert(q != k);
        let qq = if q < k { q } else { q - 1 };
        assert(arcs.remove(k)[qq] == r);
    }
}

/// One hour leaves: the archives still match what has gone so far.
proof fn lemma_release_step<N, W>(
    s0: MemoryStore<N, W>,
    before: MemoryStore<N, W>,
    after: MemoryStore<N, W>,
    gone: Seq<Seq<char>>,
    idk: Seq<char>,
    out: Option<MemoryTrace<N>>,
)
    requires
        s0.wf(),
        before.wf(),
        forall|t: MemoryTrace<N>|
            #[trigger] before.traces@.contains(t) <==> (s0.traces@.contains(t) && !gone.contains(t.id@)),
        forall|t: MemoryTrace<N>|
            #[trigger] after.traces@.contains(t) <==> (before.traces@.contains(t) && t.id@ != idk),
        out is None <==> !before.has_trace(idk),
        out is None ==> after == before,
        out matches Some(t) ==> {
            &&& t.id@ == idk
            &&& before.traces@.contains(t)
            &&& match t.archive_id {
                Some(aid) => if !after.archive_used(aid@) && before.has_archive(aid@) {
                    exists|k: int|
                        0 <= k < before.archives@.len() && before.archives@[k].id@ == aid@
                            && after.archives@ == before.archives@.remove(k)
                } else {
                    after.archives@ == before.archives@
                },
                None => after.archives@ == before.archives@,
            }
        },
        forall|r: ArchiveRecord|
            #[trigger] before.archives@.contains(r) <==> (s0.archives@.contains(r) && !let_go(
                s0,
                before,
                gone,
                r.id@,
            )),
    ensures
        forall|r: ArchiveRecord|
            #[trigger] after.archives@.contains(r) <==> (s0.archives@.contains(r) && !let_go(
                s0,
                after,
                gone.push(idk),
                r.id@,
            )),
{
    let g2 = gone.push(idk);
    assert forall|x: Seq<char>| #[trigger] g2.contains(x) <==> (gone.contains(x) || x == idk) by {
        if gone.contains(x) {
            let w = choose|w: int| 0 <= w < gone.len() && gone[w] == x;
            assert(g2[w] == x);
        }
        if x == idk {
            assert(g2[gone.len() as int] == x);
        }
    }
    assert forall|r: ArchiveRecord|
        #[trigger] after.archives@.contains(r) <==> (s0.archives@.contains(r) && !let_go(
            s0,
            after,
            g2,
            r.id@,
        )) by {
        let a = r.id@;
        lemma_used_iff(after, a);
        lemma_used_iff(before, a);
        match out {
            None => {
                // No hour with this id was left; the newly gone id adds nothing.
                assert forall|t: MemoryTrace<N>| #[trigger] s0.traces@.contains(t) implies (g2.contains(
                    t.id@,
                ) <==> gone.contains(t.id@)) by {
                    if t.id@ == idk && !gone.contains(t.id@) {
                        assert(before.traces@.contains(t));
                        let i = choose|i: int| 0 <= i < before.traces@.len() && before.traces@[i] == t;
                        assert(before.traces@[i].id@ == idk);
                    }
                }
                assert(let_go(s0, after, g2, a) == let_go(s0, before, gone, a));
            },
            Some(tt) => {
                assert(s0.traces@.contains(tt));
                // In a book with unique ids, `tt` is the only hour with its id.
                assert forall|t: MemoryTrace<N>|
                    #[trigger] s0.traces@.contains(t) && t.id@ == idk implies t == tt by {
                    let i = choose|i: int| 0 <= i < s0.traces@.len() && s0.traces@[i] == t;
                    let j = choose|j: int| 0 <= j < s0.traces@.len() && s0.traces@[j] == tt;
                    if i < j {
                        assert(s0.traces@[i].id@ != s0.traces@[j].id@);
                    } else if j < i {
                        assert(s0.traces@[j].id@ != s0.traces@[i].id@);
                    }
                }
                assert forall|t: MemoryTrace<N>|
                    #[trigger] before.traces@.contains(t) && t.id@ == idk implies t == tt by {
                    assert(s0.traces@.contains(t));
                }
                if keeps_archive(tt, a) {
                    if exists|t: MemoryTrace<N>| #[trigger] after.traces@.contains(t) && keeps_archive(t, a) {
                        let t = choose|t: MemoryTrace<N>|
                            #[trigger] after.traces@.contains(t) && keeps_archive(t, a);
                        assert(before.traces@.contains(t));
                        assert(after.archives@ == before.archives@);
                        assert(!let_go(s0, before, gone, a));
                        assert(!let_go(s0, after, g2, a));
                    } else {
                        assert(g2.contains(tt.id@));
                        assert(let_go(s0, after, g2, a));
                        let aid = tt.archive_id->0;
                        if before.has_archive(aid@) {
                            let k = choose|k: int|
                                0 <= k < before.archives@.len() && before.archives@[k].id@ == aid@
                                    && after.archives@ == before.archives@.remove(k);
                            lemma_remove_archive(before.archives@, k, r);
                        } else {
                            if before.archives@.contains(r) {
                                let q = choose|q: int|
                                    0 <= q < before.archives@.len() && before.archives@[q] == r;
                                assert(before.archives@[q].id@ == aid@);
                            }
                        }
                    }
                } else {
                    assert forall|t: MemoryTrace<N>| #[trigger] s0.traces@.contains(t) && keeps_archive(
                        t,
                        a,
                    ) implies (g2.contains(t.id@) <==> gone.contains(t.id@)) by {
                        if t.id@ == idk {
                            assert(t == tt);
                        }
                    }
                    assert((exists|t: MemoryTrace<N>| #[trigger] after.traces@.contains(t) && keeps_archive(t, a))
                        <==> (exists|t: MemoryTrace<N>| #[trigger] before.traces@.contains(t) && keeps_archive(t, a))) by {
                        if exists|t: MemoryTrace<N>| #[trigger] before.traces@.contains(t) && keeps_archive(t, a) {
                            let t = choose|t: MemoryTrace<N>|
                                #[trigger] before.traces@.contains(t) && keeps_archive(t, a);
                            if t.id@ == idk {
                                assert(t == tt);
                            }
                            assert(after.traces@.contains(t));
                        }
                    }
                    assert(let_go(s0, after, g2, a) == let_go(s0, before, gone, a));
                    match tt.archive_id {
                        Some(aid) => {
                            if !after.archive_used(aid@) && before.has_archive(aid@) {
                                let k = choose|k: int|
                                    0 <= k < before.archives@.len() && before.archives@[k].id@ == aid@
                                        && after.archives@ == before.archives@.remove(k);
                                lemma_remove_archive(before.archives@, k, r);
                            }
                        },
                        None => {},
                    }
                }
            },
        }
    }
}

/// The `k`-th hour that passes a filter came from the list.
proof fn leaving_from<A>(s: Seq<A>, pred: spec_fn(A) -> bool, k: int)
    requires
        0 <= k < s.filter(pred).len(),
    ensures
        s.contains(s.filter(pred)[k]),
{
    assert(s.filter(pred).contains(s.filter(pred)[k]));
    s.lemma_filter_contains_rev(pred, s.filter(pred)[k]);
}

/// An hour that passes the filter is in the filtered list.
proof fn leaving_contains<A>(s: Seq<A>, pred: spec_fn(A) -> bool, k: int)
    requires
        0 <= k < s.len(),
        pred(s[k]),
    ensures
        s.filter(pred).contains(s[k]),
{
    s.lemma_filter_contains(pred, k);
}


/// Deep when enough new hours arrived, or when their charge cleared the bar.
pub fn budget_kind(new_hours: u32, deep_min_hours: u32, charge_clears: bool) -> (k: NightKind)
    ensures
        k == (if new_hours >= deep_min_hours || charge_clears {
            NightKind::Deep
        } else {
            NightKind::Shallow
        }),
{
    if new_hours >= deep_min_hours || charge_clears {
        NightKind::Deep
    } else {
        NightKind::Shallow
    }
}

/// The deep night's passes, in order.
pub open spec fn deep_order() -> Seq<Seq<char>> {
    seq!["weather"@, "rewrite"@, "merge"@, "ladder"@, "release"@]
}

/// Whether a night of this kind runs the pass: weather and release always;
/// rewrite and merge on a deep night; the ladder on a deep night the cut keeps it for.
pub open spec fn runs_pass(kind: NightKind, ladder_on: bool, pass: Seq<char>) -> bool {
    ||| pass == "weather"@
    ||| pass == "release"@
    ||| (kind is Deep && (pass == "rewrite"@ || pass == "merge"@ || (pass == "ladder"@ && ladder_on)))
}

/// The passes a night runs, in the order it runs them.
pub open spec fn night_plan(kind: NightKind, cut: OrganCut) -> Seq<Seq<char>> {
    match kind {
        NightKind::Shallow => seq!["weather"@, "release"@],
        NightKind::Deep => if cut.ladder {
            deep_order()
        } else {
            seq!["weather"@, "rewrite"@, "merge"@, "release"@]
        },
    }
}

/// The views of a list of names.
pub open spec fn pass_names(v: Seq<&'static str>) -> Seq<Seq<char>> {
    v.map_values(|p: &'static str| p@)
}

/// The passes a night of this kind runs under this cut, in order.
pub fn passes_for(kind: NightKind, cut: OrganCut) -> (r: Vec<&'static str>)
    ensures
        pass_names(r@) == night_plan(kind, cut),
{
    let mut r: Vec<&'static str> = Vec::new();
    r.push("weather");
    if kind == NightKind::Deep {
        r.push("rewrite");
        r.push("merge");
        if cut.ladder {
            r.push("ladder");
        }
    }
    r.push("release");
    assert(pass_names(r@) =~= night_plan(kind, cut));
    r
}

/// Every night keeps the deep order: it runs the deep night's passes with
/// the ones it skips left out, weather first and release last.
pub proof fn night_keeps_the_order(kind: NightKind, cut: OrganCut)
    ensures
        night_plan(kind, cut) == deep_order().filter(|p: Seq<char>| runs_pass(kind, cut.ladder, p)),
        night_plan(kind, cut)[0] == "weather"@,
        night_plan(kind, cut).last() == "release"@,
{
    reveal_strlit("weather");
    reveal_strlit("rewrite");
    reveal_strlit("merge");
    reveal_strlit("ladder");
    reveal_strlit("release");
    let f = |p: Seq<char>| runs_pass(kind, cut.ladder, p);
    let d = deep_order();
    reveal(Seq::filter);
    assert(d.take(0).filter(f) =~= Seq::<Seq<char>>::empty());
    assert(d.take(1).drop_last() =~= d.take(0));
    assert(d.take(2).drop_last() =~= d.take(1));
    assert(d.take(3).drop_last() =~= d.take(2));
    assert(d.take(4).drop_last() =~= d.take(3));
    assert(d.take(5).drop_last() =~= d.take(4));
    assert(d.take(1).filter(f) =~= seq!["weather"@]);
    assert(d.take(5) =~= d);
    assert(f("weather"@) && f("release"@));
    assert("rewrite"@ != "weather"@) by {
        assert("rewrite"@[0] != "weather"@[0]);
    }
    assert("rewrite"@ != "release"@) by {
        assert("rewrite"@[2] != "release"@[2]);
    }
    assert("merge"@.len() != "weather"@.len() && "merge"@.len() != "release"@.len());
    assert("ladder"@.len() != "weather"@.len() && "ladder"@.len() != "release"@.len());
    assert("ladder"@.len() != "rewrite"@.len() && "ladder"@.len() != "merge"@.len());
    assert(f("rewrite"@) == (kind is Deep) && f("merge"@) == (kind is Deep));
    assert(f("ladder"@) == (kind is Deep && cut.ladder));
    if kind is Deep {
        assert(d.take(2).filter(f) =~= seq!["weather"@, "rewrite"@]);
        assert(d.take(3).filter(f) =~= seq!["weather"@, "rewrite"@, "merge"@]);
        if cut.ladder {
            assert(d.take(4).filter(f) =~= seq!["weather"@, "rewrite"@, "merge"@, "ladder"@]);
        } else {
            assert(d.take(4).filter(f) =~= seq!["weather"@, "rewrite"@, "merge"@]);
        }
    } else {
        assert(d.take(2).filter(f) =~= seq!["weather"@]);
        assert(d.take(3).filter(f) =~= seq!["weather"@]);
        assert(d.take(4).filter(f) =~= seq!["weather"@]);
    }
    assert(d.filter(f) =~= night_plan(kind, cut));
}

impl<N, W> MemoryStore<N, W> {
    /// Ids of the hours latent right now, in book order.
    pub fn latent_ids(&self) -> (r: Vec<String>)
        ensures
            texts(r@) == self.traces@.filter(|t: MemoryTrace<N>| t.status == TraceStatus::Latent).map_values(
                |t: MemoryTrace<N>| t.id@,
            ),
    {
        let ghost pred = |t: MemoryTrace<N>| t.status == TraceStatus::Latent;
        let ghost idf = |t: MemoryTrace<N>| t.id@;
        let mut r: Vec<String> = Vec::new();
        let n = self.traces.len();
        let mut i: usize = 0;
        while i < n
            invariant
                n == self.traces@.len(),
                i <= n,
                pred == (|t: MemoryTrace<N>| t.status == TraceStatus::Latent),
                idf == (|t: MemoryTrace<N>| t.id@),
                texts(r@) == self.traces@.take(i as int).filter(pred).map_values(idf),
            decreases n - i,
        {
            proof {
                reveal(Seq::filter);
                assert(self.traces@.take(i + 1).drop_last() =~= self.traces@.take(i as int));
                assert(self.traces@.take(i + 1).last() == self.traces@[i as int]);
            }
            if self.traces[i].status == TraceStatus::Latent {
                let ghost f0 = self.traces@.take(i as int).filter(pred);
                let ghost r0 = r@;
                r.push(self.traces[i].id.clone());
                proof {
                    assert(self.traces@.take(i + 1).filter(pred) == f0.push(self.traces@[i as int]));
                    assert(f0.push(self.traces@[i as int]).map_values(idf) =~= f0.map_values(idf).push(
                        self.traces@[i as int].id@,
                    ));
                    assert(texts(r@) =~= texts(r0).push(self.traces@[i as int].id@));
                }
            }
            i = i + 1;
        }
        assert(self.traces@.take(n as int) =~= self.traces@);
        r
    }

    /// Stamp a deep night at `now`: the pending hours have been through it.
    pub fn close_deep_night(&mut self, now: u64)
        requires
            old(self).wf(),
        ensures
            final(self).wf(),
            final(self).last_deep_at == Some(now),
            final(self).pending_night@.len() == 0,
            final(self).traces@ == old(self).traces@,
            final(self).archives@ == old(self).archives@,
            final(self).axioms@ == old(self).axioms@,
            final(self).edges@ == old(self).edges@,
            final(self).merges_refused == old(self).merges_refused,
    {
        self.last_deep_at = Some(now);
        self.pending_night.clear();
    }
}

/// The close of a night: a deep night is stamped at `now` and its waiting
/// hours are through it; a shallow night leaves the book as it is.
pub fn end_night<N, W>(store: &mut MemoryStore<N, W>, kind: NightKind, now: u64)
    requires
        old(store).wf(),
    ensures
        final(store).wf(),
        kind is Shallow ==> *final(store) == *old(store),
        kind is Deep ==> {
            &&& final(store).last_deep_at == Some(now)
            &&& final(store).pending_night@.len() == 0
            &&& final(store).traces@ == old(store).traces@
            &&& final(store).archives@ == old(store).archives@
            &&& final(store).axioms@ == old(store).axioms@
            &&& final(store).edges@ == old(store).edges@
            &&& final(store).merges_refused == old(store).merges_refused
        },
{
    if kind == NightKind::Deep {
        store.close_deep_night(now);
    }
}

/// After a deep night stamped at `now`, no hour lived at or before `now`
/// still waits: the next night has no new hours to count.
pub proof fn deep_night_leaves_nothing_waiting<N, W>(s: MemoryStore<N, W>, now: u64)
    requires
        s.last_deep_at == Some(now),
        s.pending_night@.len() == 0,
        forall|i: int| 0 <= i < s.traces@.len() ==> #[trigger] s.traces@[i].created_at <= now,
    ensures
        s.waiting_hours().len() == 0,
{
    let pred = |t: MemoryTrace<N>| t.channel == Channel::Selfhood && t.created_at > now;
    broadcast use vstd::seq_lib::group_filter_ensures;

    let f = s.traces@.filter(pred);
    if f.len() > 0 {
        assert(pred(f[0]));
        s.traces@.lemma_filter_contains_rev(pred, f[0]);
    }
}

} // verus!
