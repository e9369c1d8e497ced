//! Which ranked hours a recall hands to the mouth, and the probe ablations
//! on the marked hour.

use vstd::prelude::*;

use crate::evidence::first_seen;
use crate::lineage::listed;
use crate::model::{MemoryTrace, OrganCut, TraceStatus};
use crate::store::{texts, MemoryStore};
use crate::text::first_kept;

verus! {

/// Whether this recall may mutate traces, access, or mood-facing write-backs.
#[derive(Clone, Copy, Debug, PartialEq, Eq, Structural)]
pub enum RecallWrite {
    Live,
    ReadOnly,
}

/// Probe-only ablation on the marked hour. Live `remember` stays `Observed`.
#[derive(Clone, Copy, Debug, PartialEq, Eq, Structural)]
pub enum RecallBias {
    Observed,
    /// Put the first usable marked trace at selected rank 1, even if its score is low.
    ForceMarked,
    /// Never select a marked trace.
    DropMarked,
    /// Drop the marked id, same-schema siblings, and (at speak) derived axioms.
    DropLineage,
}

impl Default for RecallBias {
    fn default() -> (b: Self)
        ensures
            b == RecallBias::Observed,
    {
        RecallBias::Observed
    }
}

/// Continue `acc` with items of `rest` not already in it, until `cap` are held.
pub open spec fn fill_up(acc: Seq<Seq<char>>, rest: Seq<Seq<char>>, cap: nat) -> Seq<Seq<char>>
    decreases rest.len(),
{
    if rest.len() == 0 || acc.len() >= cap {
        acc
    } else if acc.contains(rest[0]) {
        fill_up(acc, rest.drop_first(), cap)
    } else {
        fill_up(acc.push(rest[0]), rest.drop_first(), cap)
    }
}

impl<N, W> MemoryStore<N, W> {
    /// A marked hour can be forced into recall: it is in the book and not latent.
    pub open spec fn forceable(self, id: Seq<char>) -> bool {
        exists|i: int|
            0 <= i < self.traces@.len() && #[trigger] self.traces@[i].id@ == id
                && self.traces@[i].status != TraceStatus::Latent
    }

    /// Position of the first marked id that can be forced.
    pub open spec fn first_forceable(self, marked: Seq<Seq<char>>) -> Option<int> {
        if exists|q: int| 0 <= q < marked.len() && self.forceable(#[trigger] marked[q]) {
            Some(
                choose|q: int|
                    0 <= q < marked.len() && self.forceable(#[trigger] marked[q]) && forall|r: int|
                        0 <= r < q ==> !self.forceable(#[trigger] marked[r]),
            )
        } else {
            None
        }
    }

    /// What a recall with this bias selects from the eligible ids, ranked best first.
    pub open spec fn biased_pick(
        self,
        eligible: Seq<Seq<char>>,
        bias: RecallBias,
        marked: Seq<Seq<char>>,
        cap: nat,
    ) -> Seq<Seq<char>> {
        if cap == 0 {
            Seq::empty()
        } else {
            match bias {
                RecallBias::Observed => first_kept(eligible, |x: Seq<char>| true, cap),
                RecallBias::DropMarked => first_kept(eligible, |x: Seq<char>| !marked.contains(x), cap),
                RecallBias::DropLineage => first_kept(
                    eligible,
                    |x: Seq<char>| !self.lineage_set(marked).contains(x),
                    cap,
                ),
                RecallBias::ForceMarked => match self.first_forceable(marked) {
                    Some(q) => fill_up(seq![marked[q]], eligible, cap),
                    None => fill_up(Seq::empty(), eligible, cap),
                },
            }
        }
    }
}

/// Marked ids, same-schema siblings, merge edges, and axiom supports that touch the set.
pub fn lineage_of<N, W>(store: &MemoryStore<N, W>, marked: &[String]) -> (r: Vec<String>)
    requires
        store.wf(),
    ensures
        texts(r@).no_duplicates(),
        texts(r@).to_set() == store.lineage_set(texts(marked@)),
        first_seen(texts(marked@)).is_prefix_of(texts(r@)),
{
    store.lineage(marked)
}

/// An axiom derives from the lineage: it lists a lineage hour, or shares a lineage schema.
pub fn axiom_supported_by_lineage(
    support: &[String],
    schema: Option<&str>,
    lineage: &[String],
    lineage_schemas: &[String],
) -> (r: bool)
    ensures
        r == ((exists|i: int| 0 <= i < support@.len() && texts(lineage@).contains(#[trigger] support@[i]@))
            || (schema matches Some(s) && texts(lineage_schemas@).contains(s@))),
{
    let mut i: usize = 0;
    while i < support.len()
        invariant
            i <= support@.len(),
            forall|j: int| 0 <= j < i ==> !texts(lineage@).contains(#[trigger] support@[j]@),
        decreases support@.len() - i,
    {
        if listed(lineage, support[i].as_str()) {
            return true;
        }
        i = i + 1;
    }
    match schema {
        Some(s) => listed(lineage_schemas, s),
        None => false,
    }
}

/// A marked hour can be forced into recall: it is in the book and not latent.
pub fn can_force<N, W>(store: &MemoryStore<N, W>, id: &str) -> (r: bool)
    requires
        store.wf(),
    ensures
        r == store.forceable(id@),
{
    match store.find_trace(id) {
        Some(i) => {
            let r = store.traces[i].status != TraceStatus::Latent;
            proof {
                if store.forceable(id@) {
                    let j = choose|j: int|
                        0 <= j < store.traces@.len() && #[trigger] store.traces@[j].id@ == id@
                            && store.traces@[j].status != TraceStatus::Latent;
                    if j < i {
                        assert(store.traces@[j].id@ != store.traces@[i as int].id@);
                    } else if j > i {
                        assert(store.traces@[i as int].id@ != store.traces@[j].id@);
                    }
                }
            }
            r
        },
        None => false,
    }
}

/// The first `cap` eligible ids that are not in `banned`.
fn take_unbanned(eligible: &[String], banned: &[String], cap: usize) -> (r: Vec<String>)
    ensures
        texts(r@) == first_kept(
            texts(eligible@),
            |x: Seq<char>| !texts(banned@).contains(x),
            cap as nat,
        ),
{
    let ghost keep = |x: Seq<char>| !texts(banned@).contains(x);
    let mut out: Vec<String> = Vec::new();
    let mut i: usize = 0;
    assert(texts(eligible@).skip(0) =~= texts(eligible@));
    assert(texts(out@) + first_kept(texts(eligible@), keep, cap as nat) =~= first_kept(
        texts(eligible@),
        keep,
        cap as nat,
    ));
    while i < eligible.len() && out.len() < cap
        invariant
            i <= eligible@.len(),
            out@.len() <= cap,
            keep == (|x: Seq<char>| !texts(banned@).contains(x)),
            texts(out@) + first_kept(
                texts(eligible@).skip(i as int),
                keep,
                (cap - out@.len()) as nat,
            ) == first_kept(texts(eligible@), keep, cap as nat),
        decreases eligible@.len() - i,
    {
        let ghost rest = texts(eligible@).skip(i as int);
        let ghost before = out@;
        assert(rest.drop_first() =~= texts(eligible@).skip(i + 1));
        assert(rest[0] == eligible@[i as int]@);
        if !listed(banned, eligible[i].as_str()) {
            out.push(eligible[i].clone());
            assert(texts(out@) =~= texts(before) + seq![rest[0]]);
            assert(texts(out@) + first_kept(
                texts(eligible@).skip(i + 1),
                keep,
                (cap - out@.len()) as nat,
            ) =~= texts(before) + first_kept(rest, keep, (cap - before.len()) as nat));
        }
        i = i + 1;
    }
    proof {
        let rest = texts(eligible@).skip(i as int);
        if i == eligible.len() {
            assert(rest.len() == 0);
        }
        assert(first_kept(rest, keep, (cap - out@.len()) as nat) =~= Seq::<Seq<char>>::empty());
        assert(texts(out@) + Seq::<Seq<char>>::empty() =~= texts(out@));
    }
    out
}

/// Continue `out` with eligible ids not already in it, until `cap` are held.
fn fill_from(out: &mut Vec<String>, eligible: &[String], cap: usize)
    ensures
        texts(final(out)@) == fill_up(texts(old(out)@), texts(eligible@), cap as nat),
{
    let mut i: usize = 0;
    assert(texts(eligible@).skip(0) =~= texts(eligible@));
    while i < eligible.len()
        invariant
            i <= eligible@.len(),
            fill_up(texts(out@), texts(eligible@).skip(i as int), cap as nat) == fill_up(
                texts(old(out)@),
                texts(eligible@),
                cap as nat,
            ),
        decreases eligible@.len() - i,
    {
        let ghost rest = texts(eligible@).skip(i as int);
        let ghost before = out@;
        assert(rest.drop_first() =~= texts(eligible@).skip(i + 1));
        assert(rest[0] == eligible@[i as int]@);
        if out.len() >= cap {
            assert(fill_up(texts(out@), rest, cap as nat) == texts(out@));
            proof {
                lemma_fill_up_full(texts(out@), texts(eligible@).skip(i + 1), cap as nat);
            }
            return;
        }
        if !listed(out.as_slice(), eligible[i].as_str()) {
            out.push(eligible[i].clone());
            assert(texts(out@) =~= texts(before).push(rest[0]));
        }
        i = i + 1;
    }
    assert(texts(eligible@).skip(i as int).len() == 0);
}

proof fn lemma_fill_up_full(acc: Seq<Seq<char>>, rest: Seq<Seq<char>>, cap: nat)
    requires
        acc.len() >= cap,
    ensures
        fill_up(acc, rest, cap) == acc,
{
}

/// Pick what a recall selects from the eligible ids (best first) under a bias.
pub fn apply_bias<N, W>(
    eligible: &[String],
    store: &MemoryStore<N, W>,
    bias: RecallBias,
    marked: &[String],
    cap: usize,
) -> (r: Vec<String>)
    requires
        store.wf(),
    ensures
        texts(r@) == store.biased_pick(texts(eligible@), bias, texts(marked@), cap as nat),
{
    if cap == 0 {
        let none: Vec<String> = Vec::new();
        assert(texts(none@) =~= Seq::<Seq<char>>::empty());
        return none;
    }
    match bias {
        RecallBias::Observed => {
            let none: Vec<String> = Vec::new();
            let r = take_unbanned(eligible, none.as_slice(), cap);
            proof {
                let k1 = |x: Seq<char>| !texts(none@).contains(x);
                let k2 = |x: Seq<char>| true;
                assert(k1 =~= k2);
            }
            r
        },
        RecallBias::DropMarked => take_unbanned(eligible, marked, cap),
        RecallBias::DropLineage => {
            let banned = lineage_of(store, marked);
            let r = take_unbanned(eligible, banned.as_slice(), cap);
            proof {
                let k1 = |x: Seq<char>| !texts(banned@).contains(x);
                let k2 = |x: Seq<char>| !store.lineage_set(texts(marked@)).contains(x);
                assert forall|x: Seq<char>| #[trigger] k1(x) == k2(x) by {
                    assert(texts(banned@).to_set().contains(x) == texts(banned@).contains(x));
                }
                assert(k1 =~= k2);
            }
            r
        },
        RecallBias::ForceMarked => {
            let mut out: Vec<String> = Vec::new();
            let mut q: usize = 0;
            while q < marked.len()
                invariant
                    store.wf(),
                    bias == RecallBias::ForceMarked,
                    cap > 0,
                    q <= marked@.len(),
                    out@.len() == 0,
                    forall|r: int| 0 <= r < q ==> !store.forceable(#[trigger] texts(marked@)[r]),
                decreases marked@.len() - q,
            {
                if can_force(store, marked[q].as_str()) {
                    out.push(marked[q].clone());
                    let ghost m = texts(marked@);
                    proof {
                        assert(m[q as int] == marked@[q as int]@);
                        assert(store.forceable(m[q as int]));
                        assert(forall|r: int| 0 <= r < q ==> !store.forceable(#[trigger] m[r]));
                        assert(exists|q2: int|
                            0 <= q2 < m.len() && store.forceable(#[trigger] m[q2]) && forall|r: int|
                                0 <= r < q2 ==> !store.forceable(#[trigger] m[r]));
                        let c = store.first_forceable(m)->0;
                        assert(c == q) by {
                            if c < q {
                                assert(!store.forceable(m[c]));
                            }
                            if c > q {
                                assert(!store.forceable(m[q as int]));
                            }
                        }
                        assert(texts(out@) =~= seq![m[q as int]]);
                    }
                    fill_from(&mut out, eligible, cap);
                    assert(store.first_forceable(m) == Some(q as int));
                    assert(texts(out@) == fill_up(seq![m[q as int]], texts(eligible@), cap as nat));
                    return out;
                }
                q = q + 1;
            }
            proof {
                let m = texts(marked@);
                assert(!(exists|q: int| 0 <= q < m.len() && store.forceable(#[trigger] m[q])));
                assert(texts(out@) =~= Seq::<Seq<char>>::empty());
            }
            fill_from(&mut out, eligible, cap);
            out
        },
    }
}

/// Everything `first_kept` keeps was accepted by `keep` and came from `s`.
pub proof fn lemma_first_kept_members(s: Seq<Seq<char>>, keep: spec_fn(Seq<char>) -> bool, cap: nat, x: Seq<char>)
    requires
        first_kept(s, keep, cap).contains(x),
    ensures
        keep(x),
        s.contains(x),
    decreases s.len(),
{
    if s.len() == 0 || cap == 0 {
    } else {
        let rest = s.drop_first();
        if keep(s[0]) {
            let tail = first_kept(rest, keep, (cap - 1) as nat);
            assert(first_kept(s, keep, cap) == seq![s[0]] + tail);
            if x != s[0] {
                let i = choose|i: int| 0 <= i < first_kept(s, keep, cap).len() && first_kept(s, keep, cap)[i] == x;
                assert(tail[i - 1] == x);
                lemma_first_kept_members(rest, keep, (cap - 1) as nat, x);
                let j = choose|j: int| 0 <= j < rest.len() && rest[j] == x;
                assert(s[j + 1] == x);
            } else {
                assert(s[0] == x);
            }
        } else {
            lemma_first_kept_members(rest, keep, cap, x);
            let j = choose|j: int| 0 <= j < rest.len() && rest[j] == x;
            assert(s[j + 1] == x);
        }
    }
}

/// `fill_up` never moves what is already held.
pub proof fn lemma_fill_up_keeps_prefix(acc: Seq<Seq<char>>, rest: Seq<Seq<char>>, cap: nat)
    ensures
        fill_up(acc, rest, cap).len() >= acc.len(),
        fill_up(acc, rest, cap).take(acc.len() as int) == acc,
    decreases rest.len(),
{
    if rest.len() == 0 || acc.len() >= cap {
        assert(acc.take(acc.len() as int) =~= acc);
    } else if acc.contains(rest[0]) {
        lemma_fill_up_keeps_prefix(acc, rest.drop_first(), cap);
    } else {
        lemma_fill_up_keeps_prefix(acc.push(rest[0]), rest.drop_first(), cap);
        let f = fill_up(acc.push(rest[0]), rest.drop_first(), cap);
        assert(f.take(acc.len() as int) =~= f.take(acc.len() as int + 1).take(acc.len() as int));
        assert(acc.push(rest[0]).take(acc.len() as int) =~= acc);
    }
}

/// A probe that drops the marked hours never hands one of them to the
/// speaker, whatever the ranking.
pub proof fn drop_marked_never_selects_marked<N, W>(
    store: MemoryStore<N, W>,
    eligible: Seq<Seq<char>>,
    marked: Seq<Seq<char>>,
    cap: nat,
    x: Seq<char>,
)
    requires
        store.biased_pick(eligible, RecallBias::DropMarked, marked, cap).contains(x),
    ensures
        !marked.contains(x),
        eligible.contains(x),
{
    if cap > 0 {
        lemma_first_kept_members(eligible, |y: Seq<char>| !marked.contains(y), cap, x);
    }
}

/// A probe that forces the marked hour puts the first forceable marked id
/// at rank one whenever it selects anything.
pub proof fn force_marked_leads<N, W>(
    store: MemoryStore<N, W>,
    eligible: Seq<Seq<char>>,
    marked: Seq<Seq<char>>,
    cap: nat,
)
    requires
        cap > 0,
        store.first_forceable(marked) is Some,
    ensures
        store.biased_pick(eligible, RecallBias::ForceMarked, marked, cap).len() >= 1,
        store.biased_pick(eligible, RecallBias::ForceMarked, marked, cap)[0]
            == marked[store.first_forceable(marked)->0],
{
    let q = store.first_forceable(marked)->0;
    lemma_fill_up_keeps_prefix(seq![marked[q]], eligible, cap);
    let f = fill_up(seq![marked[q]], eligible, cap);
    assert(f.take(1)[0] == f[0]);
}

/// How a selected hour is spoken.
#[derive(Clone, Copy, Debug, PartialEq, Eq, Structural)]
pub enum SpeakPath {
    /// Reconstruction is cut: the stored gist is read out as it is.
    StoredGist,
    /// A read-only probe: the narrator's account, nothing written back.
    Unwritten,
    /// Grounding is cut: the account is spoken, and written back into the
    /// hour when reconsolidation is on.
    Ungrounded { reconsolidate: bool },
    /// The full path: grounding judges the account against the core; when
    /// it did not pull the hour back, reconsolidation (if on) writes it.
    Grounded { reconsolidate: bool },
}

/// The path a selected hour is spoken along, under a cut and a write mode.
pub open spec fn path_of(cut: OrganCut, write: RecallWrite) -> SpeakPath {
    if !cut.reconstruct {
        SpeakPath::StoredGist
    } else if write == RecallWrite::ReadOnly {
        SpeakPath::Unwritten
    } else if !cut.ground {
        SpeakPath::Ungrounded { reconsolidate: cut.reconsolidate }
    } else {
        SpeakPath::Grounded { reconsolidate: cut.reconsolidate }
    }
}

/// A read-only probe never grounds or reconsolidates the hour it speaks:
/// whatever the cut, it reads the stored gist or the narrator's account.
pub proof fn probes_never_write(cut: OrganCut)
    ensures
        path_of(cut, RecallWrite::ReadOnly) is StoredGist || path_of(cut, RecallWrite::ReadOnly) is Unwritten,
{
}

pub fn speak_path(cut: OrganCut, write: RecallWrite) -> (p: SpeakPath)
    ensures
        p == path_of(cut, write),
{
    if !cut.reconstruct {
        SpeakPath::StoredGist
    } else {
        match write {
            RecallWrite::ReadOnly => SpeakPath::Unwritten,
            RecallWrite::Live => if !cut.ground {
                SpeakPath::Ungrounded { reconsolidate: cut.reconsolidate }
            } else {
                SpeakPath::Grounded { reconsolidate: cut.reconsolidate }
            },
        }
    }
}


/// Everything `fill_up` holds was held already or came from `rest`.
pub proof fn lemma_fill_up_members(acc: Seq<Seq<char>>, rest: Seq<Seq<char>>, cap: nat, x: Seq<char>)
    requires
        fill_up(acc, rest, cap).contains(x),
    ensures
        acc.contains(x) || rest.contains(x),
    decreases rest.len(),
{
    if rest.len() == 0 || acc.len() >= cap {
    } else {
        let tail = rest.drop_first();
        if acc.contains(rest[0]) {
            lemma_fill_up_members(acc, tail, cap, x);
        } else {
            lemma_fill_up_members(acc.push(rest[0]), tail, cap, x);
            if acc.push(rest[0]).contains(x) {
                let i = choose|i: int| 0 <= i < acc.push(rest[0]).len() && acc.push(rest[0])[i] == x;
                if i < acc.len() {
                    assert(acc[i] == x);
                } else {
                    assert(rest[0] == x);
                }
            }
        }
        if tail.contains(x) {
            let j = choose|j: int| 0 <= j < tail.len() && tail[j] == x;
            assert(rest[j + 1] == x);
        }
    }
}

impl<N, W> MemoryStore<N, W> {
    /// Every id a biased pick selects is in the book when every eligible id is.
    pub proof fn lemma_pick_in_book(
        self,
        eligible: Seq<Seq<char>>,
        bias: RecallBias,
        marked: Seq<Seq<char>>,
        cap: nat,
        x: Seq<char>,
    )
        requires
            forall|j: int| 0 <= j < eligible.len() ==> self.has_trace(#[trigger] eligible[j]),
            self.biased_pick(eligible, bias, marked, cap).contains(x),
        ensures
            self.has_trace(x),
    {
        if cap > 0 {
            match bias {
                RecallBias::Observed => {
                    lemma_first_kept_members(eligible, |y: Seq<char>| true, cap, x);
                },
                RecallBias::DropMarked => {
                    lemma_first_kept_members(eligible, |y: Seq<char>| !marked.contains(y), cap, x);
                },
                RecallBias::DropLineage => {
                    lemma_first_kept_members(
                        eligible,
                        |y: Seq<char>| !self.lineage_set(marked).contains(y),
                        cap,
                        x,
                    );
                },
                RecallBias::ForceMarked => {
                    match self.first_forceable(marked) {
                        Some(q) => {
                            lemma_fill_up_members(seq![marked[q]], eligible, cap, x);
                            if seq![marked[q]].contains(x) {
                                assert(seq![marked[q]][0] == x);
                                let q0 = choose|q0: int| 0 <= q0 < marked.len() && self.forceable(#[trigger] marked[q0]);
                                self.lemma_min_forceable(marked, q0);
                                assert(self.forceable(marked[q]));
                            }
                        },
                        None => {
                            lemma_fill_up_members(Seq::empty(), eligible, cap, x);
                        },
                    }
                },
            }
            if eligible.contains(x) {
                let j = choose|j: int| 0 <= j < eligible.len() && eligible[j] == x;
                assert(self.has_trace(eligible[j]));
            }
        }
    }

    /// Where some marked id can be forced, a first one can.
    pub proof fn lemma_min_forceable(self, marked: Seq<Seq<char>>, q0: int)
        requires
            0 <= q0 < marked.len(),
            self.forceable(marked[q0]),
        ensures
            exists|q: int|
                0 <= q < marked.len() && self.forceable(#[trigger] marked[q]) && forall|r: int|
                    0 <= r < q ==> !self.forceable(#[trigger] marked[r]),
        decreases q0,
    {
        if exists|r: int| 0 <= r < q0 && self.forceable(#[trigger] marked[r]) {
            let r = choose|r: int| 0 <= r < q0 && self.forceable(#[trigger] marked[r]);
            self.lemma_min_forceable(marked, r);
        } else {
            assert(forall|r: int| 0 <= r < q0 ==> !self.forceable(#[trigger] marked[r]));
        }
    }

    /// The path a selected hour is spoken along: a verbatim record always
    /// reads its stored gist.
    pub open spec fn hour_path(self, id: Seq<char>, cut: OrganCut, write: RecallWrite) -> SpeakPath {
        if self.the_trace(id).channel.is_verbatim() {
            SpeakPath::StoredGist
        } else {
            path_of(cut, write)
        }
    }
}

/// The hour with its recall clock set to `now`.
pub open spec fn stamped<N>(t: MemoryTrace<N>, now: u64) -> MemoryTrace<N> {
    MemoryTrace { last_recalled_at: Some(now), ..t }
}

/// A recall, past its scoring: select from the eligible ids (best first)
/// under the bias, give each selected hour the path it is spoken along, and,
/// in a live recall, set the recall clock of each selected hour to `now`.
/// A read-only probe leaves the book as it is; a live recall changes nothing
/// else (rehearsal is stamped by speech, not by recall).
pub fn recall_select<N, W>(
    store: &mut MemoryStore<N, W>,
    eligible: &[String],
    cut: OrganCut,
    write: RecallWrite,
    bias: RecallBias,
    marked: &[String],
    cap: usize,
    now: u64,
) -> (r: Vec<(String, SpeakPath)>)
    requires
        old(store).wf(),
        forall|j: int| 0 <= j < eligible@.len() ==> old(store).has_trace(#[trigger] eligible@[j]@),
    ensures
        final(store).wf(),
        r@.len() == old(store).biased_pick(texts(eligible@), bias, texts(marked@), cap as nat).len(),
        forall|k: int|
            0 <= k < r@.len() ==> {
                let id = old(store).biased_pick(texts(eligible@), bias, texts(marked@), cap as nat)[k];
                &&& (#[trigger] r@[k]).0@ == id
                &&& r@[k].1 == old(store).hour_path(id, cut, write)
            },
        final(store).traces@.len() == old(store).traces@.len(),
        forall|i: int|
            0 <= i < old(store).traces@.len() ==> #[trigger] final(store).traces@[i].rehearsals
                == old(store).traces@[i].rehearsals,
        write == RecallWrite::ReadOnly ==> *final(store) == *old(store),
        write == RecallWrite::Live ==> {
            &&& final(store).traces@.len() == old(store).traces@.len()
            &&& forall|i: int|
                0 <= i < old(store).traces@.len() ==> #[trigger] final(store).traces@[i] == if old(
                    store,
                ).biased_pick(texts(eligible@), bias, texts(marked@), cap as nat).contains(
                    old(store).traces@[i].id@,
                ) {
                    stamped(old(store).traces@[i], now)
                } else {
                    old(store).traces@[i]
                }
            &&& final(store).archives@ == old(store).archives@
            &&& final(store).axioms@ == old(store).axioms@
            &&& final(store).edges@ == old(store).edges@
            &&& final(store).pending_night@ == old(store).pending_night@
            &&& final(store).last_deep_at == old(store).last_deep_at
            &&& final(store).merges_refused == old(store).merges_refused
        },
{
    let ghost s0 = *store;
    let picked = apply_bias(eligible, store, bias, marked, cap);
    let ghost ps = texts(picked@);
    let live = write == RecallWrite::Live;
    let mut out: Vec<(String, SpeakPath)> = Vec::new();
    let n = picked.len();
    let mut k: usize = 0;
    while k < n
        invariant
            n == picked@.len(),
            ps == texts(picked@),
            ps == s0.biased_pick(texts(eligible@), bias, texts(marked@), cap as nat),
            forall|j: int| 0 <= j < eligible@.len() ==> s0.has_trace(#[trigger] eligible@[j]@),
            s0.wf(),
            live == (write == RecallWrite::Live),
            k <= n,
            out@.len() == k,
            forall|j: int|
                0 <= j < k ==> (#[trigger] out@[j]).0@ == ps[j] && out@[j].1 == s0.hour_path(ps[j], cut, write),
            store.wf(),
            store.traces@.len() == s0.traces@.len(),
            forall|i: int|
                0 <= i < s0.traces@.len() ==> #[trigger] store.traces@[i] == if live && ps.take(k as int).contains(
                    s0.traces@[i].id@,
                ) {
                    stamped(s0.traces@[i], now)
                } else {
                    s0.traces@[i]
                },
            store.archives@ == s0.archives@,
            store.axioms@ == s0.axioms@,
            store.edges@ == s0.edges@,
            store.pending_night@ == s0.pending_night@,
            store.last_deep_at == s0.last_deep_at,
            store.merges_refused == s0.merges_refused,
            !live ==> *store == s0,
        decreases n - k,
    {
        let ghost x = ps[k as int];
        proof {
            assert(ps.contains(x)) by {
                assert(ps[k as int] == x);
            }
            s0.lemma_pick_in_book(texts(eligible@), bias, texts(marked@), cap as nat, x);
            assert(picked@[k as int]@ == x);
        }
        let i = match store.find_trace(picked[k].as_str()) {
            Some(i) => i,
            None => {
                proof {
                    let w = choose|w: int| 0 <= w < s0.traces@.len() && #[trigger] s0.traces@[w].id@ == x;
                    assert(store.traces@[w].id@ == s0.traces@[w].id@);
                }
                return out;
            },
        };
        proof {
            assert(store.traces@[i as int].id@ == s0.traces@[i as int].id@);
            s0.lemma_the_trace(i as int);
        }
        let path = if store.traces[i].channel.verbatim() {
            SpeakPath::StoredGist
        } else {
            speak_path(cut, write)
        };
        if live {
            let ghost before = store.traces@;
            store.traces[i].last_recalled_at = Some(now);
            proof {
                assert forall|a: int, b: int|
                    0 <= a < b < store.traces@.len() implies #[trigger] store.traces@[a].id@
                    != #[trigger] store.traces@[b].id@ by {
                    assert(store.traces@[a].id@ == before[a].id@);
                    assert(store.traces@[b].id@ == before[b].id@);
                }
            }
        }
        out.push((picked[k].clone(), path));
        proof {
            assert(ps.take(k + 1) =~= ps.take(k as int).push(x));
            assert forall|y: Seq<char>| #[trigger] ps.take(k + 1).contains(y) <==> (ps.take(k as int).contains(y) || y == x) by {
                if ps.take(k as int).contains(y) {
                    let w = choose|w: int| 0 <= w < k && #[trigger] ps.take(k as int)[w] == y;
                    assert(ps.take(k + 1)[w] == y);
                }
                if y == x {
                    assert(ps.take(k + 1)[k as int] == y);
                }
                if ps.take(k + 1).contains(y) {
                    let w = choose|w: int| 0 <= w < k + 1 && #[trigger] ps.take(k + 1)[w] == y;
                    if w < k {
                        assert(ps.take(k as int)[w] == y);
                    }
                }
            }
            assert forall|q: int| 0 <= q < s0.traces@.len() && s0.traces@[q].id@ == x implies q == i by {
                if q < i {
                    assert(s0.traces@[q].id@ != s0.traces@[i as int].id@);
                } else if q > i {
                    assert(s0.traces@[i as int].id@ != s0.traces@[q].id@);
                }
            }
        }
        k = k + 1;
    }
    proof {
        assert(ps.take(n as int) =~= ps);
    }
    out
}


/// The path of a selected hour follows the cut: a cut reconstruction reads
/// the stored gist; a read-only probe tells the account and writes nothing;
/// a live recall grounds exactly when grounding is on. Whenever a path
/// carries a write-back flag, the flag is the cut's reconsolidation: with
/// reconsolidation cut, no recall path writes the account back. A verbatim
/// hour always reads its stored gist.
pub proof fn recall_paths_follow_the_cut<N, W>(
    store: MemoryStore<N, W>,
    id: Seq<char>,
    cut: OrganCut,
    write: RecallWrite,
)
    ensures
        !cut.reconstruct ==> path_of(cut, write) is StoredGist,
        cut.reconstruct && write == RecallWrite::ReadOnly ==> path_of(cut, write) is Unwritten,
        cut.reconstruct && write == RecallWrite::Live ==> (path_of(cut, write) is Grounded) == cut.ground
            && (path_of(cut, write) is Ungrounded) == !cut.ground,
        path_of(cut, write) matches SpeakPath::Grounded { reconsolidate } ==> reconsolidate
            == cut.reconsolidate,
        path_of(cut, write) matches SpeakPath::Ungrounded { reconsolidate } ==> reconsolidate
            == cut.reconsolidate,
        store.hour_path(id, cut, write) matches SpeakPath::Grounded { reconsolidate } ==> reconsolidate
            == cut.reconsolidate,
        store.hour_path(id, cut, write) matches SpeakPath::Ungrounded { reconsolidate } ==> reconsolidate
            == cut.reconsolidate,
        store.the_trace(id).channel.is_verbatim() ==> store.hour_path(id, cut, write) is StoredGist,
{
}

} // verus!
