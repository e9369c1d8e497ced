//! Third night pass: fuse close Selfhood episodes that share a schema.
//!
//! Which pair is close enough, and which hour keeps, is decided on the affect
//! numbers. Here is what a fusion does to the book once decided: the keeper's
//! gist and core absorb the other hour, the other hour becomes a myth on a
//! merge edge, and every axiom that listed it now lists the keeper too.

use vstd::prelude::*;

use crate::lineage::{contains_text, listed};
use crate::text::same_text;
use crate::evidence::first_seen;
use crate::model::{Channel, IdentityAxiom, MemoryTrace, TraceStatus};
use crate::order::{sort_texts, sorted_texts};
use crate::store::{texts, MemoryStore};
use crate::text::{
    append_chars, before_first, chars_of, class_fn, clone_chars, contains, contains_seq, first_chars,
    first_kept, has_infix, head_before, join_chars, joined, lowercase, lowered, merged_texts, same_chars,
    split_words, string_of, take_chars, trim, trim_class, trim_end_by, trim_start_by, trimmed, views,
    words, CharClass,
};

verus! {

/// The gist of a fused episode: the two leading clauses (before " / "),
/// joined by " / ", or one clause marked as become a myth when both agree.
pub open spec fn fused_gist(a: Seq<char>, b: Seq<char>) -> Seq<char> {
    let left = trimmed(before_first(a, " / "@));
    let right = trimmed(before_first(b, " / "@));
    if left == right {
        left + ", devenu un mythe."@
    } else {
        left + " / "@ + right
    }
}

pub fn fuse_gist(a: &str, b: &str) -> (r: String)
    ensures
        r@ == fused_gist(a@, b@),
{
    let av = chars_of(a);
    let bv = chars_of(b);
    let left = trim(&head_before(&av, " / "));
    let right = trim(&head_before(&bv, " / "));
    let mut out = clone_chars(&left);
    let same = same_chars(&left, &right);
    if same {
        append_chars(&mut out, &chars_of(", devenu un mythe."));
    } else {
        append_chars(&mut out, &chars_of(" / "));
        append_chars(&mut out, &right);
    }
    string_of(out.as_slice())
}

/// A word of the absorbed core that the keeper does not already say: its
/// alphanumeric body is longer than two chars and, lowercased, does not occur
/// in the lowercased keeper.
pub open spec fn new_word(keeper: Seq<char>, w: Seq<char>) -> bool {
    let body = trim_end_by(trim_start_by(w, class_fn(CharClass::NotAlnum)), class_fn(CharClass::NotAlnum));
    body.len() > 2 && !has_infix(lowered(keeper), lowered(body))
}

/// The core of a fused episode. The keeper stays the semantic reference;
/// up to four distinctive words of the absorbed core follow it (180 chars at most).
pub open spec fn fused_core(keeper: Seq<char>, absorbed: Seq<char>) -> Seq<char> {
    let k = trimmed(keeper);
    let a = trimmed(absorbed);
    if a.len() == 0 || has_infix(k, a) {
        k
    } else if k.len() == 0 || has_infix(a, k) {
        a
    } else {
        let extra = first_kept(words(a), |w: Seq<char>| new_word(k, w), 4);
        if extra.len() == 0 {
            k
        } else {
            first_chars(k + " "@ + joined(extra, " "@), 180)
        }
    }
}

/// Whether a word of the absorbed core is new to the keeper.
fn is_new_word(keeper: &str, w: &Vec<char>) -> (r: bool)
    ensures
        r == new_word(keeper@, w@),
{
    let body = trim_class(w, CharClass::NotAlnum);
    if body.len() <= 2 {
        return false;
    }
    let low_keeper = lowercase(keeper);
    let body_text = string_of(body.as_slice());
    let low_body = lowercase(body_text.as_str());
    !contains(low_keeper.as_str(), low_body.as_str())
}

pub fn fuse_core(keeper: &str, absorbed: &str) -> (r: String)
    ensures
        r@ == fused_core(keeper@, absorbed@),
{
    let k = trim(&chars_of(keeper));
    let a = trim(&chars_of(absorbed));
    if a.len() == 0 || contains_seq(&k, &a) {
        return string_of(k.as_slice());
    }
    if k.len() == 0 || contains_seq(&a, &k) {
        return string_of(a.as_slice());
    }
    let k_text = string_of(k.as_slice());
    let ws = split_words(&a);
    let ghost keep = |w: Seq<char>| new_word(k@, w);
    let mut extra: Vec<Vec<char>> = Vec::new();
    let mut i: usize = 0;
    assert(views(ws@).skip(0) =~= views(ws@));
    assert(views(extra@) + first_kept(views(ws@), keep, 4) =~= first_kept(views(ws@), keep, 4));
    while i < ws.len() && extra.len() < 4
        invariant
            i <= ws@.len(),
            extra@.len() <= 4,
            k_text@ == k@,
            keep == (|w: Seq<char>| new_word(k@, w)),
            views(extra@) + first_kept(views(ws@).skip(i as int), keep, (4 - extra@.len()) as nat)
                == first_kept(views(ws@), keep, 4),
        decreases ws@.len() - i,
    {
        let ghost rest = views(ws@).skip(i as int);
        let ghost before = extra@;
        assert(rest.drop_first() =~= views(ws@).skip(i + 1));
        assert(rest[0] == ws@[i as int]@);
        if is_new_word(k_text.as_str(), &ws[i]) {
            extra.push(clone_chars(&ws[i]));
            assert(views(extra@) =~= views(before) + seq![rest[0]]);
            assert(views(extra@) + first_kept(
                views(ws@).skip(i + 1),
                keep,
                (4 - extra@.len()) as nat,
            ) =~= views(before) + first_kept(rest, keep, (4 - before.len()) as nat));
        }
        i = i + 1;
    }
    proof {
        let rest = views(ws@).skip(i as int);
        if i == ws.len() {
            assert(rest.len() == 0);
        }
        assert(first_kept(rest, keep, (4 - extra@.len()) as nat) =~= Seq::<Seq<char>>::empty());
        assert(views(extra@) =~= first_kept(views(ws@), keep, 4));
    }
    if extra.len() == 0 {
        return k_text;
    }
    let mut out = clone_chars(&k);
    append_chars(&mut out, &chars_of(" "));
    let tail = join_chars(&extra, &chars_of(" "));
    append_chars(&mut out, &tail);
    let clipped = take_chars(&out, 180);
    string_of(clipped.as_slice())
}

/// Add each id of `add` that `v` does not hold yet, in order.
pub fn union_into(v: &mut Vec<String>, add: &[String])
    ensures
        texts(final(v)@) == merged_texts(texts(old(v)@), texts(add@)),
{
    let n = add.len();
    let mut i: usize = 0;
    assert(texts(add@).skip(0) =~= texts(add@));
    while i < n
        invariant
            n == add@.len(),
            i <= n,
            merged_texts(texts(v@), texts(add@).skip(i as int)) == merged_texts(
                texts(old(v)@),
                texts(add@),
            ),
        decreases n - i,
    {
        let ghost rest = texts(add@).skip(i as int);
        let ghost v0 = v@;
        assert(rest.drop_first() =~= texts(add@).skip(i + 1));
        assert(rest[0] == add@[i as int]@);
        if !listed(v.as_slice(), add[i].as_str()) {
            v.push(add[i].clone());
            assert(texts(v@) =~= texts(v0).push(rest[0]));
        }
        i = i + 1;
    }
    assert(texts(add@).skip(n as int) =~= Seq::<Seq<char>>::empty());
}

impl<N, W> MemoryStore<N, W> {
    /// Fold the hour `other` into the hour `keep`: the keeper's gist and core
    /// absorb it and gain its cues, `other` becomes a myth, the two are
    /// linked, and every axiom that listed `other` also lists `keep`.
    pub fn absorb(&mut self, keep: &str, other: &str)
        requires
            old(self).wf(),
            keep@ != other@,
            old(self).has_trace(keep@),
            old(self).has_trace(other@),
        ensures
            final(self).wf(),
            final(self).traces@.len() == old(self).traces@.len(),
            forall|i: int| 0 <= i < old(self).traces@.len() ==> {
                let t = old(self).traces@[i];
                let u = #[trigger] final(self).traces@[i];
                &&& u.id == t.id
                &&& u.affect == t.affect
                &&& u.channel == t.channel
                &&& u.schema == t.schema
                &&& u.archive_id == t.archive_id
                &&& u.created_at == t.created_at
                &&& u.last_recalled_at == t.last_recalled_at
                &&& u.last_consolidated_at == t.last_consolidated_at
                &&& u.rehearsals == t.rehearsals
                &&& u.detach_strikes == t.detach_strikes
                &&& if t.id@ == keep@ {
                    &&& u.gist@ == fused_gist(t.gist@, old(self).the_trace(other@).gist@)
                    &&& u.core@ == fused_core(t.core@, old(self).the_trace(other@).core@)
                    &&& texts(u.cues@) == merged_texts(texts(t.cues@), texts(old(self).the_trace(other@).cues@))
                    &&& u.status == t.status
                } else if t.id@ == other@ {
                    &&& u.status == TraceStatus::Myth
                    &&& u.gist == t.gist
                    &&& u.core == t.core
                    &&& u.cues == t.cues
                } else {
                    u == t
                }
            },
            forall|x: Seq<char>, y: Seq<char>|
                final(self).linked(x, y) <==> (old(self).linked(x, y) || (x == keep@ && y == other@)
                    || (x == other@ && y == keep@)),
            final(self).axioms@.len() == old(self).axioms@.len(),
            forall|j: int| 0 <= j < old(self).axioms@.len() ==> {
                let a = old(self).axioms@[j];
                let b = #[trigger] final(self).axioms@[j];
                &&& b.id == a.id
                &&& b.statement == a.statement
                &&& b.weight == a.weight
                &&& b.layer == a.layer
                &&& b.schema == a.schema
                &&& b.superseded_by == a.superseded_by
                &&& b.created_at == a.created_at
                &&& if a.supports(other@) && !a.supports(keep@) {
                    texts(b.support_trace_ids@) == texts(a.support_trace_ids@).push(keep@)
                } else {
                    b.support_trace_ids == a.support_trace_ids
                }
            },
            final(self).archives@ == old(self).archives@,
            final(self).pending_night@ == old(self).pending_night@,
            final(self).last_deep_at == old(self).last_deep_at,
            final(self).merges_refused == old(self).merges_refused,
    {
        let ki = self.find_trace(keep).unwrap();
        let oi = self.find_trace(other).unwrap();
        proof {
            self.lemma_the_trace(oi as int);
        }
        let gist = fuse_gist(self.traces[ki].gist.as_str(), self.traces[oi].gist.as_str());
        let core = fuse_core(self.traces[ki].core.as_str(), self.traces[oi].core.as_str());
        let mut cues = clone_texts(&self.traces[ki].cues);
        union_into(&mut cues, self.traces[oi].cues.as_slice());
        let ghost t0 = self.traces@;
        self.traces[ki].gist = gist;
        self.traces[ki].core = core;
        self.traces[ki].cues = cues;
        self.traces[oi].status = TraceStatus::Myth;
        proof {
            assert forall|p: int, q: int|
                0 <= p < q < self.traces@.len() implies #[trigger] self.traces@[p].id@
                != #[trigger] self.traces@[q].id@ by {
                assert(self.traces@[p].id == t0[p].id && self.traces@[q].id == t0[q].id);
            }
        }
        let ghost pre_link = *self;
        assert(pre_link.edges@ == old(self).edges@);
        self.link(keep, other);
        let na = self.axioms.len();
        let mut j: usize = 0;
        let ghost a0 = self.axioms@;
        let ghost mid = *self;
        while j < na
            invariant
                self.traces@ == mid.traces@,
                self.edges@ == mid.edges@,
                self.archives@ == mid.archives@,
                self.pending_night@ == mid.pending_night@,
                self.last_deep_at == mid.last_deep_at,
                self.merges_refused == mid.merges_refused,
                na == a0.len(),
                j <= na,
                self.axioms@.len() == na,
                forall|jj: int| j <= jj < na ==> #[trigger] self.axioms@[jj] == a0[jj],
                forall|jj: int| 0 <= jj < j ==> {
                    let a = a0[jj];
                    let b = #[trigger] self.axioms@[jj];
                    &&& b.id == a.id
                    &&& b.statement == a.statement
                    &&& b.weight == a.weight
                    &&& b.layer == a.layer
                    &&& b.schema == a.schema
                    &&& b.superseded_by == a.superseded_by
                    &&& b.created_at == a.created_at
                    &&& if a.supports(other@) && !a.supports(keep@) {
                        texts(b.support_trace_ids@) == texts(a.support_trace_ids@).push(keep@)
                    } else {
                        b.support_trace_ids == a.support_trace_ids
                    }
                },
            decreases na - j,
        {
            let touches = contains_text(&self.axioms[j].support_trace_ids, other);
            let has_keep = contains_text(&self.axioms[j].support_trace_ids, keep);
            proof {
                lemma_supports_listed(a0[j as int], other@);
                lemma_supports_listed(a0[j as int], keep@);
            }
            if touches && !has_keep {
                let ghost s0 = self.axioms@[j as int].support_trace_ids@;
                self.axioms[j].support_trace_ids.push(keep.to_owned());
                assert(texts(self.axioms@[j as int].support_trace_ids@) =~= texts(s0).push(keep@));
            }
            j = j + 1;
        }
        proof {
            assert forall|p: int, q: int|
                0 <= p < q < self.axioms@.len() implies #[trigger] self.axioms@[p].id@
                != #[trigger] self.axioms@[q].id@ by {
                assert(self.axioms@[p].id == a0[p].id && self.axioms@[q].id == a0[q].id);
            }
            assert forall|x: Seq<char>, y: Seq<char>|
                self.linked(x, y) <==> (old(self).linked(x, y) || (x == keep@ && y == other@) || (x
                    == other@ && y == keep@)) by {
                assert(self.linked(x, y) == mid.linked(x, y));
                assert(pre_link.linked(x, y) == old(self).linked(x, y));
            }
        }
    }

    /// The trace with this id (meaningful when there is one).
    pub open spec fn the_trace(self, id: Seq<char>) -> MemoryTrace<N> {
        let i = choose|i: int| 0 <= i < self.traces@.len() && #[trigger] self.traces@[i].id@ == id;
        self.traces@[i]
    }

    pub proof fn lemma_the_trace(self, i: int)
        requires
            self.wf(),
            0 <= i < self.traces@.len(),
        ensures
            self.the_trace(self.traces@[i].id@) == self.traces@[i],
    {
        let k = choose|k: int| 0 <= k < self.traces@.len() && #[trigger] self.traces@[k].id@ == self.traces@[i].id@;
        if k < i {
            assert(self.traces@[k].id@ != self.traces@[i].id@);
        } else if k > i {
            assert(self.traces@[i].id@ != self.traces@[k].id@);
        }
    }
}

/// An axiom lists an hour exactly when the hour is among its support texts.
pub proof fn lemma_supports_listed<W>(a: IdentityAxiom<W>, id: Seq<char>)
    ensures
        a.supports(id) == texts(a.support_trace_ids@).contains(id),
{
    if a.supports(id) {
        let w = choose|w: int| 0 <= w < a.support_trace_ids@.len() && #[trigger] a.support_trace_ids@[w]@ == id;
        assert(texts(a.support_trace_ids@)[w] == id);
    }
    if texts(a.support_trace_ids@).contains(id) {
        let w = choose|w: int| 0 <= w < texts(a.support_trace_ids@).len() && texts(a.support_trace_ids@)[w] == id;
        assert(a.support_trace_ids@[w]@ == id);
    }
}

/// A copy of a list of strings.
pub fn clone_texts(v: &Vec<String>) -> (r: Vec<String>)
    ensures
        texts(r@) == texts(v@),
{
    let mut r: Vec<String> = Vec::new();
    let n = v.len();
    let mut i: usize = 0;
    while i < n
        invariant
            n == v@.len(),
            i <= n,
            texts(r@) == texts(v@).take(i as int),
        decreases n - i,
    {
        let ghost r0 = r@;
        r.push(v[i].clone());
        assert(texts(r@) =~= texts(r0).push(v@[i as int]@));
        assert(texts(v@).take(i + 1) =~= texts(v@).take(i as int).push(v@[i as int]@));
        i = i + 1;
    }
    assert(texts(v@).take(n as int) =~= texts(v@));
    r
}


/// A merged pair stays one family: once `keep` and `other` are linked (as
/// `absorb` leaves them), the lineage of either hour reaches the other.
pub proof fn merged_pair_shares_lineage<N, W>(s: MemoryStore<N, W>, keep: Seq<char>, other: Seq<char>)
    requires
        s.wf(),
        s.linked(keep, other),
    ensures
        s.lineage_set(seq![keep]).contains(other),
        s.lineage_set(seq![other]).contains(keep),
{
    let i = choose|i: int| 0 <= i < s.edges@.len() && #[trigger] s.edges@[i].a@ == keep && s.edges@[i].b@ == other;
    assert(s.linked(other, keep));
    assert forall|S: Set<Seq<char>>| #[trigger] s.lineage_closed(seq![keep], S) implies S.contains(other) by {
        assert(seq![keep].contains(keep)) by {
            assert(seq![keep][0] == keep);
        }
        assert(S.contains(keep));
    }
    assert forall|S: Set<Seq<char>>| #[trigger] s.lineage_closed(seq![other], S) implies S.contains(keep) by {
        assert(seq![other].contains(other)) by {
            assert(seq![other][0] == other);
        }
        assert(S.contains(other));
    }
}

impl<N, W> MemoryStore<N, W> {
    /// Under the support veto, a pair must not be fused when either hour is
    /// pinned (the caller reads the pin on the affect), or when the two
    /// rest on different living axioms: an hour that supports none must not
    /// fold into a minted family either.
    pub fn merge_vetoed(&self, keep: &str, other: &str, keep_pinned: bool, other_pinned: bool) -> (r: bool)
        requires
            self.wf(),
        ensures
            r == (keep_pinned || other_pinned || self.families_differ(keep@, other@)),
    {
        if keep_pinned || other_pinned {
            return true;
        }
        self.distinct_families(keep, other)
    }
}

impl<N, W> MemoryStore<N, W> {
    /// The merge pass fuses `other` into `keep`: both are in the book,
    /// `other` is not a myth already, the two do not both carry a heavy
    /// anchor, their gists are close, and the support veto (when on) does not
    /// refuse the pair. `both_heavy` and `close` are read on the affect numbers.
    pub open spec fn fuse_decision(
        self,
        keep: Seq<char>,
        other: Seq<char>,
        both_heavy: bool,
        close: bool,
        veto: bool,
        keep_pinned: bool,
        other_pinned: bool,
    ) -> bool {
        &&& self.has_trace(keep)
        &&& self.has_trace(other)
        &&& !(self.the_trace(other).status is Myth)
        &&& !both_heavy
        &&& close
        &&& !(veto && (keep_pinned || other_pinned || self.families_differ(keep, other)))
    }

    /// Whether the merge pass fuses `other` into `keep`.
    pub fn fuses(
        &self,
        keep: &str,
        other: &str,
        both_heavy: bool,
        close: bool,
        veto: bool,
        keep_pinned: bool,
        other_pinned: bool,
    ) -> (r: bool)
        requires
            self.wf(),
        ensures
            r == self.fuse_decision(keep@, other@, both_heavy, close, veto, keep_pinned, other_pinned),
    {
        if self.find_trace(keep).is_none() {
            return false;
        }
        let oi = match self.find_trace(other) {
            Some(i) => i,
            None => {
                return false;
            },
        };
        proof {
            self.lemma_the_trace(oi as int);
        }
        if self.traces[oi].status == TraceStatus::Myth || both_heavy || !close {
            return false;
        }
        !(veto && self.merge_vetoed(keep, other, keep_pinned, other_pinned))
    }
}

/// With the support veto on, the merge pass never fuses two hours that rest
/// on different sets of living axioms: a living axiom that lists one of them
/// and not the other keeps them apart (an hour that rests on none differs
/// from one that rests on some). Under the veto a pin keeps a pair apart too,
/// and two unpinned hours of the book that rest on the same living axioms,
/// the other not yet a myth, close and not both heavy, are fused. Without the
/// veto, axioms and pins play no part. A myth is never fused again, nor a
/// pair that is not close.
pub proof fn support_veto_keeps_families_apart<N, W>(
    s: MemoryStore<N, W>,
    keep: Seq<char>,
    other: Seq<char>,
    both_heavy: bool,
    close: bool,
    keep_pinned: bool,
    other_pinned: bool,
)
    requires
        s.wf(),
    ensures
        (exists|j: int|
            0 <= j < s.axioms@.len() && #[trigger] s.axioms@[j].is_living() && s.axioms@[j].supports(keep)
                != s.axioms@[j].supports(other)) ==> !s.fuse_decision(
            keep,
            other,
            both_heavy,
            close,
            true,
            keep_pinned,
            other_pinned,
        ),
        keep_pinned || other_pinned ==> !s.fuse_decision(keep, other, both_heavy, close, true, keep_pinned, other_pinned),
        s.has_trace(keep) && s.has_trace(other) && !(s.the_trace(other).status is Myth) && !both_heavy && close
            && !keep_pinned && !other_pinned && (forall|j: int|
            0 <= j < s.axioms@.len() && #[trigger] s.axioms@[j].is_living() ==> s.axioms@[j].supports(keep)
                == s.axioms@[j].supports(other)) ==> s.fuse_decision(
            keep,
            other,
            both_heavy,
            close,
            true,
            keep_pinned,
            other_pinned,
        ),
        s.fuse_decision(keep, other, both_heavy, close, false, keep_pinned, other_pinned) == (s.has_trace(keep)
            && s.has_trace(other) && !(s.the_trace(other).status is Myth) && !both_heavy && close),
        s.the_trace(other).status is Myth || !close ==> !s.fuse_decision(
            keep,
            other,
            both_heavy,
            close,
            true,
            keep_pinned,
            other_pinned,
        ) && !s.fuse_decision(keep, other, both_heavy, close, false, keep_pinned, other_pinned),
{
    if forall|j: int|
        0 <= j < s.axioms@.len() && #[trigger] s.axioms@[j].is_living() ==> s.axioms@[j].supports(keep)
            == s.axioms@[j].supports(other) {
        assert forall|x: Seq<char>| s.leans_on(keep, x) == s.leans_on(other, x) by {
            if s.leans_on(keep, x) {
                let j = choose|j: int|
                    0 <= j < s.axioms@.len() && #[trigger] s.axioms@[j].id@ == x && s.axioms@[j].is_living()
                        && s.axioms@[j].supports(keep);
                assert(s.axioms@[j].is_living());
            }
            if s.leans_on(other, x) {
                let j = choose|j: int|
                    0 <= j < s.axioms@.len() && #[trigger] s.axioms@[j].id@ == x && s.axioms@[j].is_living()
                        && s.axioms@[j].supports(other);
                assert(s.axioms@[j].is_living());
            }
        }
    }
    if exists|j: int|
        0 <= j < s.axioms@.len() && #[trigger] s.axioms@[j].is_living() && s.axioms@[j].supports(keep)
            != s.axioms@[j].supports(other) {
        let j = choose|j: int|
            0 <= j < s.axioms@.len() && #[trigger] s.axioms@[j].is_living() && s.axioms@[j].supports(keep)
                != s.axioms@[j].supports(other);
        let x = s.axioms@[j].id@;
        assert forall|a: Seq<char>| s.leans_on(a, x) == s.axioms@[j].supports(a) by {
            if s.leans_on(a, x) {
                let j2 = choose|j2: int|
                    0 <= j2 < s.axioms@.len() && #[trigger] s.axioms@[j2].id@ == x && s.axioms@[j2].is_living()
                        && s.axioms@[j2].supports(a);
                if j2 < j {
                    assert(s.axioms@[j2].id@ != s.axioms@[j].id@);
                } else if j2 > j {
                    assert(s.axioms@[j].id@ != s.axioms@[j2].id@);
                }
            }
        }
        assert(s.leans_on(keep, x) != s.leans_on(other, x));
        assert(s.families_differ(keep, other));
    }
}

/// Heavy anchors do not merge: when both hours carry a heavy anchor, the
/// merge pass never fuses them, whatever else holds.
pub proof fn heavy_anchors_do_not_merge<N, W>(
    s: MemoryStore<N, W>,
    keep: Seq<char>,
    other: Seq<char>,
    close: bool,
    veto: bool,
    keep_pinned: bool,
    other_pinned: bool,
)
    ensures
        !s.fuse_decision(keep, other, true, close, veto, keep_pinned, other_pinned),
{
}

/// An hour the merge pass may fuse: a Selfhood hour filed under a schema.
pub open spec fn merge_candidate<N>(t: MemoryTrace<N>) -> bool {
    t.channel == Channel::Selfhood && t.schema is Some
}

impl<N, W> MemoryStore<N, W> {
    /// The schemas of the merge candidates, in order of their first hour.
    pub open spec fn merge_schemas(self) -> Seq<Seq<char>> {
        first_seen(
            self.traces@.filter(|t: MemoryTrace<N>| merge_candidate(t)).map_values(
                |t: MemoryTrace<N>| t.schema.unwrap()@,
            ),
        )
    }

    /// The merge candidates of one schema, in book order.
    pub open spec fn merge_family(self, s: Seq<char>) -> Seq<Seq<char>> {
        self.traces@.filter(|t: MemoryTrace<N>| merge_candidate(t) && t.schema.unwrap()@ == s).map_values(
            |t: MemoryTrace<N>| t.id@,
        )
    }

    /// The schemas whose family has two hours or more.
    pub open spec fn crowded_schemas(self) -> Seq<Seq<char>> {
        self.merge_schemas().filter(|s: Seq<char>| self.merge_family(s).len() >= 2)
    }

    fn candidate_schemas(&self) -> (r: Vec<String>)
        ensures
            texts(r@) == self.merge_schemas(),
    {
        let ghost ev = |t: MemoryTrace<N>| merge_candidate(t);
        let ghost nm = |t: MemoryTrace<N>| t.schema.unwrap()@;
        let mut out: Vec<String> = Vec::new();
        let mut i: usize = 0;
        assert(self.traces@.take(0).filter(ev) =~= Seq::<MemoryTrace<N>>::empty());
        assert(self.traces@.take(0).filter(ev).map_values(nm) =~= Seq::<Seq<char>>::empty());
        assert(texts(out@) =~= Seq::<Seq<char>>::empty());
        while i < self.traces.len()
            invariant
                i <= self.traces@.len(),
                ev == (|t: MemoryTrace<N>| merge_candidate(t)),
                nm == (|t: MemoryTrace<N>| t.schema.unwrap()@),
                texts(out@) == first_seen(self.traces@.take(i as int).filter(ev).map_values(nm)),
            decreases self.traces@.len() - i,
        {
            let ghost x = self.traces@[i as int];
            let ghost pf = self.traces@.take(i as int).filter(ev);
            proof {
                reveal(Seq::filter);
                assert(self.traces@.take(i + 1).drop_last() =~= self.traces@.take(i as int));
                assert(self.traces@.take(i + 1).last() == x);
            }
            if self.traces[i].channel == Channel::Selfhood {
                match &self.traces[i].schema {
                    Some(name) => {
                        proof {
                            assert(self.traces@.take(i + 1).filter(ev) == pf.push(x));
                            assert(pf.push(x).map_values(nm) =~= pf.map_values(nm).push(nm(x)));
                            assert(pf.push(x).map_values(nm).drop_last() =~= pf.map_values(nm));
                        }
                        if !listed(out.as_slice(), name.as_str()) {
                            let ghost o0 = out@;
                            out.push(name.clone());
                            assert(texts(out@) =~= texts(o0).push(nm(x)));
                        }
                    },
                    None => {
                        assert(self.traces@.take(i + 1).filter(ev) == pf);
                    },
                }
            } else {
                assert(self.traces@.take(i + 1).filter(ev) == pf);
            }
            i = i + 1;
        }
        proof {
            assert(self.traces@.take(self.traces@.len() as int) =~= self.traces@);
        }
        out
    }

    fn family_of(&self, s: &str) -> (r: Vec<String>)
        ensures
            texts(r@) == self.merge_family(s@),
    {
        let ghost ev = |t: MemoryTrace<N>| merge_candidate(t) && t.schema.unwrap()@ == s@;
        let ghost idf = |t: MemoryTrace<N>| t.id@;
        let mut ids: Vec<String> = Vec::new();
        let mut i: usize = 0;
        assert(self.traces@.take(0).filter(ev) =~= Seq::<MemoryTrace<N>>::empty());
        assert(texts(ids@) =~= self.traces@.take(0).filter(ev).map_values(idf));
        while i < self.traces.len()
            invariant
                i <= self.traces@.len(),
                ev == (|t: MemoryTrace<N>| merge_candidate(t) && t.schema.unwrap()@ == s@),
                idf == (|t: MemoryTrace<N>| t.id@),
                texts(ids@) == self.traces@.take(i as int).filter(ev).map_values(idf),
            decreases self.traces@.len() - i,
        {
            let ghost x = self.traces@[i as int];
            let ghost pf = self.traces@.take(i as int).filter(ev);
            proof {
                reveal(Seq::filter);
                assert(self.traces@.take(i + 1).drop_last() =~= self.traces@.take(i as int));
                assert(self.traces@.take(i + 1).last() == x);
            }
            let hit = self.traces[i].channel == Channel::Selfhood && match &self.traces[i].schema {
                Some(name) => same_text(name.as_str(), s),
                None => false,
            };
            if hit {
                let ghost o0 = ids@;
                ids.push(self.traces[i].id.clone());
                proof {
                    assert(pf.push(x).map_values(idf) =~= pf.map_values(idf).push(x.id@));
                    assert(texts(ids@) =~= texts(o0).push(x.id@));
                }
            }
            i = i + 1;
        }
        proof {
            assert(self.traces@.take(self.traces@.len() as int) =~= self.traces@);
        }
        ids
    }

    /// The families the merge pass looks at: for each schema with two or
    /// more Selfhood hours (in order of its first hour), their ids, sorted.
    pub fn merge_groups(&self) -> (r: Vec<Vec<String>>)
        ensures
            r@.len() == self.crowded_schemas().len(),
            forall|k: int|
                0 <= k < r@.len() ==> sorted_texts(texts(#[trigger] r@[k]@)) && texts(r@[k]@).to_multiset()
                    == self.merge_family(self.crowded_schemas()[k]).to_multiset(),
    {
        let names = self.candidate_schemas();
        let ghost all = self.merge_schemas();
        let ghost big = |x: Seq<char>| self.merge_family(x).len() >= 2;
        let mut out: Vec<Vec<String>> = Vec::new();
        let mut g: usize = 0;
        assert(all.take(0).filter(big) =~= Seq::<Seq<char>>::empty());
        while g < names.len()
            invariant
                g <= names@.len(),
                texts(names@) == all,
                all == self.merge_schemas(),
                big == (|x: Seq<char>| self.merge_family(x).len() >= 2),
                out@.len() == all.take(g as int).filter(big).len(),
                forall|k: int|
                    0 <= k < out@.len() ==> sorted_texts(texts(#[trigger] out@[k]@)) && texts(out@[k]@).to_multiset()
                        == self.merge_family(all.take(g as int).filter(big)[k]).to_multiset(),
            decreases names@.len() - g,
        {
            let ghost x = all[g as int];
            let ghost pf = all.take(g as int).filter(big);
            proof {
                reveal(Seq::filter);
                assert(all.take(g + 1).drop_last() =~= all.take(g as int));
                assert(all.take(g + 1).last() == x);
                assert(names@[g as int]@ == x);
            }
            let fam = self.family_of(names[g].as_str());
            if fam.len() >= 2 {
                let sorted = sort_texts(&fam);
                proof {
                    assert(all.take(g + 1).filter(big) == pf.push(x));
                }
                out.push(sorted);
                proof {
                    assert forall|k: int| 0 <= k < out@.len() implies sorted_texts(texts(#[trigger] out@[k]@))
                        && texts(out@[k]@).to_multiset() == self.merge_family(
                        all.take(g + 1).filter(big)[k],
                    ).to_multiset() by {
                        if k < pf.len() {
                            assert(all.take(g + 1).filter(big)[k] == pf[k]);
                        }
                    }
                }
            } else {
                assert(all.take(g + 1).filter(big) == pf);
            }
            g = g + 1;
        }
        proof {
            assert(all.take(names@.len() as int) =~= all);
        }
        out
    }

    /// Count one pair that the support veto kept apart (saturating).
    pub fn note_refused_merge(&mut self)
        ensures
            final(self).merges_refused == (if old(self).merges_refused == u32::MAX {
                u32::MAX
            } else {
                (old(self).merges_refused + 1) as u32
            }),
            *final(self) == (MemoryStore { merges_refused: final(self).merges_refused, ..*old(self) }),
    {
        if self.merges_refused < u32::MAX {
            self.merges_refused = self.merges_refused + 1;
        }
    }
}

} // verus!
