//! Where the salient hour stands at a probe: in the book, in a last-k
//! window, in a pinned profile; and how the answers of several probes fold
//! into one.
//!
//! The scores of the top candidates ride along as an opaque payload `S`.

use vstd::prelude::*;

use crate::markers::{marks, names_marker};
use crate::model::TraceStatus;
use crate::store::{texts, MemoryStore};
use crate::wire::{status_name, status_word};

verus! {

/// What one side of a pair shows of the salient hour (T0).
#[derive(Clone, Debug)]
pub struct RetrievalSide<S> {
    pub t0_in_book: bool,
    pub t0_status: String,
    pub t0_rank: Option<u32>,
    pub t0_selected: bool,
    pub selected_ids: Vec<String>,
    pub top: Vec<(String, S)>,
}

impl<S> RetrievalSide<S> {
    /// Nothing seen: not in the book, no status, no rank, nothing selected.
    pub open spec fn is_blank(self) -> bool {
        &&& !self.t0_in_book
        &&& self.t0_status@ == Seq::<char>::empty()
        &&& self.t0_rank is None
        &&& !self.t0_selected
        &&& self.selected_ids@.len() == 0
        &&& self.top@.len() == 0
    }

    pub fn blank() -> (r: Self)
        ensures
            r.is_blank(),
    {
        RetrievalSide {
            t0_in_book: false,
            t0_status: String::new(),
            t0_rank: None,
            t0_selected: false,
            selected_ids: Vec::new(),
            top: Vec::new(),
        }
    }
}

impl<S> Default for RetrievalSide<S> {
    fn default() -> (r: Self)
        ensures
            r.is_blank(),
    {
        Self::blank()
    }
}

// ---------------------------------------------------------------------
// Last-k log (C1) and pinned profile (C3).
// ---------------------------------------------------------------------

/// The last `k` lines of a log (all of them when it is shorter).
pub open spec fn window_of(lines: Seq<String>, k: nat) -> Seq<String> {
    if lines.len() <= k {
        lines
    } else {
        lines.skip(lines.len() - k)
    }
}

pub fn last_k_window(lines: &[String], k: usize) -> (r: Vec<String>)
    ensures
        texts(r@) == texts(window_of(lines@, k as nat)),
{
    let n = lines.len();
    let start = if n > k { n - k } else { 0 };
    let mut r: Vec<String> = Vec::new();
    let mut i = start;
    while i < n
        invariant
            n == lines@.len(),
            start <= i <= n,
            start == (if n > k { n - k } else { 0 }),
            texts(r@) == texts(lines@.subrange(start as int, i as int)),
        decreases n - i,
    {
        let ghost r0 = r@;
        r.push(lines[i].clone());
        proof {
            assert(texts(r@) =~= texts(r0).push(lines@[i as int]@));
            assert(texts(lines@.subrange(start as int, i + 1)) =~= texts(
                lines@.subrange(start as int, i as int),
            ).push(lines@[i as int]@));
        }
        i = i + 1;
    }
    proof {
        assert(lines@.subrange(start as int, n as int) =~= window_of(lines@, k as nat));
    }
    r
}

/// Rank of the hour in a last-k window: one plus the position, counted
/// from the newest line, of the newest line that names it.
pub open spec fn window_rank(win: Seq<String>) -> Option<int>
    decreases win.len(),
{
    if win.len() == 0 {
        None
    } else if marks(win.last()@) {
        Some(1)
    } else {
        match window_rank(win.drop_last()) {
            Some(r) => Some(r + 1),
            None => None,
        }
    }
}

/// A C1 rank is set exactly when some line of the window names the hour,
/// and it never points outside the window.
pub proof fn c1_rank_within_window(win: Seq<String>)
    ensures
        (window_rank(win) is Some) <==> (exists|i: int| 0 <= i < win.len() && marks(#[trigger] win[i]@)),
        window_rank(win) matches Some(r) ==> 1 <= r <= win.len(),
    decreases win.len(),
{
    if win.len() > 0 {
        c1_rank_within_window(win.drop_last());
        if !marks(win.last()@) {
            if exists|i: int| 0 <= i < win.len() && marks(#[trigger] win[i]@) {
                let i = choose|i: int| 0 <= i < win.len() && marks(#[trigger] win[i]@);
                assert(i != win.len() - 1);
                assert(win.drop_last()[i] == win[i]);
            }
            if exists|i: int| 0 <= i < win.len() - 1 && marks(#[trigger] win.drop_last()[i]@) {
                let i = choose|i: int| 0 <= i < win.len() - 1 && marks(#[trigger] win.drop_last()[i]@);
                assert(win[i] == win.drop_last()[i]);
            }
        }
    }
}

/// The C1 side: the hour is "active" at its rank while a window line
/// names it, "absent" otherwise.
pub open spec fn c1_view<S>(win: Seq<String>, r: RetrievalSide<S>) -> bool {
    &&& r.t0_in_book == (window_rank(win) is Some)
    &&& r.t0_rank == (match window_rank(win) {
        Some(k) => Some(k as u32),
        None => None,
    })
    &&& r.t0_selected == (window_rank(win) is Some)
    &&& r.t0_status@ == (if window_rank(win) is Some {
        "active"@
    } else {
        "absent"@
    })
    &&& r.selected_ids@.len() == 0
    &&& r.top@.len() == 0
}

/// What the last-k log shows of the hour.
pub fn c1_side<S>(win: &[String]) -> (r: RetrievalSide<S>)
    ensures
        c1_view(win@, r),
{
    let n = win.len();
    let mut k: usize = n;
    assert(win@.take(n as int) =~= win@);
    // From the newest line back.
    while k > 0 && !names_marker(win[k - 1].as_str())
        invariant
            k <= n,
            n == win@.len(),
            window_rank(win@) == (match window_rank(win@.take(k as int)) {
                Some(r) => Some(r + (n - k)),
                None => None,
            }),
        decreases k,
    {
        proof {
            assert(win@.take(k as int).drop_last() =~= win@.take(k - 1));
            assert(win@.take(k as int).last() == win@[k - 1]);
        }
        k = k - 1;
    }
    proof {
        assert(win@.take(n as int) =~= win@);
    }
    let rank: Option<u32> = if k == 0 {
        None
    } else {
        proof {
            assert(win@.take(k as int).last() == win@[k - 1]);
        }
        Some(#[verifier::truncate] ((n - k + 1) as u32))
    };
    proof {
        if k == 0 {
            assert(win@.take(0) =~= Seq::<String>::empty());
        }
    }
    let hit = rank.is_some();
    RetrievalSide {
        t0_in_book: hit,
        t0_status: if hit {
            "active".to_owned()
        } else {
            "absent".to_owned()
        },
        t0_rank: rank,
        t0_selected: hit,
        selected_ids: Vec::new(),
        top: Vec::new(),
    }
}

/// Some line of the list names the hour.
pub open spec fn any_marks(lines: Seq<String>) -> bool {
    exists|i: int| 0 <= i < lines.len() && marks(#[trigger] lines[i]@)
}

fn any_marked(lines: &[String]) -> (r: bool)
    ensures
        r == any_marks(lines@),
{
    let mut i: usize = 0;
    while i < lines.len()
        invariant
            i <= lines@.len(),
            forall|j: int| 0 <= j < i ==> !marks(#[trigger] lines@[j]@),
        decreases lines@.len() - i,
    {
        if names_marker(lines[i].as_str()) {
            assert(marks(lines@[i as int]@));
            return true;
        }
        i = i + 1;
    }
    false
}

/// The C3 side: the pinned profile holds the hour at rank 1; the rolling
/// summary holds it as "active".
pub open spec fn c3_view<S>(profile: Seq<String>, recent: Seq<String>, r: RetrievalSide<S>) -> bool {
    let p = any_marks(profile);
    let q = any_marks(recent);
    &&& r.t0_in_book == (p || q)
    &&& r.t0_status@ == (if p {
        "profile"@
    } else if q {
        "active"@
    } else {
        "absent"@
    })
    &&& r.t0_rank == (if p {
        Some(1u32)
    } else {
        None
    })
    &&& r.t0_selected == (p || q)
    &&& r.selected_ids@.len() == 0
    &&& r.top@.len() == 0
}

/// What the profile memory shows of the hour.
pub fn c3_side<S>(profile: &[String], recent: &[String]) -> (r: RetrievalSide<S>)
    ensures
        c3_view(profile@, recent@, r),
{
    let in_profile = any_marked(profile);
    let in_recent = any_marked(recent);
    RetrievalSide {
        t0_in_book: in_profile || in_recent,
        t0_status: if in_profile {
            "profile".to_owned()
        } else if in_recent {
            "active".to_owned()
        } else {
            "absent".to_owned()
        },
        t0_rank: if in_profile {
            Some(1)
        } else {
            None
        },
        t0_selected: in_profile || in_recent,
        selected_ids: Vec::new(),
        top: Vec::new(),
    }
}

// ---------------------------------------------------------------------
// The book side (C2).
// ---------------------------------------------------------------------

impl<N, W> MemoryStore<N, W> {
    /// The status of the first marked id that the book still holds.
    pub open spec fn first_held_status(self, marked: Seq<Seq<char>>) -> Option<TraceStatus>
        decreases marked.len(),
    {
        if marked.len() == 0 {
            None
        } else if self.has_trace(marked[0]) {
            Some(self.traces@[self.trace_index(marked[0])].status)
        } else {
            self.first_held_status(marked.drop_first())
        }
    }

    /// Where the trace with this id stands (meaningful when it is held).
    pub open spec fn trace_index(self, id: Seq<char>) -> int {
        choose|i: int| 0 <= i < self.traces@.len() && self.traces@[i].id@ == id
    }
}

/// The C2 side from the book alone: whether a marked id is held, and the
/// status of the first one held ("absent" when none or when nothing is marked).
pub open spec fn book_view<N, W, S>(
    store: MemoryStore<N, W>,
    marked: Seq<Seq<char>>,
    r: RetrievalSide<S>,
) -> bool {
    &&& r.t0_in_book == (exists|i: int| 0 <= i < marked.len() && store.has_trace(#[trigger] marked[i]))
    &&& r.t0_status@ == (match store.first_held_status(marked) {
        Some(s) => status_word(s),
        None => "absent"@,
    })
    &&& r.t0_rank is None
    &&& !r.t0_selected
    &&& r.selected_ids@.len() == 0
    &&& r.top@.len() == 0
}

pub fn side_from_book<N, W, S>(store: &MemoryStore<N, W>, marked: &[String]) -> (r: RetrievalSide<S>)
    requires
        store.wf(),
    ensures
        book_view(*store, texts(marked@), r),
{
    let ghost m = texts(marked@);
    let mut in_book = false;
    let mut status: Option<TraceStatus> = None;
    let n = marked.len();
    let mut i: usize = n;
    // From the last marked id back, so the first held one wins.
    while i > 0
        invariant
            i <= n,
            n == marked@.len(),
            m == texts(marked@),
            store.wf(),
            in_book == (exists|j: int| i <= j < n && store.has_trace(#[trigger] m[j])),
            status == store.first_held_status(m.skip(i as int)),
        decreases i,
    {
        let k = i - 1;
        proof {
            assert(m.skip(k as int)[0] == m[k as int]);
            assert(m.skip(k as int).drop_first() =~= m.skip(i as int));
        }
        match store.find_trace(marked[k].as_str()) {
            Some(p) => {
                in_book = true;
                proof {
                    let ix = store.trace_index(m[k as int]);
                    assert(store.has_trace(m[k as int]));
                    if ix != p as int {
                        if ix < p as int {
                            assert(store.traces@[ix].id@ != store.traces@[p as int].id@);
                        } else {
                            assert(store.traces@[p as int].id@ != store.traces@[ix].id@);
                        }
                    }
                }
                status = Some(store.traces[p].status);
            },
            None => {},
        }
        i = k;
    }
    proof {
        assert(m.skip(0) =~= m);
    }
    let word = match status {
        Some(s) => status_name(s).to_owned(),
        None => "absent".to_owned(),
    };
    RetrievalSide {
        t0_in_book: in_book,
        t0_status: word,
        t0_rank: None,
        t0_selected: false,
        selected_ids: Vec::new(),
        top: Vec::new(),
    }
}

// ---------------------------------------------------------------------
// Folding probes.
// ---------------------------------------------------------------------

/// The first `Some` rank, in probe order.
pub open spec fn first_rank<S>(sides: Seq<RetrievalSide<S>>) -> Option<u32>
    decreases sides.len(),
{
    if sides.len() == 0 {
        None
    } else {
        match first_rank(sides.drop_last()) {
            Some(r) => Some(r),
            None => sides.last().t0_rank,
        }
    }
}

/// The first non-empty selection, in probe order.
pub open spec fn first_selection<S>(sides: Seq<RetrievalSide<S>>) -> Seq<String>
    decreases sides.len(),
{
    if sides.len() == 0 {
        Seq::empty()
    } else if first_selection(sides.drop_last()).len() > 0 {
        first_selection(sides.drop_last())
    } else {
        sides.last().selected_ids@
    }
}

/// The first non-empty top list, in probe order.
pub open spec fn first_top<S>(sides: Seq<RetrievalSide<S>>) -> Seq<(String, S)>
    decreases sides.len(),
{
    if sides.len() == 0 {
        Seq::empty()
    } else if first_top(sides.drop_last()).len() > 0 {
        first_top(sides.drop_last())
    } else {
        sides.last().top@
    }
}

/// The first non-empty status, in probe order.
pub open spec fn first_status<S>(sides: Seq<RetrievalSide<S>>) -> Seq<char>
    decreases sides.len(),
{
    if sides.len() == 0 {
        Seq::empty()
    } else if first_status(sides.drop_last()).len() > 0 {
        first_status(sides.drop_last())
    } else {
        sides.last().t0_status@
    }
}

/// The folded side: seen or selected by any probe; rank, selection, top
/// list and status from the first probe that has one.
pub open spec fn folded<S>(sides: Seq<RetrievalSide<S>>, r: RetrievalSide<S>) -> bool {
    &&& r.t0_in_book == (exists|i: int| 0 <= i < sides.len() && #[trigger] sides[i].t0_in_book)
    &&& r.t0_selected == (exists|i: int| 0 <= i < sides.len() && #[trigger] sides[i].t0_selected)
    &&& r.t0_rank == first_rank(sides)
    &&& r.selected_ids@ == first_selection(sides)
    &&& r.top@ == first_top(sides)
    &&& r.t0_status@ == first_status(sides)
}

pub fn fold_sides<S>(sides: Vec<RetrievalSide<S>>) -> (r: RetrievalSide<S>)
    ensures
        folded(sides@, r),
{
    let ghost all = sides@;
    let total = sides.len();
    let mut rest = sides;
    let mut out: RetrievalSide<S> = RetrievalSide::blank();
    let mut i: usize = 0;
    assert(all.take(0) =~= Seq::<RetrievalSide<S>>::empty());
    assert(out.selected_ids@ =~= Seq::<String>::empty());
    assert(out.top@ =~= Seq::<(String, S)>::empty());
    assert(out.t0_status@ =~= Seq::<char>::empty());
    while rest.len() > 0
        invariant
            total == all.len(),
            i + rest@.len() == all.len(),
            rest@ == all.skip(i as int),
            folded(all.take(i as int), out),
        decreases rest@.len(),
    {
        let s = rest.remove(0);
        let ghost pre = all.take(i as int);
        proof {
            assert(s == all[i as int]);
            assert(all.take(i + 1).drop_last() =~= pre);
            assert(all.take(i + 1).last() == s);
            assert(rest@ =~= all.skip(i + 1));
        }
        let ghost o_in = out.t0_in_book;
        let ghost o_sel = out.t0_selected;
        out.t0_in_book = out.t0_in_book || s.t0_in_book;
        if out.t0_rank.is_none() {
            out.t0_rank = s.t0_rank;
        }
        out.t0_selected = out.t0_selected || s.t0_selected;
        if out.selected_ids.len() == 0 {
            out.selected_ids = s.selected_ids;
        }
        if out.top.len() == 0 {
            out.top = s.top;
        }
        if out.t0_status.as_str().is_empty() {
            out.t0_status = s.t0_status;
        }
        proof {
            let now = all.take(i + 1);
            assert(now[i as int] == all[i as int]);
            if o_in {
                let j = choose|j: int| 0 <= j < pre.len() && #[trigger] pre[j].t0_in_book;
                assert(now[j] == pre[j]);
            }
            if exists|j: int| 0 <= j < now.len() && #[trigger] now[j].t0_in_book {
                let j = choose|j: int| 0 <= j < now.len() && #[trigger] now[j].t0_in_book;
                if j < i {
                    assert(pre[j] == now[j]);
                }
            }
            if o_sel {
                let j = choose|j: int| 0 <= j < pre.len() && #[trigger] pre[j].t0_selected;
                assert(now[j] == pre[j]);
            }
            if exists|j: int| 0 <= j < now.len() && #[trigger] now[j].t0_selected {
                let j = choose|j: int| 0 <= j < now.len() && #[trigger] now[j].t0_selected;
                if j < i {
                    assert(pre[j] == now[j]);
                }
            }
        }
        i = i + 1;
    }
    proof {
        assert(all.take(i as int) =~= all);
    }
    out
}

/// A probe side over the book side: the book decides whether T0 is held
/// and, when it is, its status; the probes decide rank and selection.
pub open spec fn merged_view<S>(book: RetrievalSide<S>, dump: RetrievalSide<S>, r: RetrievalSide<S>) -> bool {
    &&& r.t0_in_book == (book.t0_in_book || dump.t0_in_book)
    &&& r.t0_status@ == (if book.t0_in_book {
        book.t0_status@
    } else if dump.t0_status@.len() == 0 {
        "absent"@
    } else {
        dump.t0_status@
    })
    &&& r.t0_rank == dump.t0_rank
    &&& r.t0_selected == dump.t0_selected
    &&& r.selected_ids@ == dump.selected_ids@
    &&& r.top@ == dump.top@
}

pub fn merge_retrieve<S>(book: RetrievalSide<S>, dump: RetrievalSide<S>) -> (r: RetrievalSide<S>)
    ensures
        merged_view(book, dump, r),
{
    let in_book = book.t0_in_book || dump.t0_in_book;
    let status = if book.t0_in_book {
        book.t0_status
    } else if dump.t0_status.as_str().is_empty() {
        "absent".to_owned()
    } else {
        dump.t0_status
    };
    RetrievalSide {
        t0_in_book: in_book,
        t0_status: status,
        t0_rank: dump.t0_rank,
        t0_selected: dump.t0_selected,
        selected_ids: dump.selected_ids,
        top: dump.top,
    }
}

// ---------------------------------------------------------------------
// What one recall ranked and selected.
// ---------------------------------------------------------------------

/// A ranked candidate: which hour, its score, its status.
#[derive(Clone, Debug)]
pub struct ScoredTrace<S> {
    pub trace_id: String,
    pub score: S,
    pub status: crate::model::TraceStatus,
}

/// What one recall saw: candidates best first, the ids it selected, and
/// how many hours it pulled toward their core or rewrote.
#[derive(Clone, Debug)]
pub struct RetrievalDump<S> {
    pub candidates: Vec<ScoredTrace<S>>,
    pub selected: Vec<String>,
    pub pulled: u32,
    pub reconsolidated: u32,
}

/// One-based rank of the first candidate with this id.
pub open spec fn rank_in<S>(cands: Seq<ScoredTrace<S>>, id: Seq<char>) -> Option<int>
    decreases cands.len(),
{
    if cands.len() == 0 {
        None
    } else if cands[0].trace_id@ == id {
        Some(1)
    } else {
        match rank_in(cands.drop_first(), id) {
            Some(r) => Some(r + 1),
            None => None,
        }
    }
}

/// The rank of the first marked id that was ranked at all.
pub open spec fn first_marked_rank<S>(cands: Seq<ScoredTrace<S>>, marked: Seq<Seq<char>>) -> Option<int>
    decreases marked.len(),
{
    if marked.len() == 0 {
        None
    } else {
        match rank_in(cands, marked[0]) {
            Some(r) => Some(r),
            None => first_marked_rank(cands, marked.drop_first()),
        }
    }
}

impl<S> RetrievalDump<S> {
    pub fn rank_of(&self, id: &str) -> (r: Option<u32>)
        ensures
            r == (match rank_in(self.candidates@, id@) {
                Some(k) => Some(k as u32),
                None => None,
            }),
    {
        let mut i: usize = 0;
        assert(self.candidates@.skip(0) =~= self.candidates@);
        while i < self.candidates.len()
            invariant
                i <= self.candidates@.len(),
                rank_in(self.candidates@, id@) == (match rank_in(self.candidates@.skip(i as int), id@) {
                    Some(k) => Some(k + i),
                    None => None,
                }),
            decreases self.candidates@.len() - i,
        {
            let ghost rest = self.candidates@.skip(i as int);
            assert(rest[0] == self.candidates@[i as int]);
            if crate::text::same_text(self.candidates[i].trace_id.as_str(), id) {
                return Some(#[verifier::truncate] ((i + 1) as u32));
            }
            assert(rest.drop_first() =~= self.candidates@.skip(i + 1));
            i = i + 1;
        }
        proof {
            assert(self.candidates@.skip(i as int).len() == 0);
        }
        None
    }
}

/// The probe side a dump shows: the rank of the first ranked marked id,
/// whether any marked id was selected, the selection, and the four best
/// candidates with their scores.
pub open spec fn dump_view<S>(dump: RetrievalDump<S>, marked: Seq<Seq<char>>, r: RetrievalSide<S>) -> bool {
    &&& !r.t0_in_book
    &&& r.t0_status@.len() == 0
    &&& r.t0_rank == (match first_marked_rank(dump.candidates@, marked) {
        Some(k) => Some(k as u32),
        None => None,
    })
    &&& r.t0_selected == (exists|m: int, k: int|
        0 <= m < marked.len() && 0 <= k < dump.selected@.len() && #[trigger] marked[m]
            == #[trigger] dump.selected@[k]@)
    &&& texts(r.selected_ids@) == texts(dump.selected@)
    &&& r.top@.len() == (if dump.candidates@.len() < 4 { dump.candidates@.len() } else { 4 })
    &&& forall|k: int| 0 <= k < r.top@.len() ==> (#[trigger] r.top@[k]).0@ == dump.candidates@[k].trace_id@
        && r.top@[k].1 == dump.candidates@[k].score
}

pub fn side_from_dump<S: Copy>(dump: &RetrievalDump<S>, marked: &[String]) -> (r: RetrievalSide<S>)
    ensures
        dump_view(*dump, texts(marked@), r),
{
    let ghost m = texts(marked@);
    // The first marked id with a rank.
    let mut rank: Option<u32> = None;
    let mut q: usize = 0;
    assert(m.skip(0) =~= m);
    while q < marked.len() && rank.is_none()
        invariant
            q <= marked@.len(),
            m == texts(marked@),
            rank is None ==> first_marked_rank(dump.candidates@, m) == first_marked_rank(
                dump.candidates@,
                m.skip(q as int),
            ),
            rank is Some ==> rank == (match first_marked_rank(dump.candidates@, m) {
                Some(k) => Some(k as u32),
                None => None,
            }),
        decreases marked@.len() - q,
    {
        assert(m.skip(q as int)[0] == marked@[q as int]@);
        assert(m.skip(q as int).drop_first() =~= m.skip(q + 1));
        rank = dump.rank_of(marked[q].as_str());
        q = q + 1;
    }
    proof {
        if rank is None {
            assert(m.skip(q as int).len() == 0);
        }
    }
    // Whether a marked id was selected.
    let mut selected = false;
    let mut k: usize = 0;
    while k < marked.len() && !selected
        invariant
            k <= marked@.len(),
            m == texts(marked@),
            selected ==> exists|mm: int, kk: int|
                0 <= mm < m.len() && 0 <= kk < dump.selected@.len() && #[trigger] m[mm]
                    == #[trigger] dump.selected@[kk]@,
            !selected ==> forall|mm: int, kk: int|
                0 <= mm < k && 0 <= kk < dump.selected@.len() ==> #[trigger] m[mm] != #[trigger] dump.selected@[kk]@,
        decreases marked@.len() - k,
    {
        if crate::lineage::listed(dump.selected.as_slice(), marked[k].as_str()) {
            proof {
                let kk = choose|kk: int| 0 <= kk < texts(dump.selected@).len() && texts(dump.selected@)[kk] == m[k as int];
                assert(dump.selected@[kk]@ == m[k as int]);
            }
            selected = true;
        } else {
            proof {
                assert forall|kk: int| 0 <= kk < dump.selected@.len() implies m[k as int] != #[trigger] dump.selected@[kk]@ by {
                    if m[k as int] == dump.selected@[kk]@ {
                        assert(texts(dump.selected@)[kk] == m[k as int]);
                    }
                }
            }
        }
        k = k + 1;
    }
    let ids = crate::merge::clone_texts(&dump.selected);
    let mut top: Vec<(String, S)> = Vec::new();
    let mut t: usize = 0;
    while t < dump.candidates.len() && t < 4
        invariant
            t <= 4,
            t <= dump.candidates@.len(),
            top@.len() == t,
            forall|j: int| 0 <= j < t ==> (#[trigger] top@[j]).0@ == dump.candidates@[j].trace_id@
                && top@[j].1 == dump.candidates@[j].score,
        decreases dump.candidates@.len() - t,
    {
        top.push((dump.candidates[t].trace_id.clone(), dump.candidates[t].score));
        t = t + 1;
    }
    RetrievalSide {
        t0_in_book: false,
        t0_status: String::new(),
        t0_rank: rank,
        t0_selected: selected,
        selected_ids: ids,
        top,
    }
}

impl<N, W> MemoryStore<N, W> {
    /// The most rehearsals among the marked hours the book still holds (0 when none).
    pub open spec fn most_rehearsed(self, marked: Seq<Seq<char>>) -> nat
        decreases marked.len(),
    {
        if marked.len() == 0 {
            0
        } else {
            let p = self.most_rehearsed(marked.drop_last());
            let here: nat = if self.has_trace(marked.last()) {
                self.traces@[self.trace_index(marked.last())].rehearsals as nat
            } else {
                0
            };
            if here > p {
                here
            } else {
                p
            }
        }
    }

    /// How often the marked hour was rehearsed (the most among marked ids).
    pub fn t0_rehearsals(&self, marked: &[String]) -> (r: u32)
        requires
            self.wf(),
        ensures
            r == self.most_rehearsed(texts(marked@)),
    {
        let ghost m = texts(marked@);
        let mut best: u32 = 0;
        let mut i: usize = 0;
        assert(m.take(0) =~= Seq::<Seq<char>>::empty());
        while i < marked.len()
            invariant
                i <= marked@.len(),
                m == texts(marked@),
                self.wf(),
                best == self.most_rehearsed(m.take(i as int)),
            decreases marked@.len() - i,
        {
            proof {
                assert(m.take(i + 1).drop_last() =~= m.take(i as int));
                assert(m.take(i + 1).last() == marked@[i as int]@);
            }
            match self.find_trace(marked[i].as_str()) {
                Some(p) => {
                    proof {
                        let ix = self.trace_index(marked@[i as int]@);
                        assert(self.has_trace(marked@[i as int]@));
                        if ix != p as int {
                            if ix < p as int {
                                assert(self.traces@[ix].id@ != self.traces@[p as int].id@);
                            } else {
                                assert(self.traces@[p as int].id@ != self.traces@[ix].id@);
                            }
                        }
                    }
                    if self.traces[p].rehearsals > best {
                        best = self.traces[p].rehearsals;
                    }
                },
                None => {},
            }
            i = i + 1;
        }
        assert(m.take(marked@.len() as int) =~= m);
        best
    }
}

} // verus!
