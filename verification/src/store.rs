//! The lived book: traces, the sealed archive, identity axioms, merge edges.
//!
//! Records are kept in insertion order; ids are unique in each list.

use vstd::prelude::*;

use crate::model::{ArchiveRecord, Channel, IdentityAxiom, MemoryTrace};
use crate::text::same_text;

verus! {

/// One half of a merge edge: `a` was merged with `b`. Every edge is stored
/// in both directions.
#[derive(Clone, Debug)]
pub struct Link {
    pub a: String,
    pub b: String,
}

pub struct MemoryStore<N, W> {
    pub traces: Vec<MemoryTrace<N>>,
    pub archives: Vec<ArchiveRecord>,
    pub axioms: Vec<IdentityAxiom<W>>,
    pub edges: Vec<Link>,
    /// Last night that ran merge + ladder. Shallow nights do not stamp this.
    pub last_deep_at: Option<u64>,
    /// Runtime-only. Pairs the merge pass refused under `merge_support_veto`.
    pub merges_refused: u32,
    /// Selfhood hours not yet through a deep night. Survives same-second benches.
    pub pending_night: Vec<String>,
}

/// The ids of a list of strings, as texts.
pub open spec fn texts(v: Seq<String>) -> Seq<Seq<char>> {
    v.map_values(|s: String| s@)
}

/// Whether no text occurs twice in the list.
pub fn distinct_texts(v: &Vec<String>) -> (r: bool)
    ensures
        r == forall|i: int, j: int| 0 <= i < j < v@.len() ==> #[trigger] v@[i]@ != #[trigger] v@[j]@,
{
    let n = v.len();
    let mut i: usize = 0;
    while i < n
        invariant
            n == v@.len(),
            i <= n,
            forall|a: int, b: int| 0 <= a < b < n && a < i ==> #[trigger] v@[a]@ != #[trigger] v@[b]@,
        decreases n - i,
    {
        let mut j: usize = i + 1;
        while j < n
            invariant
                n == v@.len(),
                i < j <= n,
                forall|b: int| i < b < j ==> v@[i as int]@ != #[trigger] v@[b]@,
            decreases n - j,
        {
            if same_text(v[i].as_str(), v[j].as_str()) {
                return false;
            }
            j = j + 1;
        }
        i = i + 1;
    }
    true
}

impl<N, W> MemoryStore<N, W> {
    // -----------------------------------------------------------------
    // Model.
    // -----------------------------------------------------------------

    pub open spec fn trace_ids(self) -> Seq<Seq<char>> {
        self.traces@.map_values(|t: MemoryTrace<N>| t.id@)
    }

    pub open spec fn has_trace(self, id: Seq<char>) -> bool {
        exists|i: int| 0 <= i < self.traces@.len() && #[trigger] self.traces@[i].id@ == id
    }

    pub open spec fn has_archive(self, id: Seq<char>) -> bool {
        exists|i: int| 0 <= i < self.archives@.len() && #[trigger] self.archives@[i].id@ == id
    }

    /// Some trace still points at this archive.
    pub open spec fn archive_used(self, aid: Seq<char>) -> bool {
        exists|i: int|
            0 <= i < self.traces@.len() && (#[trigger] self.traces@[i].archive_id matches Some(x)
                && x@ == aid)
    }

    /// `a` and `b` were merged (one stored half of the edge).
    pub open spec fn linked(self, a: Seq<char>, b: Seq<char>) -> bool {
        exists|i: int|
            0 <= i < self.edges@.len() && #[trigger] self.edges@[i].a@ == a && self.edges@[i].b@ == b
    }

    pub open spec fn unique_trace_ids(self) -> bool {
        forall|i: int, j: int|
            0 <= i < j < self.traces@.len() ==> #[trigger] self.traces@[i].id@ != #[trigger] self.traces@[j].id@
    }

    pub open spec fn unique_archive_ids(self) -> bool {
        forall|i: int, j: int|
            0 <= i < j < self.archives@.len() ==> #[trigger] self.archives@[i].id@
                != #[trigger] self.archives@[j].id@
    }

    pub open spec fn unique_axiom_ids(self) -> bool {
        forall|i: int, j: int|
            0 <= i < j < self.axioms@.len() ==> #[trigger] self.axioms@[i].id@ != #[trigger] self.axioms@[j].id@
    }

    /// Edges are symmetric, never loop on one hour, and are not stored twice.
    pub open spec fn edges_ok(self) -> bool {
        &&& forall|i: int|
            0 <= i < self.edges@.len() ==> #[trigger] self.edges@[i].a@ != self.edges@[i].b@
                && self.linked(self.edges@[i].b@, self.edges@[i].a@)
        &&& forall|i: int, j: int|
            0 <= i < j < self.edges@.len() ==> !(#[trigger] self.edges@[i].a@ == #[trigger] self.edges@[j].a@
                && self.edges@[i].b@ == self.edges@[j].b@)
    }

    /// Well-formed book.
    pub open spec fn wf(self) -> bool {
        &&& self.unique_trace_ids()
        &&& self.unique_archive_ids()
        &&& self.unique_axiom_ids()
        &&& self.edges_ok()
    }

    // -----------------------------------------------------------------
    // Lookup.
    // -----------------------------------------------------------------

    /// Position of the trace with this id.
    pub fn find_trace(&self, id: &str) -> (r: Option<usize>)
        ensures
            match r {
                Some(i) => i < self.traces@.len() && self.traces@[i as int].id@ == id@,
                None => !self.has_trace(id@),
            },
    {
        let mut i: usize = 0;
        while i < self.traces.len()
            invariant
                i <= self.traces@.len(),
                forall|j: int| 0 <= j < i ==> self.traces@[j].id@ != id@,
            decreases self.traces@.len() - i,
        {
            if same_text(self.traces[i].id.as_str(), id) {
                return Some(i);
            }
            i = i + 1;
        }
        None
    }

    /// Position of the archive with this id.
    pub fn find_archive(&self, id: &str) -> (r: Option<usize>)
        ensures
            match r {
                Some(i) => i < self.archives@.len() && self.archives@[i as int].id@ == id@,
                None => !self.has_archive(id@),
            },
    {
        let mut i: usize = 0;
        while i < self.archives.len()
            invariant
                i <= self.archives@.len(),
                forall|j: int| 0 <= j < i ==> self.archives@[j].id@ != id@,
            decreases self.archives@.len() - i,
        {
            if same_text(self.archives[i].id.as_str(), id) {
                return Some(i);
            }
            i = i + 1;
        }
        None
    }

    /// Position of the axiom with this id.
    pub fn find_axiom(&self, id: &str) -> (r: Option<usize>)
        ensures
            match r {
                Some(i) => i < self.axioms@.len() && self.axioms@[i as int].id@ == id@,
                None => forall|j: int| 0 <= j < self.axioms@.len() ==> self.axioms@[j].id@ != id@,
            },
    {
        let mut i: usize = 0;
        while i < self.axioms.len()
            invariant
                i <= self.axioms@.len(),
                forall|j: int| 0 <= j < i ==> self.axioms@[j].id@ != id@,
            decreases self.axioms@.len() - i,
        {
            if same_text(self.axioms[i].id.as_str(), id) {
                return Some(i);
            }
            i = i + 1;
        }
        None
    }

    /// The trace with this id.
    pub fn trace(&self, id: &str) -> (r: Option<&MemoryTrace<N>>)
        ensures
            match r {
                Some(t) => t.id@ == id@ && exists|i: int|
                    0 <= i < self.traces@.len() && self.traces@[i] == *t,
                None => !self.has_trace(id@),
            },
    {
        match self.find_trace(id) {
            Some(i) => Some(&self.traces[i]),
            None => None,
        }
    }

    /// Whether `a` lists `b` as merge neighbor.
    pub fn is_linked(&self, a: &str, b: &str) -> (r: bool)
        ensures
            r == self.linked(a@, b@),
    {
        let mut i: usize = 0;
        while i < self.edges.len()
            invariant
                i <= self.edges@.len(),
                forall|j: int| 0 <= j < i ==> !(self.edges@[j].a@ == a@ && self.edges@[j].b@ == b@),
            decreases self.edges@.len() - i,
        {
            if same_text(self.edges[i].a.as_str(), a) && same_text(self.edges[i].b.as_str(), b) {
                return true;
            }
            i = i + 1;
        }
        false
    }

    /// Whether the book is well formed: ids unique in each list, merge
    /// edges symmetric, never on one hour, never stored twice.
    pub fn is_well_formed(&self) -> (r: bool)
        ensures
            r == self.wf(),
    {
        let mut ids: Vec<String> = Vec::new();
        let n = self.traces.len();
        for i in 0..n
            invariant
                n == self.traces@.len(),
                ids@.len() == i,
                forall|k: int| 0 <= k < i ==> #[trigger] ids@[k]@ == self.traces@[k].id@,
        {
            ids.push(self.traces[i].id.clone());
        }
        let t = distinct_texts(&ids);
        proof {
            assert(t == self.unique_trace_ids()) by {
                if !t {
                    let (p, q) = choose|p: int, q: int| 0 <= p < q < ids@.len() && !(#[trigger] ids@[p]@ != #[trigger] ids@[q]@);
                    assert(ids@[p]@ == self.traces@[p].id@ && ids@[q]@ == self.traces@[q].id@);
                }
                if !self.unique_trace_ids() {
                    let (p, q) = choose|p: int, q: int| 0 <= p < q < self.traces@.len() && !(#[trigger] self.traces@[p].id@ != #[trigger] self.traces@[q].id@);
                    assert(ids@[p]@ == self.traces@[p].id@ && ids@[q]@ == self.traces@[q].id@);
                }
            }
        }
        let mut ids: Vec<String> = Vec::new();
        let n = self.archives.len();
        for i in 0..n
            invariant
                n == self.archives@.len(),
                ids@.len() == i,
                forall|k: int| 0 <= k < i ==> #[trigger] ids@[k]@ == self.archives@[k].id@,
        {
            ids.push(self.archives[i].id.clone());
        }
        let a = distinct_texts(&ids);
        proof {
            assert(a == self.unique_archive_ids()) by {
                if !a {
                    let (p, q) = choose|p: int, q: int| 0 <= p < q < ids@.len() && !(#[trigger] ids@[p]@ != #[trigger] ids@[q]@);
                    assert(ids@[p]@ == self.archives@[p].id@ && ids@[q]@ == self.archives@[q].id@);
                }
                if !self.unique_archive_ids() {
                    let (p, q) = choose|p: int, q: int| 0 <= p < q < self.archives@.len() && !(#[trigger] self.archives@[p].id@ != #[trigger] self.archives@[q].id@);
                    assert(ids@[p]@ == self.archives@[p].id@ && ids@[q]@ == self.archives@[q].id@);
                }
            }
        }
        let mut ids: Vec<String> = Vec::new();
        let n = self.axioms.len();
        for i in 0..n
            invariant
                n == self.axioms@.len(),
                ids@.len() == i,
                forall|k: int| 0 <= k < i ==> #[trigger] ids@[k]@ == self.axioms@[k].id@,
        {
            ids.push(self.axioms[i].id.clone());
        }
        let x = distinct_texts(&ids);
        proof {
            assert(x == self.unique_axiom_ids()) by {
                if !x {
                    let (p, q) = choose|p: int, q: int| 0 <= p < q < ids@.len() && !(#[trigger] ids@[p]@ != #[trigger] ids@[q]@);
                    assert(ids@[p]@ == self.axioms@[p].id@ && ids@[q]@ == self.axioms@[q].id@);
                }
                if !self.unique_axiom_ids() {
                    let (p, q) = choose|p: int, q: int| 0 <= p < q < self.axioms@.len() && !(#[trigger] self.axioms@[p].id@ != #[trigger] self.axioms@[q].id@);
                    assert(ids@[p]@ == self.axioms@[p].id@ && ids@[q]@ == self.axioms@[q].id@);
                }
            }
        }
        t && a && x && self.edges_well_kept()
    }

    fn edges_well_kept(&self) -> (r: bool)
        ensures
            r == self.edges_ok(),
    {
        let n = self.edges.len();
        let mut i: usize = 0;
        while i < n
            invariant
                n == self.edges@.len(),
                i <= n,
                forall|k: int|
                    0 <= k < i ==> #[trigger] self.edges@[k].a@ != self.edges@[k].b@ && self.linked(
                        self.edges@[k].b@,
                        self.edges@[k].a@,
                    ),
                forall|k: int, l: int|
                    0 <= k < l < n && k < i ==> !(#[trigger] self.edges@[k].a@ == #[trigger] self.edges@[l].a@
                        && self.edges@[k].b@ == self.edges@[l].b@),
            decreases n - i,
        {
            let e = &self.edges[i];
            if same_text(e.a.as_str(), e.b.as_str()) || !self.is_linked(e.b.as_str(), e.a.as_str()) {
                return false;
            }
            let mut j: usize = i + 1;
            while j < n
                invariant
                    n == self.edges@.len(),
                    i < j <= n,
                    forall|l: int|
                        i < l < j ==> !(self.edges@[i as int].a@ == #[trigger] self.edges@[l].a@
                            && self.edges@[i as int].b@ == self.edges@[l].b@),
                decreases n - j,
            {
                if same_text(self.edges[i].a.as_str(), self.edges[j].a.as_str()) && same_text(
                    self.edges[i].b.as_str(),
                    self.edges[j].b.as_str(),
                ) {
                    return false;
                }
                j = j + 1;
            }
            i = i + 1;
        }
        true
    }

    // -----------------------------------------------------------------
    // Writes.
    // -----------------------------------------------------------------

    pub fn new() -> (s: Self)
        ensures
            s.wf(),
            s.traces@.len() == 0,
            s.archives@.len() == 0,
            s.axioms@.len() == 0,
            s.edges@.len() == 0,
            s.pending_night@.len() == 0,
            s.last_deep_at is None,
            s.merges_refused == 0,
    {
        MemoryStore {
            traces: Vec::new(),
            archives: Vec::new(),
            axioms: Vec::new(),
            edges: Vec::new(),
            last_deep_at: None,
            merges_refused: 0,
            pending_night: Vec::new(),
        }
    }

    /// Seal a verbatim record. A record with the same id is replaced.
    pub fn add_archive(&mut self, record: ArchiveRecord) -> (id: String)
        requires
            old(self).wf(),
        ensures
            final(self).wf(),
            id@ == record.id@,
            old(self).has_archive(record.id@) ==> exists|i: int|
                0 <= i < old(self).archives@.len() && old(self).archives@[i].id@ == record.id@
                    && final(self).archives@ == old(self).archives@.update(i, record),
            !old(self).has_archive(record.id@) ==> final(self).archives@ == old(self).archives@.push(record),
            final(self).traces@ == old(self).traces@,
            final(self).axioms@ == old(self).axioms@,
            final(self).edges@ == old(self).edges@,
            final(self).pending_night@ == old(self).pending_night@,
            final(self).last_deep_at == old(self).last_deep_at,
            final(self).merges_refused == old(self).merges_refused,
    {
        let id = record.id.clone();
        match self.find_archive(id.as_str()) {
            Some(i) => {
                self.archives.set(i, record);
            },
            None => {
                self.archives.push(record);
            },
        }
        id
    }

    /// Write an hour into the book. A trace with the same id is replaced.
    /// A Selfhood hour also waits for the next deep night.
    pub fn add_trace(&mut self, trace: MemoryTrace<N>) -> (id: String)
        requires
            old(self).wf(),
        ensures
            final(self).wf(),
            id@ == trace.id@,
            old(self).has_trace(trace.id@) ==> exists|i: int|
                0 <= i < old(self).traces@.len() && old(self).traces@[i].id@ == trace.id@
                    && final(self).traces@ == old(self).traces@.update(i, trace),
            !old(self).has_trace(trace.id@) ==> final(self).traces@ == old(self).traces@.push(trace),
            trace.channel == Channel::Selfhood ==> texts(final(self).pending_night@) == texts(
                old(self).pending_night@,
            ).push(trace.id@),
            trace.channel != Channel::Selfhood ==> final(self).pending_night@ == old(self).pending_night@,
            final(self).archives@ == old(self).archives@,
            final(self).axioms@ == old(self).axioms@,
            final(self).edges@ == old(self).edges@,
            final(self).last_deep_at == old(self).last_deep_at,
            final(self).merges_refused == old(self).merges_refused,
    {
        let id = trace.id.clone();
        if trace.channel == Channel::Selfhood {
            self.pending_night.push(id.clone());
            assert(texts(self.pending_night@) =~= texts(old(self).pending_night@).push(trace.id@));
        }
        match self.find_trace(id.as_str()) {
            Some(i) => {
                self.traces.set(i, trace);
            },
            None => {
                self.traces.push(trace);
            },
        }
        id
    }

    /// Record an identity axiom. An axiom with the same id is replaced.
    pub fn add_axiom(&mut self, ax: IdentityAxiom<W>) -> (id: String)
        requires
            old(self).wf(),
        ensures
            final(self).wf(),
            id@ == ax.id@,
            (exists|i: int| 0 <= i < old(self).axioms@.len() && old(self).axioms@[i].id@ == ax.id@)
                ==> exists|i: int|
                0 <= i < old(self).axioms@.len() && old(self).axioms@[i].id@ == ax.id@
                    && final(self).axioms@ == old(self).axioms@.update(i, ax),
            (forall|i: int| 0 <= i < old(self).axioms@.len() ==> old(self).axioms@[i].id@ != ax.id@)
                ==> final(self).axioms@ == old(self).axioms@.push(ax),
            final(self).traces@ == old(self).traces@,
            final(self).archives@ == old(self).archives@,
            final(self).edges@ == old(self).edges@,
            final(self).pending_night@ == old(self).pending_night@,
            final(self).last_deep_at == old(self).last_deep_at,
            final(self).merges_refused == old(self).merges_refused,
    {
        let id = ax.id.clone();
        match self.find_axiom(id.as_str()) {
            Some(i) => {
                self.axioms.set(i, ax);
            },
            None => {
                self.axioms.push(ax);
            },
        }
        id
    }

    /// Store the merge edge `a — b` in both directions. A self-link is ignored.
    pub fn link(&mut self, a: &str, b: &str)
        requires
            old(self).wf(),
        ensures
            final(self).wf(),
            forall|x: Seq<char>, y: Seq<char>|
                final(self).linked(x, y) <==> (old(self).linked(x, y) || (a@ != b@ && ((x == a@
                    && y == b@) || (x == b@ && y == a@)))),
            final(self).traces@ == old(self).traces@,
            final(self).archives@ == old(self).archives@,
            final(self).axioms@ == old(self).axioms@,
            final(self).pending_night@ == old(self).pending_night@,
            final(self).last_deep_at == old(self).last_deep_at,
            final(self).merges_refused == old(self).merges_refused,
    {
        if same_text(a, b) {
            return;
        }
        if !self.is_linked(a, b) {
            // By symmetry neither half is stored yet.
            let ghost e0 = self.edges@;
            self.edges.push(Link { a: a.to_owned(), b: b.to_owned() });
            self.edges.push(Link { a: b.to_owned(), b: a.to_owned() });
            proof {
                let e = self.edges@;
                let n = e0.len() as int;
                assert(e[n].a@ == a@ && e[n].b@ == b@);
                assert(e[n + 1].a@ == b@ && e[n + 1].b@ == a@);
                assert forall|x: Seq<char>, y: Seq<char>|
                    self.linked(x, y) <==> (old(self).linked(x, y) || ((x == a@ && y == b@) || (x
                        == b@ && y == a@))) by {
                    if old(self).linked(x, y) {
                        let i = choose|i: int|
                            0 <= i < e0.len() && #[trigger] e0[i].a@ == x && e0[i].b@ == y;
                        assert(e[i] == e0[i]);
                    }
                    if self.linked(x, y) {
                        let i = choose|i: int|
                            0 <= i < e.len() && #[trigger] e[i].a@ == x && e[i].b@ == y;
                        if i < n {
                            assert(e[i] == e0[i]);
                        }
                    }
                }
                assert forall|i: int| 0 <= i < e.len() implies #[trigger] e[i].a@ != e[i].b@
                    && self.linked(e[i].b@, e[i].a@) by {
                    if i < n {
                        assert(e[i] == e0[i]);
                        assert(old(self).linked(e0[i].b@, e0[i].a@));
                    }
                }
                assert forall|i: int, j: int| 0 <= i < j < e.len() implies !(#[trigger] e[i].a@
                    == #[trigger] e[j].a@ && e[i].b@ == e[j].b@) by {
                    if j < n {
                        assert(e[i] == e0[i] && e[j] == e0[j]);
                    } else if i < n {
                        assert(e[i] == e0[i]);
                        if e[i].a@ == e[j].a@ && e[i].b@ == e[j].b@ {
                            if j == n {
                                assert(old(self).linked(a@, b@));
                            } else {
                                assert(old(self).linked(b@, a@));
                                assert(old(self).linked(a@, b@));
                            }
                        }
                    }
                }
            }
        }
    }

    /// Whether some trace still points at this archive.
    pub fn archive_in_use(&self, aid: &str) -> (r: bool)
        ensures
            r == self.archive_used(aid@),
    {
        let mut i: usize = 0;
        while i < self.traces.len()
            invariant
                i <= self.traces@.len(),
                forall|j: int|
                    0 <= j < i ==> !(#[trigger] self.traces@[j].archive_id matches Some(x) && x@
                        == aid@),
            decreases self.traces@.len() - i,
        {
            match &self.traces[i].archive_id {
                Some(x) => {
                    if same_text(x.as_str(), aid) {
                        return true;
                    }
                },
                None => {},
            }
            i = i + 1;
        }
        false
    }

    /// Drop every stored half of an edge that touches `id`.
    #[verifier::spinoff_prover]
    #[verifier::rlimit(50)]
    fn unlink_all(&mut self, id: &str)
        requires
            old(self).edges_ok(),
        ensures
            final(self).edges_ok(),
            forall|x: Seq<char>, y: Seq<char>|
                final(self).linked(x, y) <==> (old(self).linked(x, y) && x != id@ && y != id@),
            final(self).traces@ == old(self).traces@,
            final(self).archives@ == old(self).archives@,
            final(self).axioms@ == old(self).axioms@,
            final(self).pending_night@ == old(self).pending_night@,
            final(self).last_deep_at == old(self).last_deep_at,
            final(self).merges_refused == old(self).merges_refused,
    {
        let ghost e0 = self.edges@;
        let mut kept: Vec<Link> = Vec::new();
        // `src[p]` is the position in the old list that `kept[p]` copies.
        let ghost mut src: Seq<int> = Seq::empty();
        let mut k: usize = 0;
        while k < self.edges.len()
            invariant
                self.edges@ == e0,
                k <= e0.len(),
                kept@.len() == src.len(),
                forall|p: int|
                    0 <= p < src.len() ==> 0 <= #[trigger] src[p] < k && kept@[p].a@ == e0[src[p]].a@
                        && kept@[p].b@ == e0[src[p]].b@ && e0[src[p]].a@ != id@ && e0[src[p]].b@
                        != id@,
                forall|p: int, q: int| 0 <= p < q < src.len() ==> #[trigger] src[p] < #[trigger] src[q],
                forall|j: int|
                    0 <= j < k && #[trigger] e0[j].a@ != id@ && e0[j].b@ != id@ ==> src.contains(j),
            decreases e0.len() - k,
        {
            let touches = same_text(self.edges[k].a.as_str(), id) || same_text(
                self.edges[k].b.as_str(),
                id,
            );
            if !touches {
                kept.push(Link { a: self.edges[k].a.clone(), b: self.edges[k].b.clone() });
                proof {
                    let s0 = src;
                    src = src.push(k as int);
                    assert forall|j: int|
                        0 <= j < k + 1 && #[trigger] e0[j].a@ != id@ && e0[j].b@ != id@ implies src.contains(j) by {
                        if j < k {
                            let p = choose|p: int| 0 <= p < s0.len() && s0[p] == j;
                            assert(src[p] == j);
                        } else {
                            assert(src[s0.len() as int] == j);
                        }
                    }
                }
            }
            k = k + 1;
        }
        self.edges = kept;
        proof {
            assert forall|x: Seq<char>, y: Seq<char>|
                self.linked(x, y) <==> (old(self).linked(x, y) && x != id@ && y != id@) by {
                if self.linked(x, y) {
                    let p = choose|p: int|
                        0 <= p < self.edges@.len() && #[trigger] self.edges@[p].a@ == x
                            && self.edges@[p].b@ == y;
                    assert(e0[src[p]].a@ == x);
                }
                if old(self).linked(x, y) && x != id@ && y != id@ {
                    let j = choose|j: int| 0 <= j < e0.len() && #[trigger] e0[j].a@ == x && e0[j].b@ == y;
                    assert(e0[j].a@ != id@);
                    let p = choose|p: int| 0 <= p < src.len() && src[p] == j;
                    assert(self.edges@[p].a@ == x);
                }
            }
            assert forall|i: int|
                0 <= i < self.edges@.len() implies #[trigger] self.edges@[i].a@ != self.edges@[i].b@
                && self.linked(self.edges@[i].b@, self.edges@[i].a@) by {
                let j = src[i];
                assert(e0[j].a@ == self.edges@[i].a@);
                assert(old(self).linked(e0[j].b@, e0[j].a@));
            }
            assert forall|p: int, q: int|
                0 <= p < q < self.edges@.len() implies !(#[trigger] self.edges@[p].a@
                == #[trigger] self.edges@[q].a@ && self.edges@[p].b@ == self.edges@[q].b@) by {
                assert(src[p] < src[q]);
                assert(e0[src[p]].a@ == self.edges@[p].a@);
                assert(e0[src[q]].a@ == self.edges@[q].a@);
            }
        }
    }

    /// Drop every archive no hour points at; the rest keep their order.
    /// Returns how many went.
    pub fn prune_orphaned_archives(&mut self) -> (n: usize)
        requires
            old(self).wf(),
        ensures
            final(self).wf(),
            final(self).archives@ == old(self).archives@.filter(
                |r: ArchiveRecord| old(self).archive_used(r.id@),
            ),
            n == old(self).archives@.len() - final(self).archives@.len(),
            final(self).traces@ == old(self).traces@,
            final(self).axioms@ == old(self).axioms@,
            final(self).edges@ == old(self).edges@,
            final(self).pending_night@ == old(self).pending_night@,
            final(self).last_deep_at == old(self).last_deep_at,
            final(self).merges_refused == old(self).merges_refused,
    {
        let ghost used = |r: ArchiveRecord| self.archive_used(r.id@);
        let mut kept: Vec<ArchiveRecord> = Vec::new();
        let n = self.archives.len();
        let mut i: usize = 0;
        while i < n
            invariant
                n == self.archives@.len(),
                i <= n,
                self.wf(),
                used == (|r: ArchiveRecord| self.archive_used(r.id@)),
                kept@ == self.archives@.take(i as int).filter(used),
                forall|p: int| 0 <= p < kept@.len() ==> exists|q: int|
                    0 <= q < i && #[trigger] kept@[p] == self.archives@[q],
                forall|p: int, q: int|
                    0 <= p < q < kept@.len() ==> #[trigger] kept@[p].id@ != #[trigger] kept@[q].id@,
            decreases n - i,
        {
            proof {
                reveal(Seq::filter);
                assert(self.archives@.take(i + 1).drop_last() =~= self.archives@.take(i as int));
                assert(self.archives@.take(i + 1).last() == self.archives@[i as int]);
            }
            if self.archive_in_use(self.archives[i].id.as_str()) {
                let ghost k0 = kept@;
                let r = &self.archives[i];
                kept.push(ArchiveRecord {
                    id: r.id.clone(),
                    verbatim: r.verbatim.clone(),
                    source: r.source.clone(),
                    created_at: r.created_at,
                });
                proof {
                    assert(kept@[k0.len() as int] == self.archives@[i as int]);
                    assert forall|p: int| 0 <= p < kept@.len() implies exists|q: int|
                        0 <= q < i + 1 && #[trigger] kept@[p] == self.archives@[q] by {
                        if p < k0.len() {
                            assert(kept@[p] == k0[p]);
                        } else {
                            assert(kept@[p] == self.archives@[i as int]);
                        }
                    }
                    assert forall|p: int, q: int|
                        0 <= p < q < kept@.len() implies #[trigger] kept@[p].id@ != #[trigger] kept@[q].id@ by {
                        if q == k0.len() {
                            let w = choose|w: int| 0 <= w < i && #[trigger] k0[p] == self.archives@[w];
                            assert(kept@[p] == k0[p]);
                            assert(self.archives@[w].id@ != self.archives@[i as int].id@);
                        } else {
                            assert(kept@[p] == k0[p] && kept@[q] == k0[q]);
                        }
                    }
                    assert(kept@ == self.archives@.take(i + 1).filter(used));
                }
            }
            i = i + 1;
        }
        proof {
            assert(self.archives@.take(n as int) =~= self.archives@);
            self.archives@.lemma_filter_len(used);
        }
        let gone = n - kept.len();
        self.archives = kept;
        gone
    }

    /// Drop an hour from the book. Its merge edges go with it, and its
    /// archive goes too if no other trace points at it.
    pub fn release_trace(&mut self, id: &str) -> (r: Option<MemoryTrace<N>>)
        requires
            old(self).wf(),
        ensures
            final(self).wf(),
            r is None <==> !old(self).has_trace(id@),
            r is None ==> *final(self) == *old(self),
            r matches Some(t) ==> {
                &&& t.id@ == id@
                &&& exists|i: int|
                    0 <= i < old(self).traces@.len() && old(self).traces@[i] == t
                        && final(self).traces@ == old(self).traces@.remove(i)
                &&& forall|x: Seq<char>, y: Seq<char>|
                    final(self).linked(x, y) <==> (old(self).linked(x, y) && x != id@ && y != id@)
                &&& match t.archive_id {
                    Some(aid) => if !final(self).archive_used(aid@) && old(self).has_archive(aid@) {
                        exists|k: int|
                            0 <= k < old(self).archives@.len() && old(self).archives@[k].id@ == aid@
                                && final(self).archives@ == old(self).archives@.remove(k)
                    } else {
                        final(self).archives@ == old(self).archives@
                    },
                    None => final(self).archives@ == old(self).archives@,
                }
                &&& final(self).axioms@ == old(self).axioms@
                &&& final(self).pending_night@ == old(self).pending_night@
                &&& final(self).last_deep_at == old(self).last_deep_at
                &&& final(self).merges_refused == old(self).merges_refused
            },
    {
        let i = match self.find_trace(id) {
            Some(i) => i,
            None => {
                return None;
            },
        };
        let ghost t0 = self.traces@;
        let trace = self.traces.remove(i);
        proof {
            assert forall|p: int, q: int|
                0 <= p < q < self.traces@.len() implies #[trigger] self.traces@[p].id@
                != #[trigger] self.traces@[q].id@ by {
                let pp = if p < i { p } else { p + 1 };
                let qq = if q < i { q } else { q + 1 };
                assert(self.traces@[p] == t0[pp] && self.traces@[q] == t0[qq]);
            }
        }
        let ghost mid = *self;
        self.unlink_all(id);
        let ghost unlinked = *self;
        match &trace.archive_id {
            Some(aid) => {
                if !self.archive_in_use(aid.as_str()) {
                    match self.find_archive(aid.as_str()) {
                        Some(k) => {
                            let ghost a0 = self.archives@;
                            self.archives.remove(k);
                            proof {
                                assert forall|p: int, q: int|
                                    0 <= p < q < self.archives@.len() implies #[trigger] self.archives@[p].id@
                                    != #[trigger] self.archives@[q].id@ by {
                                    let pp = if p < k { p } else { p + 1 };
                                    let qq = if q < k { q } else { q + 1 };
                                    assert(self.archives@[p] == a0[pp] && self.archives@[q]
                                        == a0[qq]);
                                }
                            }
                        },
                        None => {},
                    }
                }
            },
            None => {},
        }
        proof {
            assert(self.edges@ == unlinked.edges@);
            assert(mid.edges@ == old(self).edges@);
            assert forall|x: Seq<char>, y: Seq<char>|
                self.linked(x, y) <==> (old(self).linked(x, y) && x != id@ && y != id@) by {
                assert(self.linked(x, y) == unlinked.linked(x, y));
                assert(mid.linked(x, y) == old(self).linked(x, y));
            }
        }
        Some(trace)
    }

    /// The sealed verbatim behind a trace, if the trace and its archive exist.
    pub fn audit(&self, trace_id: &str) -> (r: Option<&str>)
        requires
            self.wf(),
        ensures
            match r {
                Some(v) => exists|i: int, k: int|
                    0 <= i < self.traces@.len() && 0 <= k < self.archives@.len()
                        && self.traces@[i].id@ == trace_id@ && (self.traces@[i].archive_id matches Some(
                        aid) && aid@ == self.archives@[k].id@) && self.archives@[k].verbatim@ == v@,
                None => forall|i: int, k: int|
                    0 <= i < self.traces@.len() && 0 <= k < self.archives@.len()
                        && #[trigger] self.traces@[i].id@ == trace_id@ ==> !(self.traces@[i].archive_id matches Some(
                        aid) && aid@ == #[trigger] self.archives@[k].id@),
            },
    {
        let i = match self.find_trace(trace_id) {
            Some(i) => i,
            None => {
                return None;
            },
        };
        let aid = match &self.traces[i].archive_id {
            Some(a) => a,
            None => {
                return None;
            },
        };
        match self.find_archive(aid.as_str()) {
            Some(k) => {
                assert(self.traces@[i as int].archive_id matches Some(a) && a@ == self.archives@[k as int].id@);
                Some(self.archives[k].verbatim.as_str())
            },
            None => None,
        }
    }
}

} // verus!
