//! The two memories the benchmark sets against SelMem: a last-k verbatim
//! log (C1) and a rolling summary beside a pinned profile (C3). Each holds
//! lines only; the narrator that speaks from them is the caller's.

use vstd::prelude::*;

use crate::probe::{last_k_window, window_of};
use crate::store::texts;
use crate::text::{chars_of, joined, string_of, views};
use crate::wire::utf8_len;

verus! {

/// Bytes the rolling summary of C3 may hold.
pub const C3_SUM_CAP: usize = 400;

/// C1: every line heard, spoken from its last `k`.
pub struct LastK {
    pub lines: Vec<String>,
    pub k: usize,
}

impl LastK {
    pub fn new(k: usize) -> (r: Self)
        ensures
            r.lines@.len() == 0,
            r.k == (if k == 0 { 1 } else { k }),
    {
        LastK { lines: Vec::new(), k: if k == 0 { 1 } else { k } }
    }

    pub fn hear(&mut self, line: &str)
        ensures
            texts(final(self).lines@) == texts(old(self).lines@).push(line@),
            final(self).k == old(self).k,
    {
        let ghost l0 = self.lines@;
        self.lines.push(line.to_owned());
        assert(texts(self.lines@) =~= texts(l0).push(line@));
    }

    /// The last `k` lines, oldest first.
    pub fn window(&self) -> (r: Vec<String>)
        ensures
            texts(r@) == texts(window_of(self.lines@, self.k as nat)),
    {
        last_k_window(self.lines.as_slice(), self.k)
    }

    /// The window as one text, a line per line.
    pub fn log_blob(&self) -> (r: String)
        ensures
            r@ == joined(texts(window_of(self.lines@, self.k as nat)), seq!['\n']),
    {
        let w = self.window();
        join_lines(&w, '\n')
    }
}

/// Join texts with one char between each two.
fn join_lines(v: &Vec<String>, sep: char) -> (r: String)
    ensures
        r@ == joined(texts(v@), seq![sep]),
{
    let mut parts: Vec<Vec<char>> = Vec::new();
    let mut i: usize = 0;
    while i < v.len()
        invariant
            i <= v@.len(),
            views(parts@) == texts(v@).take(i as int),
        decreases v@.len() - i,
    {
        let ghost p0 = parts@;
        parts.push(chars_of(v[i].as_str()));
        assert(views(parts@) =~= views(p0).push(v@[i as int]@));
        assert(texts(v@).take(i + 1) =~= texts(v@).take(i as int).push(v@[i as int]@));
        i = i + 1;
    }
    assert(texts(v@).take(v@.len() as int) =~= texts(v@));
    let mut s: Vec<char> = Vec::new();
    s.push(sep);
    let out = crate::text::join_chars(&parts, &s);
    string_of(&out)
}

/// C3: a rolling summary of the last `k` lines (at most 400 bytes, else
/// its tail), and a profile of pinned lines, each once.
pub struct ProfileMem {
    pub recent: Vec<String>,
    pub profile: Vec<String>,
    pub k: usize,
}

/// The last `k` lines once one more is heard.
pub open spec fn kept_lines(recent: Seq<Seq<char>>, line: Seq<char>, k: nat) -> Seq<Seq<char>> {
    let r = recent.push(line);
    if r.len() > k {
        r.skip(r.len() - k)
    } else {
        r
    }
}

/// The rolling summary after one more line: the last `k` lines; when they
/// join (with spaces) to more than 400 bytes, the joined text without its
/// first (bytes - 400) chars becomes the only line.
pub open spec fn rolled(recent: Seq<Seq<char>>, line: Seq<char>, k: nat) -> Seq<Seq<char>> {
    let r = recent.push(line);
    let kept = if r.len() > k { r.skip(r.len() - k) } else { r };
    let sum = joined(kept, " "@);
    if utf8_len(sum) > 400 {
        let cut = utf8_len(sum) - 400;
        seq![if cut >= sum.len() { Seq::<char>::empty() } else { sum.skip(cut) }]
    } else {
        kept
    }
}

impl ProfileMem {
    pub fn new(k: usize) -> (r: Self)
        ensures
            r.recent@.len() == 0,
            r.profile@.len() == 0,
            r.k == (if k == 0 { 1 } else { k }),
    {
        ProfileMem { recent: Vec::new(), profile: Vec::new(), k: if k == 0 { 1 } else { k } }
    }

    /// Pin a line to the profile unless it is already there.
    pub fn pin_profile(&mut self, line: &str)
        ensures
            texts(final(self).profile@) == (if texts(old(self).profile@).contains(line@) {
                texts(old(self).profile@)
            } else {
                texts(old(self).profile@).push(line@)
            }),
            final(self).recent == old(self).recent,
            final(self).k == old(self).k,
    {
        if !crate::lineage::listed(self.profile.as_slice(), line) {
            let ghost p0 = self.profile@;
            self.profile.push(line.to_owned());
            assert(texts(self.profile@) =~= texts(p0).push(line@));
        }
    }
}

/// Bytes of a text (`str::len`), for a text whose length fits.
fn byte_len(v: &Vec<char>) -> (n: usize)
    requires
        utf8_len(v@) < usize::MAX,
    ensures
        n == utf8_len(v@),
{
    let mut acc: usize = 0;
    let mut i: usize = 0;
    assert(v@.take(0) =~= Seq::<char>::empty());
    while i < v.len()
        invariant
            i <= v@.len(),
            acc == utf8_len(v@.take(i as int)),
            utf8_len(v@) < usize::MAX,
        decreases v@.len() - i,
    {
        proof {
            assert(v@.take(i + 1).drop_last() =~= v@.take(i as int));
            if i + 1 < v@.len() {
                crate::wire::lemma_prefix_bytes_grow(v@, i + 1, v@.len() as int);
            }
            assert(v@.take(v@.len() as int) =~= v@);
        }
        acc = acc + crate::wire::width(v[i]);
        i = i + 1;
    }
    assert(v@.take(v@.len() as int) =~= v@);
    acc
}

impl ProfileMem {
    /// Hear one more line: keep the last `k`, and when they join to more
    /// than 400 bytes keep only the tail of the joined text.
    pub fn hear(&mut self, line: &str)
        requires
            utf8_len(joined(kept_lines(texts(old(self).recent@), line@, old(self).k as nat), " "@))
                < usize::MAX,
        ensures
            texts(final(self).recent@) == rolled(texts(old(self).recent@), line@, old(self).k as nat),
            final(self).profile == old(self).profile,
            final(self).k == old(self).k,
    {
        let ghost r0 = texts(self.recent@).push(line@);
        let mut all: Vec<String> = Vec::new();
        let mut i: usize = 0;
        // The lines so far, then this one.
        while i < self.recent.len()
            invariant
                i <= self.recent@.len(),
                texts(all@) == texts(self.recent@).take(i as int),
            decreases self.recent@.len() - i,
        {
            let ghost a0 = all@;
            all.push(self.recent[i].clone());
            assert(texts(all@) =~= texts(a0).push(self.recent@[i as int]@));
            assert(texts(self.recent@).take(i + 1) =~= texts(self.recent@).take(i as int).push(self.recent@[i as int]@));
            i = i + 1;
        }
        assert(texts(self.recent@).take(self.recent@.len() as int) =~= texts(self.recent@));
        all.push(line.to_owned());
        assert(texts(all@) =~= r0);
        let ghost all_v = all@;
        let kept = if all.len() > self.k {
            last_k_window(all.as_slice(), self.k)
        } else {
            all
        };
        let ghost kt = kept_lines(texts(self.recent@), line@, self.k as nat);
        proof {
            if r0.len() > self.k {
                let d = r0.len() - self.k;
                assert(texts(kept@) == texts(all_v.skip(d)));
                assert(texts(all_v.skip(d)) =~= r0.skip(d));
            }
            assert(texts(kept@) == kt);
        }
        let sum = join_lines(&kept, ' ');
        assert(sum@ == joined(kt, " "@)) by {
            reveal_strlit(" ");
            assert(seq![' '] =~= " "@);
        }
        let sv = chars_of(sum.as_str());
        let bytes = byte_len(&sv);
        if bytes > C3_SUM_CAP {
            let cut = bytes - C3_SUM_CAP;
            let mut tail: Vec<char> = Vec::new();
            if cut < sv.len() {
                let mut j = cut;
                while j < sv.len()
                    invariant
                        cut <= j <= sv@.len(),
                        tail@ == sv@.subrange(cut as int, j as int),
                    decreases sv@.len() - j,
                {
                    tail.push(sv[j]);
                    assert(sv@.subrange(cut as int, j + 1) =~= sv@.subrange(cut as int, j as int).push(
                        sv@[j as int],
                    ));
                    j = j + 1;
                }
                assert(tail@ =~= sv@.skip(cut as int));
            }
            let mut one: Vec<String> = Vec::new();
            one.push(string_of(&tail));
            self.recent = one;
        } else {
            self.recent = kept;
        }
    }
}

} // verus!
