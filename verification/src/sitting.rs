//! What a sitting leaves in the book when it ends: the user's lines, with
//! one- and two-word replies folded into the line before, become chunks;
//! chunks long enough and not already sealed as talk are encoded.
//! And what a spoken hour records.

use vstd::prelude::*;

use crate::model::{ArchiveRecord, MemoryTrace};
use crate::store::{texts, MemoryStore};
use crate::text::{append_chars, chars_of, split_words, string_of, trim, trimmed, words};

verus! {

/// The user's lines, trimmed, empty ones dropped.
pub open spec fn said(users: Seq<String>) -> Seq<Seq<char>> {
    texts(users).map_values(|u: Seq<char>| trimmed(u)).filter(|s: Seq<char>| s.len() > 0)
}

/// A line of one or two words.
pub open spec fn is_short(s: Seq<char>) -> bool {
    words(s).len() <= 2
}

/// Lines folded into chunks: a short line joins the chunk before it
/// (after a newline); any other line, or a short first line, opens a chunk.
pub open spec fn chunked(lines: Seq<Seq<char>>) -> Seq<Seq<char>>
    decreases lines.len(),
{
    if lines.len() == 0 {
        Seq::empty()
    } else {
        let p = chunked(lines.drop_last());
        let l = lines.last();
        if is_short(l) && p.len() > 0 {
            p.update(p.len() - 1, p.last() + seq!['\n'] + l)
        } else {
            p.push(l)
        }
    }
}

fn word_count(v: &Vec<char>) -> (n: usize)
    ensures
        n == words(v@).len(),
{
    let ws = split_words(v);
    proof {
        assert(crate::text::views(ws@).len() == ws@.len());
    }
    ws.len()
}

/// The chunks of a sitting.
pub fn sitting_chunks(users: &[String]) -> (r: Vec<String>)
    ensures
        texts(r@) == chunked(said(users@)),
{
    let ghost tr = texts(users@).map_values(|u: Seq<char>| trimmed(u));
    let ghost ne = |s: Seq<char>| s.len() > 0;
    let mut out: Vec<Vec<char>> = Vec::new();
    let mut i: usize = 0;
    assert(tr.take(0).filter(ne) =~= Seq::<Seq<char>>::empty());
    assert(crate::text::views(out@) =~= Seq::<Seq<char>>::empty());
    while i < users.len()
        invariant
            i <= users@.len(),
            tr == texts(users@).map_values(|u: Seq<char>| trimmed(u)),
            ne == (|s: Seq<char>| s.len() > 0),
            crate::text::views(out@) == chunked(tr.take(i as int).filter(ne)),
        decreases users@.len() - i,
    {
        let line = trim(&chars_of(users[i].as_str()));
        let ghost pf = tr.take(i as int).filter(ne);
        proof {
            reveal(Seq::filter);
            assert(tr.take(i + 1).drop_last() =~= tr.take(i as int));
            assert(tr.take(i + 1).last() == line@);
        }
        if line.len() > 0 {
            proof {
                assert(tr.take(i + 1).filter(ne) == pf.push(line@));
                assert(pf.push(line@).drop_last() =~= pf);
            }
            let ghost o0 = crate::text::views(out@);
            if word_count(&line) <= 2 && out.len() > 0 {
                let last = out.len() - 1;
                let ghost before = out@;
                let mut prev = out.remove(last);
                assert(prev@ == o0.last());
                assert(out@ =~= before.take(last as int));
                prev.push('\n');
                append_chars(&mut prev, &line);
                assert(prev@ =~= o0.last() + seq!['\n'] + line@);
                out.push(prev);
                proof {
                    assert(out@ =~= before.take(last as int).push(out@[last as int]));
                    assert(crate::text::views(out@) =~= o0.update(o0.len() - 1, o0.last() + seq!['\n'] + line@));
                }
            } else {
                out.push(line);
                assert(crate::text::views(out@) =~= o0.push(line@));
            }
        } else {
            assert(tr.take(i + 1).filter(ne) == pf);
        }
        i = i + 1;
    }
    proof {
        assert(tr.take(users@.len() as int) =~= tr);
    }
    let mut r: Vec<String> = Vec::new();
    let mut k: usize = 0;
    while k < out.len()
        invariant
            k <= out@.len(),
            texts(r@) == crate::text::views(out@).take(k as int),
        decreases out@.len() - k,
    {
        let ghost r0 = r@;
        r.push(string_of(&out[k]));
        assert(texts(r@) =~= texts(r0).push(out@[k as int]@));
        assert(crate::text::views(out@).take(k + 1) =~= crate::text::views(out@).take(k as int).push(out@[k as int]@));
        k = k + 1;
    }
    assert(crate::text::views(out@).take(out@.len() as int) =~= crate::text::views(out@));
    r
}

impl<N, W> MemoryStore<N, W> {
    /// This chunk is already sealed as talk.
    pub open spec fn sealed_talk(self, chunk: Seq<char>) -> bool {
        exists|i: int|
            0 <= i < self.archives@.len() && #[trigger] self.archives@[i].source@ == "talk"@
                && self.archives@[i].verbatim@ == chunk
    }

    /// Whether this chunk is already sealed as talk.
    pub fn has_talk_archive(&self, chunk: &str) -> (r: bool)
        ensures
            r == self.sealed_talk(chunk@),
    {
        let mut i: usize = 0;
        while i < self.archives.len()
            invariant
                i <= self.archives@.len(),
                forall|j: int|
                    0 <= j < i ==> !(#[trigger] self.archives@[j].source@ == "talk"@
                        && self.archives@[j].verbatim@ == chunk@),
            decreases self.archives@.len() - i,
        {
            if crate::text::same_text(self.archives[i].source.as_str(), "talk")
                && crate::text::same_text(self.archives[i].verbatim.as_str(), chunk) {
                return true;
            }
            i = i + 1;
        }
        false
    }

    /// The chunks of a sitting to encode: more than two words, and not
    /// already sealed as talk.
    pub fn chunks_to_keep(&self, chunks: &[String]) -> (r: Vec<String>)
        ensures
            texts(r@) == texts(chunks@).filter(|c: Seq<char>| words(c).len() > 2 && !self.sealed_talk(c)),
    {
        let ghost keep = |c: Seq<char>| words(c).len() > 2 && !self.sealed_talk(c);
        let mut r: Vec<String> = Vec::new();
        let mut i: usize = 0;
        assert(texts(chunks@).take(0).filter(keep) =~= Seq::<Seq<char>>::empty());
        assert(texts(r@) =~= Seq::<Seq<char>>::empty());
        while i < chunks.len()
            invariant
                i <= chunks@.len(),
                keep == (|c: Seq<char>| words(c).len() > 2 && !self.sealed_talk(c)),
                texts(r@) == texts(chunks@).take(i as int).filter(keep),
            decreases chunks@.len() - i,
        {
            proof {
                reveal(Seq::filter);
                assert(texts(chunks@).take(i + 1).drop_last() =~= texts(chunks@).take(i as int));
                assert(texts(chunks@).take(i + 1).last() == chunks@[i as int]@);
            }
            let v = chars_of(chunks[i].as_str());
            if word_count(&v) > 2 && !self.has_talk_archive(chunks[i].as_str()) {
                let ghost r0 = r@;
                r.push(chunks[i].clone());
                assert(texts(r@) =~= texts(r0).push(chunks@[i as int]@));
            }
            i = i + 1;
        }
        proof {
            assert(texts(chunks@).take(chunks@.len() as int) =~= texts(chunks@));
        }
        r
    }

    /// A spoken hour is rehearsed once more (saturating), unless it is a
    /// verbatim record or not in the book. Returns whether it counted.
    pub fn note_spoken_hour(&mut self, trace_id: &str) -> (r: bool)
        requires
            old(self).wf(),
        ensures
            final(self).wf(),
            r == (old(self).has_trace(trace_id@) && !old(self).the_trace(trace_id@).channel.is_verbatim()),
            final(self).traces@.len() == old(self).traces@.len(),
            forall|i: int| 0 <= i < old(self).traces@.len() ==> {
                let t = old(self).traces@[i];
                let u = #[trigger] final(self).traces@[i];
                if r && t.id@ == trace_id@ {
                    u == (MemoryTrace {
                        rehearsals: if t.rehearsals == u32::MAX { u32::MAX } else { (t.rehearsals + 1) as u32 },
                        ..t
                    })
                } else {
                    u == t
                }
            },
            final(self).archives@ == old(self).archives@,
            final(self).axioms@ == old(self).axioms@,
            final(self).edges@ == old(self).edges@,
            final(self).pending_night@ == old(self).pending_night@,
            final(self).last_deep_at == old(self).last_deep_at,
            final(self).merges_refused == old(self).merges_refused,
    {
        match self.find_trace(trace_id) {
            None => false,
            Some(i) => {
                proof {
                    self.lemma_the_trace(i as int);
                }
                if self.traces[i].channel.verbatim() {
                    return false;
                }
                let ghost t0 = self.traces@;
                let n = self.traces[i].rehearsals;
                self.traces[i].rehearsals = if n == u32::MAX { n } else { n + 1 };
                proof {
                    assert forall|p: int, q: int|
                        0 <= p < q < self.traces@.len() implies #[trigger] self.traces@[p].id@
                        != #[trigger] self.traces@[q].id@ by {
                        assert(self.traces@[p].id == t0[p].id && self.traces@[q].id == t0[q].id);
                    }
                    assert forall|j: int| 0 <= j < t0.len() && j != i implies t0[j].id@ != trace_id@ by {
                        if j < i {
                            assert(t0[j].id@ != t0[i as int].id@);
                        } else {
                            assert(t0[i as int].id@ != t0[j].id@);
                        }
                    }
                }
                true
            },
        }
    }
}

} // verus!
