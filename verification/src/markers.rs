//! The frozen marker lexicons that tell whether a line still names the
//! salient hour: the official list, and the soft list that only counts
//! where the official one is silent.
//!
//! Both match on the lowercased line, by plain substring.

use vstd::prelude::*;

use crate::model::MemoryTrace;
use crate::store::{texts, MemoryStore};
use crate::text::{chars_of, contains_seq, has_infix, lowercase, lowered};

verus! {

/// Some official marker occurs in the (already lowercased) text.
pub open spec fn official_hit(low: Seq<char>) -> bool {
    ||| has_infix(low, "injust"@)
    ||| has_infix(low, "unjust"@)
    ||| has_infix(low, "annul"@)
    ||| has_infix(low, "cancel"@)
    ||| has_infix(low, "cancelled"@)
    ||| has_infix(low, "killed and given"@)
    ||| has_infix(low, "effort did not"@)
    ||| has_infix(low, "set aside"@)
    ||| has_infix(low, "already gave"@)
    ||| has_infix(low, "not allowed to speak"@)
    ||| has_infix(low, "not allowed to answer"@)
    ||| has_infix(low, "administrative notice"@)
    ||| has_infix(low, "avis admin"@)
    ||| has_infix(low, "without a word"@)
    ||| has_infix(low, "clicked at two"@)
    ||| has_infix(low, "plate stayed"@)
    ||| has_infix(low, "sat on the floor"@)
    ||| has_infix(low, "three days"@)
    ||| has_infix(low, "keep the hall light"@)
    ||| has_infix(low, "kept the hall light"@)
}

/// Some soft marker occurs in the (already lowercased) text, or "effort"
/// occurs together with "rien", "ignored" or "ignor".
pub open spec fn soft_hit(low: Seq<char>) -> bool {
    ||| has_infix(low, "wound"@)
    ||| has_infix(low, "blessure"@)
    ||| has_infix(low, "crédit"@)
    ||| has_infix(low, "credit"@)
    ||| has_infix(low, "stolen"@)
    ||| has_infix(low, "volé"@)
    ||| has_infix(low, "door close"@)
    ||| has_infix(low, "door closes"@)
    ||| has_infix(low, "porte se ferme"@)
    ||| has_infix(low, "porte ferm"@)
    ||| has_infix(low, "not counted"@)
    ||| has_infix(low, "pas compté"@)
    ||| (has_infix(low, "effort"@) && (has_infix(low, "rien"@) || has_infix(low, "ignored"@)
        || has_infix(low, "ignor"@)))
}

/// The line names the salient hour by an official marker.
pub open spec fn marks(text: Seq<char>) -> bool {
    official_hit(lowered(text))
}

/// The line names the hour only by a soft marker: official wins.
pub open spec fn soft_marks(text: Seq<char>) -> bool {
    !marks(text) && soft_hit(lowered(text))
}

/// Lines that do not name the episode itself (no cancellation, no project,
/// no colleague, no notice).
pub open spec fn abstract_line(text: Seq<char>) -> bool {
    let low = lowered(text);
    &&& !has_infix(low, "cancel"@)
    &&& !has_infix(low, "annul"@)
    &&& !has_infix(low, "unjust"@)
    &&& !has_infix(low, "injust"@)
    &&& !has_infix(low, "project"@)
    &&& !has_infix(low, "projet"@)
    &&& !has_infix(low, "colleague"@)
    &&& !has_infix(low, "notice"@)
}

fn hit(low: &Vec<char>, key: &str) -> (r: bool)
    ensures
        r == has_infix(low@, key@),
{
    let k = chars_of(key);
    contains_seq(low, &k)
}

fn official_in(low: &Vec<char>) -> (r: bool)
    ensures
        r == official_hit(low@),
{
    hit(low, "injust") || hit(low, "unjust") || hit(low, "annul") || hit(low, "cancel") || hit(
        low,
        "cancelled",
    ) || hit(low, "killed and given") || hit(low, "effort did not") || hit(low, "set aside")
        || hit(low, "already gave") || hit(low, "not allowed to speak") || hit(
        low,
        "not allowed to answer",
    ) || hit(low, "administrative notice") || hit(low, "avis admin") || hit(low, "without a word")
        || hit(low, "clicked at two") || hit(low, "plate stayed") || hit(low, "sat on the floor")
        || hit(low, "three days") || hit(low, "keep the hall light") || hit(
        low,
        "kept the hall light",
    )
}

fn soft_in(low: &Vec<char>) -> (r: bool)
    ensures
        r == soft_hit(low@),
{
    let listed = hit(low, "wound") || hit(low, "blessure") || hit(low, "crédit") || hit(
        low,
        "credit",
    ) || hit(low, "stolen") || hit(low, "volé") || hit(low, "door close") || hit(
        low,
        "door closes",
    ) || hit(low, "porte se ferme") || hit(low, "porte ferm") || hit(low, "not counted") || hit(
        low,
        "pas compté",
    );
    if listed {
        return true;
    }
    hit(low, "effort") && (hit(low, "rien") || hit(low, "ignored") || hit(low, "ignor"))
}

/// Official marker lexicon, frozen with the experiments.
pub fn names_marker(text: &str) -> (r: bool)
    ensures
        r == marks(text@),
{
    let low = lowercase(text);
    let v = chars_of(low.as_str());
    official_in(&v)
}

/// Soft lexicon. Official wins: soft is off if official is on.
pub fn names_soft_marker(text: &str) -> (r: bool)
    ensures
        r == soft_marks(text@),
{
    if names_marker(text) {
        return false;
    }
    let low = lowercase(text);
    let v = chars_of(low.as_str());
    soft_in(&v)
}

/// A line never carries both marks: where an official marker is named, the
/// soft lexicon is not consulted.
pub proof fn soft_never_with_official(text: Seq<char>)
    ensures
        soft_marks(text) ==> !marks(text),
        marks(text) ==> !soft_marks(text),
{
}

/// The side (`a_side`: the second field, else the third) of one probe reply.
pub open spec fn side_of(r: (String, String, String), a_side: bool) -> Seq<char> {
    if a_side {
        r.1@
    } else {
        r.2@
    }
}

/// Some reply on that side names the salient hour.
pub fn marker_side(replies: &[(String, String, String)], a_side: bool) -> (r: bool)
    ensures
        r == exists|i: int| 0 <= i < replies@.len() && marks(#[trigger] side_of(replies@[i], a_side)),
{
    let mut i: usize = 0;
    while i < replies.len()
        invariant
            i <= replies@.len(),
            forall|j: int| 0 <= j < i ==> !marks(#[trigger] side_of(replies@[j], a_side)),
        decreases replies@.len() - i,
    {
        let hitting = if a_side {
            names_marker(replies[i].1.as_str())
        } else {
            names_marker(replies[i].2.as_str())
        };
        if hitting {
            assert(marks(side_of(replies@[i as int], a_side)));
            return true;
        }
        i = i + 1;
    }
    false
}

/// Some reply on that side names the hour by a soft marker only.
pub fn soft_only(replies: &[(String, String, String)], a_side: bool) -> (r: bool)
    ensures
        r == exists|i: int|
            0 <= i < replies@.len() && soft_marks(#[trigger] side_of(replies@[i], a_side)),
{
    let mut i: usize = 0;
    while i < replies.len()
        invariant
            i <= replies@.len(),
            forall|j: int| 0 <= j < i ==> !soft_marks(#[trigger] side_of(replies@[j], a_side)),
        decreases replies@.len() - i,
    {
        let hitting = if a_side {
            names_soft_marker(replies[i].1.as_str())
        } else {
            names_soft_marker(replies[i].2.as_str())
        };
        if hitting {
            assert(soft_marks(side_of(replies@[i as int], a_side)));
            return true;
        }
        i = i + 1;
    }
    false
}

/// A stance line is abstract when it names none of the episode's words.
pub fn stance_is_abstract(line: &str) -> (r: bool)
    ensures
        r == abstract_line(line@),
{
    let low = lowercase(line);
    let v = chars_of(low.as_str());
    !hit(&v, "cancel") && !hit(&v, "annul") && !hit(&v, "unjust") && !hit(&v, "injust") && !hit(
        &v,
        "project",
    ) && !hit(&v, "projet") && !hit(&v, "colleague") && !hit(&v, "notice")
}

impl<N, W> MemoryStore<N, W> {
    /// The sealed record behind this trace names the salient hour.
    pub open spec fn archive_marks(self, t: MemoryTrace<N>) -> bool {
        t.archive_id matches Some(aid) && exists|k: int|
            0 <= k < self.archives@.len() && #[trigger] self.archives@[k].id@ == aid@ && marks(
                self.archives@[k].verbatim@,
            )
    }

    /// The trace names the salient hour in its gist, its core or its archive.
    pub open spec fn marked(self, t: MemoryTrace<N>) -> bool {
        marks(t.gist@) || marks(t.core@) || self.archive_marks(t)
    }

    /// Ids of the traces that name the salient hour, in book order.
    pub fn marked_ids(&self) -> (r: Vec<String>)
        requires
            self.wf(),
        ensures
            texts(r@) == self.traces@.filter(|t: MemoryTrace<N>| self.marked(t)).map_values(
                |t: MemoryTrace<N>| t.id@,
            ),
    {
        let ghost keep = |t: MemoryTrace<N>| self.marked(t);
        let mut out: Vec<String> = Vec::new();
        let mut i: usize = 0;
        while i < self.traces.len()
            invariant
                i <= self.traces@.len(),
                self.wf(),
                keep == (|t: MemoryTrace<N>| self.marked(t)),
                texts(out@) == self.traces@.take(i as int).filter(keep).map_values(
                    |t: MemoryTrace<N>| t.id@,
                ),
            decreases self.traces@.len() - i,
        {
            let t = &self.traces[i];
            let mut archive_hit = false;
            match &t.archive_id {
                Some(aid) => {
                    match self.find_archive(aid.as_str()) {
                        Some(k) => {
                            archive_hit = names_marker(self.archives[k].verbatim.as_str());
                            proof {
                                if !archive_hit {
                                    assert forall|k2: int|
                                        0 <= k2 < self.archives@.len()
                                            && #[trigger] self.archives@[k2].id@ == aid@ implies !marks(
                                        self.archives@[k2].verbatim@,
                                    ) by {
                                        if k2 != k as int {
                                            if k2 < k as int {
                                                assert(self.archives@[k2].id@
                                                    != self.archives@[k as int].id@);
                                            } else {
                                                assert(self.archives@[k as int].id@
                                                    != self.archives@[k2].id@);
                                            }
                                        }
                                    }
                                }
                            }
                        },
                        None => {},
                    }
                },
                None => {},
            }
            let m = names_marker(t.gist.as_str()) || names_marker(t.core.as_str()) || archive_hit;
            let ghost prev = self.traces@.take(i as int).filter(keep);
            let ghost x = self.traces@[i as int];
            let ghost before = out@;
            proof {
                assert(m == keep(x));
                reveal(Seq::filter);
                assert(self.traces@.take(i as int + 1).drop_last() =~= self.traces@.take(i as int));
                assert(self.traces@.take(i as int + 1).last() == x);
                assert(self.traces@.take(i as int + 1).filter(keep) == (if keep(x) {
                    prev.push(x)
                } else {
                    prev
                }));
            }
            if m {
                out.push(t.id.clone());
                proof {
                    assert(prev.push(x).map_values(|t: MemoryTrace<N>| t.id@) =~= prev.map_values(
                        |t: MemoryTrace<N>| t.id@,
                    ).push(x.id@));
                    assert(texts(out@) =~= texts(before).push(x.id@));
                }
            }
            i = i + 1;
        }
        proof {
            assert(self.traces@.take(self.traces@.len() as int) == self.traces@);
        }
        out
    }
}


/// The official markers as frozen with the experiments, in their order.
pub open spec fn frozen_markers() -> Seq<Seq<char>> {
    seq!["injust"@, "unjust"@, "annul"@, "cancel"@, "cancelled"@, "killed and given"@, "effort did not"@, "set aside"@, "already gave"@, "not allowed to speak"@, "not allowed to answer"@, "administrative notice"@, "avis admin"@, "without a word"@, "clicked at two"@, "plate stayed"@, "sat on the floor"@, "three days"@, "keep the hall light"@, "kept the hall light"@]
}

/// A line names the salient hour by an official marker exactly when its
/// lowercased text holds one of the frozen official markers: injust,
/// unjust, annul, cancel, cancelled, killed and given, effort did not, set
/// aside, already gave, not allowed to speak, not allowed to answer,
/// administrative notice, avis admin, without a word, clicked at two, plate
/// stayed, sat on the floor, three days, keep the hall light, kept the hall light.
pub proof fn official_markers_are_the_frozen_list(text: Seq<char>)
    ensures
        marks(text) <==> exists|k: int|
            0 <= k < frozen_markers().len() && #[trigger] has_infix(lowered(text), frozen_markers()[k]),
{
    let l = frozen_markers();
    let low = lowered(text);
    if marks(text) {
        if has_infix(low, "injust"@) {
            assert(l[0] == "injust"@);
        }
        if has_infix(low, "unjust"@) {
            assert(l[1] == "unjust"@);
        }
        if has_infix(low, "annul"@) {
            assert(l[2] == "annul"@);
        }
        if has_infix(low, "cancel"@) {
            assert(l[3] == "cancel"@);
        }
        if has_infix(low, "cancelled"@) {
            assert(l[4] == "cancelled"@);
        }
        if has_infix(low, "killed and given"@) {
            assert(l[5] == "killed and given"@);
        }
        if has_infix(low, "effort did not"@) {
            assert(l[6] == "effort did not"@);
        }
        if has_infix(low, "set aside"@) {
            assert(l[7] == "set aside"@);
        }
        if has_infix(low, "already gave"@) {
            assert(l[8] == "already gave"@);
        }
        if has_infix(low, "not allowed to speak"@) {
            assert(l[9] == "not allowed to speak"@);
        }
        if has_infix(low, "not allowed to answer"@) {
            assert(l[10] == "not allowed to answer"@);
        }
        if has_infix(low, "administrative notice"@) {
            assert(l[11] == "administrative notice"@);
        }
        if has_infix(low, "avis admin"@) {
            assert(l[12] == "avis admin"@);
        }
        if has_infix(low, "without a word"@) {
            assert(l[13] == "without a word"@);
        }
        if has_infix(low, "clicked at two"@) {
            assert(l[14] == "clicked at two"@);
        }
        if has_infix(low, "plate stayed"@) {
            assert(l[15] == "plate stayed"@);
        }
        if has_infix(low, "sat on the floor"@) {
            assert(l[16] == "sat on the floor"@);
        }
        if has_infix(low, "three days"@) {
            assert(l[17] == "three days"@);
        }
        if has_infix(low, "keep the hall light"@) {
            assert(l[18] == "keep the hall light"@);
        }
        if has_infix(low, "kept the hall light"@) {
            assert(l[19] == "kept the hall light"@);
        }
    }
    if exists|k: int| 0 <= k < 20 && #[trigger] has_infix(low, l[k]) {
        let k = choose|k: int| 0 <= k < 20 && #[trigger] has_infix(low, l[k]);
        if k == 0 {
            assert(l[0] == "injust"@);
        } else if k == 1 {
            assert(l[1] == "unjust"@);
        } else if k == 2 {
            assert(l[2] == "annul"@);
        } else if k == 3 {
            assert(l[3] == "cancel"@);
        } else if k == 4 {
            assert(l[4] == "cancelled"@);
        } else if k == 5 {
            assert(l[5] == "killed and given"@);
        } else if k == 6 {
            assert(l[6] == "effort did not"@);
        } else if k == 7 {
            assert(l[7] == "set aside"@);
        } else if k == 8 {
            assert(l[8] == "already gave"@);
        } else if k == 9 {
            assert(l[9] == "not allowed to speak"@);
        } else if k == 10 {
            assert(l[10] == "not allowed to answer"@);
        } else if k == 11 {
            assert(l[11] == "administrative notice"@);
        } else if k == 12 {
            assert(l[12] == "avis admin"@);
        } else if k == 13 {
            assert(l[13] == "without a word"@);
        } else if k == 14 {
            assert(l[14] == "clicked at two"@);
        } else if k == 15 {
            assert(l[15] == "plate stayed"@);
        } else if k == 16 {
            assert(l[16] == "sat on the floor"@);
        } else if k == 17 {
            assert(l[17] == "three days"@);
        } else if k == 18 {
            assert(l[18] == "keep the hall light"@);
        } else if k == 19 {
            assert(l[19] == "kept the hall light"@);
        }
    }
}

} // verus!
