//! Benchmark v0.1 conditions, arms, scripts and options.
//!
//! C0 = no book. C1 = last-k verbatim log. C2 = SelMem.
//! C2NoSleep = SelMem with every night skipped.
//! C2Static = gate on, then freeze (no sleep / recon / ground / ladder).
//! C2NoRecon / C2NoLadder / C2NoGround = one organ pass cut (P0 ablations).
//! C3 = rolling summary + persistent profile.

use vstd::prelude::*;

use crate::model::OrganCut;
use crate::retrieve::RecallBias;
use crate::store::texts;
use crate::text::{append_chars, chars_of, string_of};
use crate::wire::{array_field, decimal, decimal_text, json_str, json_str_array, string_field};

verus! {

/// Last-k window of the C1 log when nothing else is asked.
pub const LAST_K_DEFAULT: usize = 24;

#[derive(Clone, Copy, Debug, PartialEq, Eq, Structural)]
pub enum Condition {
    C0,
    C1,
    C2,
    C2NoSleep,
    C2Static,
    C2NoRecon,
    C2NoLadder,
    C2NoGround,
    C3,
}

/// The name under which a condition is reported.
pub open spec fn condition_name(c: Condition) -> Seq<char> {
    match c {
        Condition::C0 => "c0_nomem"@,
        Condition::C1 => "c1_lastk"@,
        Condition::C2 => "c2_selmem"@,
        Condition::C2NoSleep => "c2_nosleep"@,
        Condition::C2Static => "c2_static"@,
        Condition::C2NoRecon => "c2_norecon"@,
        Condition::C2NoLadder => "c2_noladder"@,
        Condition::C2NoGround => "c2_noground"@,
        Condition::C3 => "c3_profile"@,
    }
}

/// The SelMem conditions: they keep a book of their own.
pub open spec fn keeps_book(c: Condition) -> bool {
    c is C2 || c is C2NoSleep || c is C2Static || c is C2NoRecon || c is C2NoLadder
        || c is C2NoGround
}

/// The SelMem conditions that also sleep.
pub open spec fn keeps_nights(c: Condition) -> bool {
    c is C2 || c is C2NoRecon || c is C2NoLadder || c is C2NoGround
}

/// The organ cut that a condition runs with.
pub open spec fn cut_of(c: Condition) -> OrganCut {
    match c {
        Condition::C2Static => OrganCut {
            reconsolidate: false,
            ground: false,
            ladder: false,
            reconstruct: false,
            util_to_strength: false,
            merge_support_veto: false,
        },
        Condition::C2NoRecon => OrganCut { reconsolidate: false, ..OrganCut::spec_full() },
        Condition::C2NoLadder => OrganCut { ladder: false, ..OrganCut::spec_full() },
        Condition::C2NoGround => OrganCut { ground: false, ..OrganCut::spec_full() },
        _ => OrganCut::spec_full(),
    }
}

impl Condition {
    pub fn as_str(self) -> (r: &'static str)
        ensures
            r@ == condition_name(self),
    {
        match self {
            Condition::C0 => "c0_nomem",
            Condition::C1 => "c1_lastk",
            Condition::C2 => "c2_selmem",
            Condition::C2NoSleep => "c2_nosleep",
            Condition::C2Static => "c2_static",
            Condition::C2NoRecon => "c2_norecon",
            Condition::C2NoLadder => "c2_noladder",
            Condition::C2NoGround => "c2_noground",
            Condition::C3 => "c3_profile",
        }
    }

    /// The condition writes hours into a SelMem book.
    pub fn encodes(self) -> (r: bool)
        ensures
            r == keeps_book(self),
    {
        match self {
            Condition::C2 | Condition::C2NoSleep | Condition::C2Static | Condition::C2NoRecon
            | Condition::C2NoLadder | Condition::C2NoGround => true,
            _ => false,
        }
    }

    /// The condition runs the night passes.
    pub fn sleeps(self) -> (r: bool)
        ensures
            r == keeps_nights(self),
    {
        match self {
            Condition::C2 | Condition::C2NoRecon | Condition::C2NoLadder
            | Condition::C2NoGround => true,
            _ => false,
        }
    }

    pub fn cut(self) -> (r: OrganCut)
        ensures
            r == cut_of(self),
    {
        match self {
            Condition::C2Static => OrganCut::static_book(),
            Condition::C2NoRecon => OrganCut::no_recon(),
            Condition::C2NoLadder => OrganCut::no_ladder(),
            Condition::C2NoGround => OrganCut::no_ground(),
            _ => OrganCut::full(),
        }
    }

    pub fn v01_grid() -> (r: [Condition; 3])
        ensures
            r@ == seq![Condition::C0, Condition::C1, Condition::C2],
    {
        [Condition::C0, Condition::C1, Condition::C2]
    }

    pub fn p0_grid() -> (r: [Condition; 8])
        ensures
            r@ == seq![
                Condition::C1,
                Condition::C3,
                Condition::C2,
                Condition::C2NoSleep,
                Condition::C2Static,
                Condition::C2NoRecon,
                Condition::C2NoLadder,
                Condition::C2NoGround,
            ],
    {
        [
            Condition::C1,
            Condition::C3,
            Condition::C2,
            Condition::C2NoSleep,
            Condition::C2Static,
            Condition::C2NoRecon,
            Condition::C2NoLadder,
            Condition::C2NoGround,
        ]
    }

    /// P4 main table: same k, static and no-sleep are cells, not notes.
    pub fn p4_grid() -> (r: [Condition; 5])
        ensures
            r@ == seq![
                Condition::C1,
                Condition::C2Static,
                Condition::C2NoSleep,
                Condition::C2,
                Condition::C3,
            ],
    {
        [Condition::C1, Condition::C2Static, Condition::C2NoSleep, Condition::C2, Condition::C3]
    }
}

/// Every condition that sleeps keeps a book, and only the static freeze
/// and the no-sleep cell keep one without nights.
pub proof fn sleeping_conditions_keep_a_book(c: Condition)
    ensures
        keeps_nights(c) ==> keeps_book(c),
        keeps_book(c) && !keeps_nights(c) <==> (c is C2Static || c is C2NoSleep),
{
}

#[derive(Clone, Copy, Debug, PartialEq, Eq, Structural)]
pub enum Arm {
    SalientNeutral,
    SalientSalient,
}

impl Arm {
    pub fn as_str(self) -> (r: &'static str)
        ensures
            self is SalientNeutral ==> r@ == "salient_neutral"@,
            self is SalientSalient ==> r@ == "salient_salient"@,
    {
        match self {
            Arm::SalientNeutral => "salient_neutral",
            Arm::SalientSalient => "salient_salient",
        }
    }
}

/// The lines of one scripted pair: shared sync hours, the salient hour(s)
/// for A, the neutral or second salient hour(s) for B, shared posts, probes.
#[derive(Clone, Debug)]
pub struct V01Script {
    pub sync: Vec<String>,
    pub salient_x: String,
    pub salient_y: String,
    pub neutral: String,
    pub salient_xs: Vec<String>,
    pub salient_ys: Vec<String>,
    pub neutrals: Vec<String>,
    pub c3_profile_a: String,
    pub c3_profile_b: String,
    pub c3_profile_y: String,
    pub post: Vec<String>,
    pub behavior: Vec<String>,
    pub creativity: Vec<String>,
    pub wave2_xs: Vec<String>,
    pub wave2_ys: Vec<String>,
    pub wave2_neutrals: Vec<String>,
}

/// The texts of a list of borrowed lines.
pub open spec fn line_texts(v: Seq<&str>) -> Seq<Seq<char>> {
    v.map_values(|s: &str| s@)
}

/// The list when it has lines, else the single line.
pub open spec fn list_or_one(list: Seq<String>, one: String) -> Seq<Seq<char>> {
    if list.len() == 0 {
        seq![one@]
    } else {
        texts(list)
    }
}

/// Borrow every line of a list, in order.
fn borrow_lines<'a>(v: &'a Vec<String>) -> (r: Vec<&'a str>)
    ensures
        line_texts(r@) == texts(v@),
{
    let mut r: Vec<&'a str> = Vec::new();
    let mut i: usize = 0;
    while i < v.len()
        invariant
            i <= v@.len(),
            line_texts(r@) == texts(v@.take(i as int)),
        decreases v@.len() - i,
    {
        let ghost before = r@;
        r.push(v[i].as_str());
        proof {
            assert(line_texts(r@) =~= line_texts(before).push(v@[i as int]@));
            assert(texts(v@.take(i as int + 1)) =~= texts(v@.take(i as int)).push(v@[i as int]@));
        }
        i = i + 1;
    }
    proof {
        assert(v@.take(v@.len() as int) =~= v@);
    }
    r
}

/// The list when it has lines, else the single line.
fn lines_or<'a>(list: &'a Vec<String>, one: &'a String) -> (r: Vec<&'a str>)
    ensures
        line_texts(r@) == list_or_one(list@, *one),
{
    if list.len() == 0 {
        let mut r: Vec<&'a str> = Vec::new();
        r.push(one.as_str());
        proof {
            assert(line_texts(r@) =~= seq![one@]);
        }
        r
    } else {
        borrow_lines(list)
    }
}

impl V01Script {
    /// A's salient hours: the list, or the single salient line.
    pub fn hours_a(&self) -> (r: Vec<&str>)
        ensures
            line_texts(r@) == list_or_one(self.salient_xs@, self.salient_x),
    {
        lines_or(&self.salient_xs, &self.salient_x)
    }

    /// B's hours: neutral ones in the salient/neutral arm, the second
    /// salient ones in the salient/salient arm.
    pub fn hours_b(&self, arm: Arm) -> (r: Vec<&str>)
        ensures
            arm is SalientNeutral ==> line_texts(r@) == list_or_one(self.neutrals@, self.neutral),
            arm is SalientSalient ==> line_texts(r@) == list_or_one(
                self.salient_ys@,
                self.salient_y,
            ),
    {
        match arm {
            Arm::SalientNeutral => lines_or(&self.neutrals, &self.neutral),
            Arm::SalientSalient => lines_or(&self.salient_ys, &self.salient_y),
        }
    }

    pub fn hours_wave2_a(&self) -> (r: Vec<&str>)
        ensures
            line_texts(r@) == texts(self.wave2_xs@),
    {
        borrow_lines(&self.wave2_xs)
    }

    pub fn hours_wave2_b(&self, arm: Arm) -> (r: Vec<&str>)
        ensures
            arm is SalientNeutral ==> line_texts(r@) == texts(self.wave2_neutrals@),
            arm is SalientSalient ==> line_texts(r@) == texts(self.wave2_ys@),
    {
        match arm {
            Arm::SalientNeutral => borrow_lines(&self.wave2_neutrals),
            Arm::SalientSalient => borrow_lines(&self.wave2_ys),
        }
    }
}

#[derive(Clone, Copy, Debug)]
pub struct BenchOpts {
    pub last_k: usize,
    pub persist_script: bool,
    pub ruminate_script: bool,
    pub sparse_probes: bool,
    pub recall_bias: RecallBias,
    pub util_to_strength: bool,
    pub merge_support_veto: bool,
    pub hearth_script: bool,
    pub axioms_only: bool,
}

impl Default for BenchOpts {
    fn default() -> (o: Self)
        ensures
            o.last_k == LAST_K_DEFAULT,
            !o.persist_script,
            !o.ruminate_script,
            !o.sparse_probes,
            o.recall_bias == RecallBias::Observed,
            !o.util_to_strength,
            !o.merge_support_veto,
            !o.hearth_script,
            !o.axioms_only,
    {
        BenchOpts {
            last_k: LAST_K_DEFAULT,
            persist_script: false,
            ruminate_script: false,
            sparse_probes: false,
            recall_bias: RecallBias::Observed,
            util_to_strength: false,
            merge_support_veto: false,
            hearth_script: false,
            axioms_only: false,
        }
    }
}

/// The suffix that names the P2/P3 cuts in a pair id.
pub open spec fn tag_of(util: bool, veto: bool) -> Seq<char> {
    if util && veto {
        "_util_veto"@
    } else if util {
        "_util"@
    } else if veto {
        "_veto"@
    } else {
        ""@
    }
}

impl BenchOpts {
    pub fn cut_tag(self) -> (r: &'static str)
        ensures
            r@ == tag_of(self.util_to_strength, self.merge_support_veto),
    {
        match (self.util_to_strength, self.merge_support_veto) {
            (false, false) => "",
            (true, false) => "_util",
            (false, true) => "_veto",
            (true, true) => "_util_veto",
        }
    }

    /// The condition's cut with the two option switches laid over it.
    pub fn apply_cut(self, cut: OrganCut) -> (r: OrganCut)
        ensures
            r == (OrganCut {
                util_to_strength: self.util_to_strength,
                merge_support_veto: self.merge_support_veto,
                ..cut
            }),
    {
        let mut c = cut;
        c.util_to_strength = self.util_to_strength;
        c.merge_support_veto = self.merge_support_veto;
        c
    }
}

// ---------------------------------------------------------------------
// The decisions of one pair run.
// ---------------------------------------------------------------------

/// Which scripted pair a run plays.
#[derive(Clone, Copy, Debug, PartialEq, Eq, Structural)]
pub enum ScriptKind {
    V01,
    Persist,
    Ruminate,
    Hearth,
}

/// The hearth script wins over rumination, rumination over persist, and
/// the v0.1 script plays when none is asked.
pub fn script_choice(opts: BenchOpts) -> (k: ScriptKind)
    ensures
        k == (if opts.hearth_script {
            ScriptKind::Hearth
        } else if opts.ruminate_script {
            ScriptKind::Ruminate
        } else if opts.persist_script {
            ScriptKind::Persist
        } else {
            ScriptKind::V01
        }),
{
    if opts.hearth_script {
        ScriptKind::Hearth
    } else if opts.ruminate_script {
        ScriptKind::Ruminate
    } else if opts.persist_script {
        ScriptKind::Persist
    } else {
        ScriptKind::V01
    }
}

/// The schema A's marked hours are filed under: "hearth" in the hearth script.
pub fn hour_schema(opts: BenchOpts) -> (r: Option<&'static str>)
    ensures
        opts.hearth_script ==> (r matches Some(s) && s@ == "hearth"@),
        !opts.hearth_script ==> r is None,
{
    if opts.hearth_script {
        Some("hearth")
    } else {
        None
    }
}

/// Creativity items are only asked in the v0.1 script.
pub fn asks_creativity(opts: BenchOpts) -> (r: bool)
    ensures
        r == !(opts.persist_script || opts.ruminate_script || opts.hearth_script),
{
    !(opts.persist_script || opts.ruminate_script || opts.hearth_script)
}

/// Probes run after post lines 1, 4 and the last; sparse runs probe only
/// after the last.
pub fn probes_after(step: usize, last: usize, sparse: bool) -> (r: bool)
    ensures
        r == (if sparse {
            step == last
        } else {
            step == 1 || step == last || step == 4
        }),
{
    if sparse {
        step == last
    } else {
        step == 1 || step == last || step == 4
    }
}

/// A number in decimal, zero-padded to three digits (`{:03}`).
pub open spec fn padded3(n: nat) -> Seq<char> {
    let d = decimal(n);
    if d.len() >= 3 {
        d
    } else {
        Seq::new((3 - d.len()) as nat, |i: int| '0') + d
    }
}

/// The id of a pair: condition, cut tag (SelMem conditions only), arm,
/// and the pair's index on three digits.
pub open spec fn pair_name(condition: Condition, opts: BenchOpts, arm: Arm, idx: nat) -> Seq<char> {
    let tag = if condition is C1 || condition is C3 {
        ""@
    } else {
        tag_of(opts.util_to_strength, opts.merge_support_veto)
    };
    let arm_name = if arm is SalientNeutral {
        "salient_neutral"@
    } else {
        "salient_salient"@
    };
    condition_name(condition) + tag + "_"@ + arm_name + "_"@ + padded3(idx)
}

pub fn pair_id(condition: Condition, opts: BenchOpts, arm: Arm, idx: usize) -> (r: String)
    ensures
        r@ == pair_name(condition, opts, arm, idx as nat),
{
    proof {
        reveal_strlit("_");
        reveal_strlit("");
    }
    let ghost tag = if condition is C1 || condition is C3 {
        ""@
    } else {
        tag_of(opts.util_to_strength, opts.merge_support_veto)
    };
    let ghost arm_name = if arm is SalientNeutral {
        "salient_neutral"@
    } else {
        "salient_salient"@
    };
    let mut out = chars_of(condition.as_str());
    let plain = match condition {
        Condition::C1 | Condition::C3 => true,
        _ => false,
    };
    if !plain {
        append_chars(&mut out, &chars_of(opts.cut_tag()));
    } else {
        assert(out@ =~= condition_name(condition) + tag);
    }
    assert(out@ == condition_name(condition) + tag);
    out.push('_');
    append_chars(&mut out, &chars_of(arm.as_str()));
    out.push('_');
    let ghost head = condition_name(condition) + tag + "_"@ + arm_name + "_"@;
    assert(out@ =~= head);
    let digits = chars_of(decimal_text(idx as u64).as_str());
    let d = digits.len();
    // Leading zeros up to three digits.
    let mut k = d;
    while k < 3
        invariant
            d <= k,
            d < 3 ==> k <= 3,
            d >= 3 ==> k == d,
            out@ == head + Seq::new((k - d) as nat, |i: int| '0'),
        decreases 3 - k,
    {
        out.push('0');
        assert(out@ =~= head + Seq::new((k + 1 - d) as nat, |i: int| '0'));
        k = k + 1;
    }
    append_chars(&mut out, &digits);
    proof {
        if d >= 3 {
            assert(Seq::new((k - d) as nat, |i: int| '0') =~= Seq::<char>::empty());
            assert(out@ =~= head + digits@);
        } else {
            assert(k == 3);
            assert(out@ =~= head + (Seq::new((3 - d) as nat, |i: int| '0') + digits@));
        }
    }
    string_of(&out)
}


/// Probes run after this post line.
pub open spec fn probes_at(step: nat, last: nat, sparse: bool) -> bool {
    if sparse {
        step == last
    } else {
        step == 1 || step == last || step == 4
    }
}

/// One step of a benchmark pair; each step is taken by both sides.
#[derive(Clone, Copy, Debug, PartialEq, Eq, Structural)]
pub enum Step {
    /// Live (or hear) the shared sync lines.
    Sync,
    /// Sleep.
    Sleep,
    /// Probe before the hours; a sparse run asks no behaviour probes here.
    ProbePre { full: bool },
    /// Live the hours: A its marked hours, B those of its arm.
    Hours,
    /// Stamp the marked hours as spoken.
    StampSpoken,
    /// Live the second wave of hours (hearth script).
    SecondWave,
    /// Probe right after the hours.
    ProbeT0,
    /// Live post line `n` (from 1).
    Post { n: usize },
    /// Probe after post line `n`.
    ProbePost { n: usize },
    /// Ask the creativity items.
    Creativity,
}

/// The post lines `1..=n`, each followed by its probe when one is due
/// (after a night, when the sides sleep).
pub open spec fn post_steps(n: nat, last: nat, sparse: bool, sleeps: bool) -> Seq<Step>
    decreases n,
{
    if n == 0 {
        Seq::empty()
    } else {
        post_steps((n - 1) as nat, last, sparse, sleeps) + seq![Step::Post { n: n as usize }] + if probes_at(
            n,
            last,
            sparse,
        ) {
            (if sleeps {
                seq![Step::Sleep]
            } else {
                Seq::empty()
            }) + seq![Step::ProbePost { n: n as usize }]
        } else {
            Seq::empty()
        }
    }
}

/// The steps of a pair up to and including the probe right after the
/// hours. The C1 log and the C3 profile hear every line and never sleep;
/// C1 hears the second wave of the hearth script, C3 does not. A SelMem side
/// lives the lines only when its condition keeps a book, and sleeps after
/// each block only when it keeps nights.
pub open spec fn pair_head(c: Condition, opts: BenchOpts) -> Seq<Step> {
    let pre = seq![Step::ProbePre { full: !opts.sparse_probes }];
    if c is C1 || c is C3 {
        seq![Step::Sync] + pre + seq![Step::Hours] + (if c is C1 && opts.hearth_script {
            seq![Step::SecondWave]
        } else {
            Seq::empty()
        }) + seq![Step::ProbeT0]
    } else {
        let book = keeps_book(c);
        let night = if keeps_nights(c) {
            seq![Step::Sleep]
        } else {
            Seq::<Step>::empty()
        };
        (if book {
            seq![Step::Sync] + night
        } else {
            Seq::empty()
        }) + pre + (if book {
            seq![Step::Hours] + night + (if opts.util_to_strength {
                seq![Step::StampSpoken]
            } else {
                Seq::empty()
            }) + (if opts.hearth_script {
                seq![Step::SecondWave] + night
            } else {
                Seq::empty()
            })
        } else {
            Seq::empty()
        }) + seq![Step::ProbeT0]
    }
}

/// The steps after the hours: the post lines with their probes, a single
/// probe as after line 8 when there is no post line to live (no post line
/// at all for C1 and C3, no book for a SelMem side), then the creativity
/// items of the v0.1 script on a SelMem side.
pub open spec fn pair_tail(c: Condition, opts: BenchOpts, post_len: nat) -> Seq<Step> {
    let sparse = opts.sparse_probes;
    if c is C1 || c is C3 {
        post_steps(post_len, post_len, sparse, false) + if post_len == 0 {
            seq![Step::ProbePost { n: 8 }]
        } else {
            Seq::empty()
        }
    } else {
        (if keeps_book(c) {
            post_steps(post_len, post_len, sparse, keeps_nights(c))
        } else {
            seq![Step::ProbePost { n: 8 }]
        }) + if !(opts.persist_script || opts.ruminate_script || opts.hearth_script) {
            seq![Step::Creativity]
        } else {
            Seq::empty()
        }
    }
}

/// The steps of one pair.
pub open spec fn pair_steps(c: Condition, opts: BenchOpts, post_len: nat) -> Seq<Step> {
    pair_head(c, opts) + pair_tail(c, opts, post_len)
}

/// Append the post lines and their probes.
fn push_post(out: &mut Vec<Step>, post_len: usize, sparse: bool, sleeps: bool)
    ensures
        final(out)@ == old(out)@ + post_steps(post_len as nat, post_len as nat, sparse, sleeps),
{
    let mut i: usize = 0;
    while i < post_len
        invariant
            i <= post_len,
            out@ == old(out)@ + post_steps(i as nat, post_len as nat, sparse, sleeps),
        decreases post_len - i,
    {
        let ghost o0 = out@;
        let n = i + 1;
        out.push(Step::Post { n });
        if probes_after(n, post_len, sparse) {
            if sleeps {
                out.push(Step::Sleep);
            }
            out.push(Step::ProbePost { n });
        }
        proof {
            let tail = if probes_at(n as nat, post_len as nat, sparse) {
                (if sleeps {
                    seq![Step::Sleep]
                } else {
                    Seq::empty()
                }) + seq![Step::ProbePost { n: n as usize }]
            } else {
                Seq::empty()
            };
            assert(post_steps(n as nat, post_len as nat, sparse, sleeps) == post_steps(
                i as nat,
                post_len as nat,
                sparse,
                sleeps,
            ) + seq![Step::Post { n: n as usize }] + tail);
            assert(out@ =~= old(out)@ + post_steps(n as nat, post_len as nat, sparse, sleeps));
        }
        i = n;
    }
}

fn head_steps(condition: Condition, opts: BenchOpts) -> (r: Vec<Step>)
    ensures
        r@ == pair_head(condition, opts),
{
    let sparse = opts.sparse_probes;
    let mut out: Vec<Step> = Vec::new();
    if condition == Condition::C1 || condition == Condition::C3 {
        out.push(Step::Sync);
        out.push(Step::ProbePre { full: !sparse });
        out.push(Step::Hours);
        if condition == Condition::C1 && opts.hearth_script {
            out.push(Step::SecondWave);
        }
        out.push(Step::ProbeT0);
        assert(out@ =~= pair_head(condition, opts));
        return out;
    }
    let book = condition.encodes();
    let sleeps = condition.sleeps();
    let ghost night = if sleeps {
        seq![Step::Sleep]
    } else {
        Seq::<Step>::empty()
    };
    if book {
        out.push(Step::Sync);
        if sleeps {
            out.push(Step::Sleep);
        }
    }
    let ghost a = out@;
    assert(a =~= if book {
        seq![Step::Sync] + night
    } else {
        Seq::empty()
    });
    out.push(Step::ProbePre { full: !sparse });
    let ghost b = out@;
    if book {
        out.push(Step::Hours);
        if sleeps {
            out.push(Step::Sleep);
        }
        if opts.util_to_strength {
            out.push(Step::StampSpoken);
        }
        if opts.hearth_script {
            out.push(Step::SecondWave);
            if sleeps {
                out.push(Step::Sleep);
            }
        }
    }
    let ghost c = out@;
    assert(c =~= b + if book {
        seq![Step::Hours] + night + (if opts.util_to_strength {
            seq![Step::StampSpoken]
        } else {
            Seq::empty()
        }) + (if opts.hearth_script {
            seq![Step::SecondWave] + night
        } else {
            Seq::empty()
        })
    } else {
        Seq::empty()
    });
    out.push(Step::ProbeT0);
    assert(out@ =~= pair_head(condition, opts));
    out
}

/// When each side of a pair lives, sleeps and is probed, from the
/// condition, the options and the number of post lines.
pub fn pair_schedule(condition: Condition, opts: BenchOpts, post_len: usize) -> (r: Vec<Step>)
    ensures
        r@ == pair_steps(condition, opts, post_len as nat),
{
    let mut out = head_steps(condition, opts);
    let ghost head = out@;
    if condition == Condition::C1 || condition == Condition::C3 {
        push_post(&mut out, post_len, opts.sparse_probes, false);
        if post_len == 0 {
            out.push(Step::ProbePost { n: 8 });
        }
    } else {
        if condition.encodes() {
            push_post(&mut out, post_len, opts.sparse_probes, condition.sleeps());
        } else {
            out.push(Step::ProbePost { n: 8 });
        }
        if asks_creativity(opts) {
            out.push(Step::Creativity);
        }
    }
    assert(out@ =~= head + pair_tail(condition, opts, post_len as nat));
    out
}


/// A list field of a script, or nothing when it is missing or unreadable.
pub open spec fn list_or_none(o: Option<Seq<Seq<char>>>) -> Seq<Seq<char>> {
    match o {
        Some(v) => v,
        None => Seq::empty(),
    }
}

/// A text field of a script, or the empty text.
pub open spec fn text_or_none(o: Option<Seq<char>>) -> Seq<char> {
    match o {
        Some(v) => v,
        None => Seq::empty(),
    }
}

fn list_field(raw: &str, key: &str) -> (r: Vec<String>)
    ensures
        texts(r@) == list_or_none(array_field(raw@, key@)),
{
    match json_str_array(raw, key) {
        Some(v) => v,
        None => {
            let none: Vec<String> = Vec::new();
            assert(texts(none@) =~= Seq::<Seq<char>>::empty());
            none
        },
    }
}

fn text_field(raw: &str, key: &str) -> (r: String)
    ensures
        r@ == text_or_none(string_field(raw@, key@)),
{
    match json_str(raw, key) {
        Some(v) => v,
        None => String::new(),
    }
}

/// A script from its JSON text: each field read by name, a missing or
/// unreadable one empty; the creativity items are the `items` array of
/// `creative` when it is given.
pub fn parse_v01(raw: &str, creative: Option<&str>) -> (s: V01Script)
    ensures
        texts(s.sync@) == list_or_none(array_field(raw@, "sync"@)),
        s.salient_x@ == text_or_none(string_field(raw@, "salient_x"@)),
        s.salient_y@ == text_or_none(string_field(raw@, "salient_y"@)),
        s.neutral@ == text_or_none(string_field(raw@, "neutral"@)),
        texts(s.salient_xs@) == list_or_none(array_field(raw@, "salient_xs"@)),
        texts(s.salient_ys@) == list_or_none(array_field(raw@, "salient_ys"@)),
        texts(s.neutrals@) == list_or_none(array_field(raw@, "neutrals"@)),
        s.c3_profile_a@ == text_or_none(string_field(raw@, "c3_profile_a"@)),
        s.c3_profile_b@ == text_or_none(string_field(raw@, "c3_profile_b"@)),
        s.c3_profile_y@ == text_or_none(string_field(raw@, "c3_profile_y"@)),
        texts(s.post@) == list_or_none(array_field(raw@, "post"@)),
        texts(s.behavior@) == list_or_none(array_field(raw@, "behavior"@)),
        texts(s.creativity@) == match creative {
            Some(c) => list_or_none(array_field(c@, "items"@)),
            None => Seq::empty(),
        },
        texts(s.wave2_xs@) == list_or_none(array_field(raw@, "wave2_xs"@)),
        texts(s.wave2_ys@) == list_or_none(array_field(raw@, "wave2_ys"@)),
        texts(s.wave2_neutrals@) == list_or_none(array_field(raw@, "wave2_neutrals"@)),
{
    let creativity = match creative {
        Some(c) => list_field(c, "items"),
        None => {
            let none: Vec<String> = Vec::new();
            assert(texts(none@) =~= Seq::<Seq<char>>::empty());
            none
        },
    };
    V01Script {
        sync: list_field(raw, "sync"),
        salient_x: text_field(raw, "salient_x"),
        salient_y: text_field(raw, "salient_y"),
        neutral: text_field(raw, "neutral"),
        salient_xs: list_field(raw, "salient_xs"),
        salient_ys: list_field(raw, "salient_ys"),
        neutrals: list_field(raw, "neutrals"),
        c3_profile_a: text_field(raw, "c3_profile_a"),
        c3_profile_b: text_field(raw, "c3_profile_b"),
        c3_profile_y: text_field(raw, "c3_profile_y"),
        post: list_field(raw, "post"),
        behavior: list_field(raw, "behavior"),
        creativity,
        wave2_xs: list_field(raw, "wave2_xs"),
        wave2_ys: list_field(raw, "wave2_ys"),
        wave2_neutrals: list_field(raw, "wave2_neutrals"),
    }
}

} // verus!
