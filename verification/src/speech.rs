//! Text rules between a stored hour and what the mouth says: the semantic
//! core a retelling is held to, clipped and split retellings, the frozen
//! fact kept next to a drifted narrative, and the query tokens that decide
//! whether a question names the episode.

use vstd::prelude::*;

use crate::model::MemoryTrace;
use crate::store::texts;
use crate::text::{
    append_chars, chars_of, class_fn, first_chars, has_infix, lowercase, lowered, pieces, same_chars,
    split_class, split_words, string_of, take_chars, trim, trim_end_by, trim_end_class, trimmed,
    views, words, CharClass,
};
use crate::wire::{more_bytes_than, utf8_len};

verus! {

// ---------------------------------------------------------------------
// Core, clip, bits.
// ---------------------------------------------------------------------

/// The core when it says something, else the gist.
pub open spec fn semantic_core(core: Seq<char>, gist: Seq<char>) -> Seq<char> {
    if trimmed(core).len() > 0 {
        core
    } else {
        gist
    }
}

pub fn semantic_core_of<N>(trace: &MemoryTrace<N>) -> (r: String)
    ensures
        r@ == semantic_core(trace.core@, trace.gist@),
{
    let c = chars_of(trace.core.as_str());
    let t = trim(&c);
    if t.len() > 0 {
        trace.core.clone()
    } else {
        trace.gist.clone()
    }
}

/// The trimmed text, cut to its first `n` chars.
pub open spec fn clipped(s: Seq<char>, n: nat) -> Seq<char> {
    first_chars(trimmed(s), n)
}

pub fn clip(s: &str, n: usize) -> (r: String)
    ensures
        r@ == clipped(s@, n as nat),
{
    let v = chars_of(s);
    let t = trim(&v);
    let c = take_chars(&t, n);
    string_of(&c)
}

/// One clause of a retelling: trimmed, trailing dots dropped.
pub open spec fn bit_of(p: Seq<char>) -> Seq<char> {
    trim_end_by(trimmed(p), class_fn(CharClass::Is('.')))
}

/// The clauses of a retelling (split on `.`, `—`, `;`, `/`) that keep at
/// least four chars.
pub open spec fn bits(s: Seq<char>) -> Seq<Seq<char>> {
    pieces(s, class_fn(CharClass::Clause)).map_values(|p: Seq<char>| bit_of(p)).filter(
        |b: Seq<char>| b.len() >= 4,
    )
}

pub fn split_bits(s: &str) -> (r: Vec<String>)
    ensures
        texts(r@) == bits(s@),
{
    let v = chars_of(s);
    let ps = split_class(&v, CharClass::Clause);
    let ghost all = views(ps@).map_values(|p: Seq<char>| bit_of(p));
    let ghost keep = |b: Seq<char>| b.len() >= 4;
    let mut out: Vec<String> = Vec::new();
    let n = ps.len();
    let mut i: usize = 0;
    while i < n
        invariant
            n == ps@.len(),
            i <= n,
            all == views(ps@).map_values(|p: Seq<char>| bit_of(p)),
            keep == (|b: Seq<char>| b.len() >= 4),
            texts(out@) == all.take(i as int).filter(keep),
        decreases n - i,
    {
        let t = trim(&ps[i]);
        let b = trim_end_class(&t, CharClass::Is('.'));
        proof {
            reveal(Seq::filter);
            assert(all.take(i + 1).drop_last() =~= all.take(i as int));
            assert(all.take(i + 1).last() == bit_of(ps@[i as int]@));
            assert(b@ == bit_of(ps@[i as int]@));
        }
        if b.len() >= 4 {
            let ghost o0 = out@;
            out.push(string_of(&b));
            assert(texts(out@) =~= texts(o0).push(b@));
        }
        i = i + 1;
    }
    proof {
        assert(all.take(n as int) =~= all);
    }
    out
}

/// The first clause of a gist (up to its first `,`, `—` or `/`), trimmed,
/// trailing dots dropped.
pub open spec fn first_clause(gist: Seq<char>) -> Seq<char> {
    bit_of(pieces(gist, class_fn(CharClass::Pause))[0])
}

/// A half-faded gist: its first clause when that keeps eight chars or
/// more (closed by a dot), else the core.
pub open spec fn faded_to_clause(gist: Seq<char>, core: Seq<char>) -> Seq<char> {
    if first_clause(gist).len() >= 8 {
        first_clause(gist) + "."@
    } else {
        core
    }
}

/// What a gist keeps once its detail has half gone (the caller decides,
/// on the fidelity, when that is).
pub fn fade_to_clause(gist: &str, core: &str) -> (r: String)
    ensures
        r@ == faded_to_clause(gist@, core@),
{
    let v = chars_of(gist);
    let ps = split_class(&v, CharClass::Pause);
    proof {
        crate::text::lemma_pieces_nonempty(v@, class_fn(CharClass::Pause));
        assert(views(ps@)[0] == ps@[0]@);
    }
    let t = trim(&ps[0]);
    let mut first = trim_end_class(&t, CharClass::Is('.'));
    if first.len() >= 8 {
        first.push('.');
        proof {
            reveal_strlit(".");
        }
        assert(first@ =~= first_clause(gist@) + "."@);
        string_of(&first)
    } else {
        core.to_owned()
    }
}

// ---------------------------------------------------------------------
// The frozen fact next to a drifted retelling.
// ---------------------------------------------------------------------

/// The words of the core longer than three chars.
pub open spec fn core_words(c: Seq<char>) -> Seq<Seq<char>> {
    words(c).filter(|w: Seq<char>| w.len() > 3)
}

/// How many of those words the (lowercased) narrative mentions.
pub open spec fn words_heard(narrative: Seq<char>, toks: Seq<Seq<char>>) -> nat {
    toks.filter(|w: Seq<char>| has_infix(lowered(narrative), lowered(w))).len()
}

/// The narrative, followed by the trimmed core when half or more of the
/// core's long words are missing from it.
pub open spec fn with_happened(narrative: Seq<char>, core: Seq<char>) -> Seq<char> {
    let c = trimmed(core);
    let toks = core_words(c);
    if c.len() == 0 {
        narrative
    } else if toks.len() > 0 && words_heard(narrative, toks) * 2 >= toks.len() {
        narrative
    } else {
        narrative + "\n(what happened: "@ + c + ")"@
    }
}

/// The long words of a text, in order.
fn long_words(c: &Vec<char>) -> (r: Vec<Vec<char>>)
    ensures
        views(r@) == core_words(c@),
{
    let ws = split_words(c);
    let ghost keep = |w: Seq<char>| w.len() > 3;
    let mut out: Vec<Vec<char>> = Vec::new();
    let n = ws.len();
    let mut i: usize = 0;
    while i < n
        invariant
            n == ws@.len(),
            i <= n,
            views(ws@) == words(c@),
            keep == (|w: Seq<char>| w.len() > 3),
            views(out@) == views(ws@).take(i as int).filter(keep),
        decreases n - i,
    {
        proof {
            reveal(Seq::filter);
            assert(views(ws@).take(i + 1).drop_last() =~= views(ws@).take(i as int));
            assert(views(ws@).take(i + 1).last() == ws@[i as int]@);
        }
        if ws[i].len() > 3 {
            let ghost o0 = out@;
            out.push(crate::text::clone_chars(&ws[i]));
            assert(views(out@) =~= views(o0).push(ws@[i as int]@));
        }
        i = i + 1;
    }
    proof {
        assert(views(ws@).take(n as int) =~= views(ws@));
    }
    out
}

/// Keep the frozen fact next to a drifted retelling.
pub fn pin_happened(narrative: &str, core: &str) -> (r: String)
    ensures
        r@ == with_happened(narrative@, core@),
{
    let cv = chars_of(core);
    let c = trim(&cv);
    if c.len() == 0 {
        return narrative.to_owned();
    }
    let low = lowercase(narrative);
    let toks = long_words(&c);
    let ghost heard = |w: Seq<char>| has_infix(lowered(narrative@), lowered(w));
    let mut hit: usize = 0;
    let n = toks.len();
    let mut i: usize = 0;
    while i < n
        invariant
            n == toks@.len(),
            i <= n,
            low@ == lowered(narrative@),
            heard == (|w: Seq<char>| has_infix(lowered(narrative@), lowered(w))),
            hit == views(toks@).take(i as int).filter(heard).len(),
            hit <= i,
        decreases n - i,
    {
        let w = string_of(toks[i].as_slice());
        let wl = lowercase(w.as_str());
        proof {
            reveal(Seq::filter);
            assert(views(toks@).take(i + 1).drop_last() =~= views(toks@).take(i as int));
            assert(views(toks@).take(i + 1).last() == toks@[i as int]@);
        }
        if crate::text::contains(low.as_str(), wl.as_str()) {
            hit = hit + 1;
        }
        i = i + 1;
    }
    proof {
        assert(views(toks@).take(n as int) =~= views(toks@));
    }
    if n > 0 && hit >= n - hit {
        return narrative.to_owned();
    }
    let mut out = chars_of(narrative);
    let head = chars_of("\n(what happened: ");
    append_chars(&mut out, &head);
    append_chars(&mut out, &c);
    out.push(')');
    proof {
        reveal_strlit(")");
        assert(out@ =~= narrative@ + "\n(what happened: "@ + c@ + ")"@);
    }
    string_of(&out)
}

// ---------------------------------------------------------------------
// Query tokens.
// ---------------------------------------------------------------------

/// Words too common to name an episode.
pub open spec fn stop_word(w: Seq<char>) -> bool {
    ||| w == "a"@ ||| w == "an"@ ||| w == "the"@ ||| w == "to"@ ||| w == "of"@ ||| w == "and"@
    ||| w == "or"@ ||| w == "in"@ ||| w == "on"@ ||| w == "for"@ ||| w == "you"@ ||| w == "your"@
    ||| w == "that"@ ||| w == "this"@ ||| w == "with"@ ||| w == "without"@ ||| w == "what"@
    ||| w == "how"@ ||| w == "do"@ ||| w == "does"@ ||| w == "make"@ ||| w == "makes"@
    ||| w == "is"@ ||| w == "are"@ ||| w == "be"@ ||| w == "it"@ ||| w == "i"@ ||| w == "i'd"@
    ||| w == "i’m"@ ||| w == "we"@ ||| w == "they"@
}

/// A token is kept when it takes more than two bytes and is no stop word.
pub open spec fn kept_token(w: Seq<char>) -> bool {
    utf8_len(w) > 2 && !stop_word(w)
}

/// The lowercased text split on every non-alphanumeric char, kept tokens only.
pub open spec fn token_list(s: Seq<char>) -> Seq<Seq<char>> {
    pieces(lowered(s), class_fn(CharClass::NotAlnum)).filter(|w: Seq<char>| kept_token(w))
}

fn is_stop(w: &str) -> (r: bool)
    ensures
        r == stop_word(w@),
{
    let words: [&str; 31] = [
        "a", "an", "the", "to", "of", "and", "or", "in", "on", "for", "you", "your", "that", "this",
        "with", "without", "what", "how", "do", "does", "make", "makes", "is", "are", "be", "it",
        "i", "i'd", "i’m", "we", "they",
    ];
    let mut k: usize = 0;
    while k < 31
        invariant
            k <= 31,
            words@ == seq![
                "a", "an", "the", "to", "of", "and", "or", "in", "on", "for", "you", "your", "that",
                "this", "with", "without", "what", "how", "do", "does", "make", "makes", "is",
                "are", "be", "it", "i", "i'd", "i’m", "we", "they",
            ],
            forall|j: int| 0 <= j < k ==> w@ != (#[trigger] words@[j])@,
        decreases 31 - k,
    {
        if crate::text::same_text(w, words[k]) {
            return true;
        }
        k = k + 1;
    }
    proof {
        if stop_word(w@) {
            assert(w@ == words@[0]@ || w@ == words@[1]@ || w@ == words@[2]@ || w@ == words@[3]@
                || w@ == words@[4]@ || w@ == words@[5]@ || w@ == words@[6]@ || w@ == words@[7]@
                || w@ == words@[8]@ || w@ == words@[9]@ || w@ == words@[10]@ || w@ == words@[11]@
                || w@ == words@[12]@ || w@ == words@[13]@ || w@ == words@[14]@ || w@
                == words@[15]@ || w@ == words@[16]@ || w@ == words@[17]@ || w@ == words@[18]@
                || w@ == words@[19]@ || w@ == words@[20]@ || w@ == words@[21]@ || w@
                == words@[22]@ || w@ == words@[23]@ || w@ == words@[24]@ || w@ == words@[25]@
                || w@ == words@[26]@ || w@ == words@[27]@ || w@ == words@[28]@ || w@
                == words@[29]@ || w@ == words@[30]@);
        }
    }
    false
}

pub fn tokens(s: &str) -> (r: Vec<String>)
    ensures
        texts(r@) == token_list(s@),
{
    let low = lowercase(s);
    let v = chars_of(low.as_str());
    let ps = split_class(&v, CharClass::NotAlnum);
    let ghost keep = |w: Seq<char>| kept_token(w);
    let mut out: Vec<String> = Vec::new();
    let n = ps.len();
    let mut i: usize = 0;
    while i < n
        invariant
            n == ps@.len(),
            i <= n,
            views(ps@) == pieces(lowered(s@), class_fn(CharClass::NotAlnum)),
            keep == (|w: Seq<char>| kept_token(w)),
            texts(out@) == views(ps@).take(i as int).filter(keep),
        decreases n - i,
    {
        proof {
            reveal(Seq::filter);
            assert(views(ps@).take(i + 1).drop_last() =~= views(ps@).take(i as int));
            assert(views(ps@).take(i + 1).last() == ps@[i as int]@);
        }
        if more_bytes_than(&ps[i], 2) {
            let w = string_of(ps[i].as_slice());
            if !is_stop(w.as_str()) {
                let ghost o0 = out@;
                out.push(w);
                assert(texts(out@) =~= texts(o0).push(ps@[i as int]@));
            }
        }
        i = i + 1;
    }
    proof {
        assert(views(ps@).take(n as int) =~= views(ps@));
    }
    out
}

/// The query names the episode: at least two of its tokens are tokens of
/// the hour's core and gist.
pub open spec fn names_episode(core: Seq<char>, gist: Seq<char>, query: Seq<char>) -> bool {
    let t = token_list(core + " "@ + gist);
    token_list(query).filter(|w: Seq<char>| t.contains(w)).len() >= 2
}

pub fn query_hits_episode<N>(trace: &MemoryTrace<N>, query: &str) -> (r: bool)
    ensures
        r == names_episode(trace.core@, trace.gist@, query@),
{
    let q = tokens(query);
    if q.len() == 0 {
        proof {
            assert(token_list(query@).filter(
                |w: Seq<char>| token_list(trace.core@ + " "@ + trace.gist@).contains(w),
            ).len() <= token_list(query@).len()) by {
                token_list(query@).lemma_filter_len(
                    |w: Seq<char>| token_list(trace.core@ + " "@ + trace.gist@).contains(w),
                );
            }
        }
        return false;
    }
    let mut blob = chars_of(trace.core.as_str());
    blob.push(' ');
    let g = chars_of(trace.gist.as_str());
    append_chars(&mut blob, &g);
    proof {
        reveal_strlit(" ");
        assert(blob@ =~= trace.core@ + " "@ + trace.gist@);
    }
    let bs = string_of(&blob);
    let t = tokens(bs.as_str());
    let ghost inside = |w: Seq<char>| token_list(trace.core@ + " "@ + trace.gist@).contains(w);
    let mut hits: usize = 0;
    let n = q.len();
    let mut i: usize = 0;
    while i < n
        invariant
            n == q@.len(),
            i <= n,
            texts(t@) == token_list(trace.core@ + " "@ + trace.gist@),
            inside == (|w: Seq<char>| token_list(trace.core@ + " "@ + trace.gist@).contains(w)),
            hits == texts(q@).take(i as int).filter(inside).len(),
            hits <= i,
        decreases n - i,
    {
        proof {
            reveal(Seq::filter);
            assert(texts(q@).take(i + 1).drop_last() =~= texts(q@).take(i as int));
            assert(texts(q@).take(i + 1).last() == q@[i as int]@);
        }
        if crate::lineage::contains_text(&t, q[i].as_str()) {
            hits = hits + 1;
        }
        i = i + 1;
    }
    proof {
        assert(texts(q@).take(n as int) =~= texts(q@));
    }
    hits >= 2
}


// ---------------------------------------------------------------------
// Grounding strikes.
// ---------------------------------------------------------------------

/// The strike count after one spoken sentence. A verbatim record, a reframe
/// of the same event close to the core, and a miss the hour no longer grips
/// leave it; a sentence that stays near the core takes one off; a miss the
/// hour still grips adds one (never past `u32::MAX`).
pub open spec fn strikes_after(strikes: u32, verbatim: bool, reframe: bool, miss: bool, grip_holds: bool) -> u32 {
    if verbatim || reframe || (miss && !grip_holds) {
        strikes
    } else if !miss {
        if strikes > 0 {
            (strikes - 1) as u32
        } else {
            0
        }
    } else if strikes == u32::MAX {
        strikes
    } else {
        (strikes + 1) as u32
    }
}

/// The sentence is a counted miss, and the count has reached the misses the
/// hour allows: its gist is due a pull toward the core.
pub open spec fn pull_due(
    strikes: u32,
    verbatim: bool,
    reframe: bool,
    miss: bool,
    grip_holds: bool,
    allowed_misses: usize,
) -> bool {
    !verbatim && !reframe && miss && grip_holds && strikes_after(strikes, verbatim, reframe, miss, grip_holds)
        >= allowed_misses
}

/// Count one spoken sentence on the hour. `reframe`: it told the same event
/// another way, close enough to the core; `miss`: it left the core;
/// `grip_holds`: the hour still grips enough to be pulled back. Returns
/// whether the gist is now due a pull toward the core.
pub fn count_strike<N>(
    trace: &mut MemoryTrace<N>,
    reframe: bool,
    miss: bool,
    grip_holds: bool,
    allowed_misses: usize,
) -> (due: bool)
    ensures
        *final(trace) == (MemoryTrace {
            detach_strikes: strikes_after(
                old(trace).detach_strikes,
                old(trace).channel.is_verbatim(),
                reframe,
                miss,
                grip_holds,
            ),
            ..*old(trace)
        }),
        due == pull_due(
            old(trace).detach_strikes,
            old(trace).channel.is_verbatim(),
            reframe,
            miss,
            grip_holds,
            allowed_misses,
        ),
{
    if trace.channel.verbatim() || reframe || (miss && !grip_holds) {
        return false;
    }
    if !miss {
        if trace.detach_strikes > 0 {
            trace.detach_strikes = trace.detach_strikes - 1;
        }
        return false;
    }
    if trace.detach_strikes < u32::MAX {
        trace.detach_strikes = trace.detach_strikes + 1;
    }
    (trace.detach_strikes as usize) >= allowed_misses
}

/// Land a pull toward the core. Where the mixed text, trimmed, differs from
/// what was said, trimmed, it becomes the gist and the count starts over;
/// otherwise the hour is left as it is. Returns whether the gist moved.
pub fn land_pull<N>(trace: &mut MemoryTrace<N>, mixed: &str, said: &str) -> (moved: bool)
    ensures
        moved == (trimmed(mixed@) != trimmed(said@)),
        !moved ==> *final(trace) == *old(trace),
        moved ==> final(trace).gist@ == mixed@ && *final(trace) == (MemoryTrace {
            gist: final(trace).gist,
            detach_strikes: 0,
            ..*old(trace)
        }),
{
    let a = trim(&chars_of(mixed));
    let b = trim(&chars_of(said));
    if same_chars(&a, &b) {
        return false;
    }
    trace.gist = mixed.to_owned();
    trace.detach_strikes = 0;
    true
}


/// How one spoken sentence moves the strike count. A reframe of the same
/// event leaves it alone whatever the miss flag, and so do a verbatim record
/// and a miss the hour no longer grips; a sentence that stays near the core
/// takes one off (never below zero); a miss the hour still grips adds one
/// (never past `u32::MAX`). A pull is due only on such a counted miss, once
/// the count reaches the misses the hour allows.
pub proof fn strikes_follow_the_sentence(
    strikes: u32,
    verbatim: bool,
    reframe: bool,
    miss: bool,
    grip_holds: bool,
    allowed_misses: usize,
)
    ensures
        reframe ==> strikes_after(strikes, verbatim, reframe, miss, grip_holds) == strikes
            && !pull_due(strikes, verbatim, reframe, miss, grip_holds, allowed_misses),
        verbatim ==> strikes_after(strikes, verbatim, reframe, miss, grip_holds) == strikes
            && !pull_due(strikes, verbatim, reframe, miss, grip_holds, allowed_misses),
        miss && !grip_holds ==> strikes_after(strikes, verbatim, reframe, miss, grip_holds) == strikes,
        !verbatim && !reframe && !miss ==> strikes_after(strikes, verbatim, reframe, miss, grip_holds)
            == (if strikes == 0 { 0 } else { strikes - 1 }),
        !verbatim && !reframe && miss && grip_holds ==> strikes_after(
            strikes,
            verbatim,
            reframe,
            miss,
            grip_holds,
        ) == (if strikes == u32::MAX { strikes as int } else { strikes + 1 }),
        pull_due(strikes, verbatim, reframe, miss, grip_holds, allowed_misses) ==> !verbatim && !reframe
            && miss && grip_holds && strikes_after(strikes, verbatim, reframe, miss, grip_holds)
            >= allowed_misses,
{
}

} // verus!
