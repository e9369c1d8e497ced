//! The terminal report of a bench pair, given whether colour is on (the
//! caller reads `NO_COLOR`, `SELMEM_COLOR` and the terminal).

use vstd::prelude::*;

use crate::probe::RetrievalSide;
use crate::text::{append_chars, chars_of, string_of};
use crate::wire::{decimal, decimal_text};

verus! {

pub const RESET: &'static str = "\x1b[0m";
pub const BOLD: &'static str = "\x1b[1m";
pub const DIM: &'static str = "\x1b[2m";
pub const CYAN: &'static str = "\x1b[36m";
pub const GREEN: &'static str = "\x1b[32m";
pub const YELLOW: &'static str = "\x1b[33m";
pub const MAGENTA: &'static str = "\x1b[35m";
pub const RED: &'static str = "\x1b[31m";
pub const BLUE: &'static str = "\x1b[34m";

/// The text wrapped in a colour code and a reset when colour is on.
pub open spec fn painted(color: bool, code: Seq<char>, s: Seq<char>) -> Seq<char> {
    if color {
        code + s + RESET@
    } else {
        s
    }
}

pub fn paint(color: bool, code: &str, s: &str) -> (r: String)
    ensures
        r@ == painted(color, code@, s@),
{
    if color {
        let mut out = chars_of(code);
        append_chars(&mut out, &chars_of(s));
        append_chars(&mut out, &chars_of(RESET));
        string_of(&out)
    } else {
        s.to_owned()
    }
}

/// "yes" in green, or "no" dimmed.
pub open spec fn yes_no(color: bool, v: bool) -> Seq<char> {
    if v {
        painted(color, GREEN@, "yes"@)
    } else {
        painted(color, DIM@, "no"@)
    }
}

pub fn yn(color: bool, v: bool) -> (r: String)
    ensures
        r@ == yes_no(color, v),
{
    if v {
        paint(color, GREEN, "yes")
    } else {
        paint(color, DIM, "no")
    }
}

/// A T0 status in its colour: active green, myth magenta, profile blue,
/// absent dimmed, any other plain.
pub open spec fn status_shown(color: bool, s: Seq<char>) -> Seq<char> {
    if s == "active"@ {
        painted(color, GREEN@, s)
    } else if s == "myth"@ {
        painted(color, MAGENTA@, s)
    } else if s == "profile"@ {
        painted(color, BLUE@, s)
    } else if s == "absent"@ {
        painted(color, DIM@, s)
    } else {
        s
    }
}

pub fn status(color: bool, s: &str) -> (r: String)
    ensures
        r@ == status_shown(color, s@),
{
    if crate::text::same_text(s, "active") {
        paint(color, GREEN, s)
    } else if crate::text::same_text(s, "myth") {
        paint(color, MAGENTA, s)
    } else if crate::text::same_text(s, "profile") {
        paint(color, BLUE, s)
    } else if crate::text::same_text(s, "absent") {
        paint(color, DIM, s)
    } else {
        s.to_owned()
    }
}

/// Right-aligned in a field of `w` chars (`{:>w}`): spaces before, none
/// when the text is already as wide.
pub open spec fn right_aligned(s: Seq<char>, w: nat) -> Seq<char> {
    if s.len() >= w {
        s
    } else {
        Seq::new((w - s.len()) as nat, |i: int| ' ') + s
    }
}

fn pad_left(s: &Vec<char>, w: usize) -> (r: Vec<char>)
    ensures
        r@ == right_aligned(s@, w as nat),
{
    let mut out: Vec<char> = Vec::new();
    if s.len() < w {
        let k = w - s.len();
        let mut i: usize = 0;
        while i < k
            invariant
                i <= k,
                out@ == Seq::new(i as nat, |j: int| ' '),
            decreases k - i,
        {
            out.push(' ');
            assert(out@ =~= Seq::new((i + 1) as nat, |j: int| ' '));
            i = i + 1;
        }
    }
    append_chars(&mut out, s);
    assert(s@.len() >= w ==> out@ =~= s@);
    out
}

/// The rank shown: its number, or a dash.
pub open spec fn rank_shown(rank: Option<u32>) -> Seq<char> {
    match rank {
        Some(n) => decimal(n as nat),
        None => "—"@,
    }
}

/// One side's T0 line: label, whether the book holds T0, its status, its
/// rank (right-aligned in three chars), whether a probe selected it.
pub open spec fn t0_line<S>(color: bool, label: Seq<char>, code: Seq<char>, r: RetrievalSide<S>) -> Seq<char> {
    painted(color, code, label) + " book "@ + yes_no(color, r.t0_in_book) + "  "@ + status_shown(
        color,
        r.t0_status@,
    ) + "  rank "@ + right_aligned(rank_shown(r.t0_rank), 3) + "  selected "@ + yes_no(
        color,
        r.t0_selected,
    )
}

pub fn side_t0<S>(color: bool, label: &str, code: &str, r: &RetrievalSide<S>) -> (out: String)
    ensures
        out@ == t0_line(color, label@, code@, *r),
{
    let rank = match r.t0_rank {
        Some(n) => decimal_text(n as u64),
        None => "—".to_owned(),
    };
    let rank_v = chars_of(rank.as_str());
    let mut out = chars_of(paint(color, code, label).as_str());
    append_chars(&mut out, &chars_of(" book "));
    append_chars(&mut out, &chars_of(yn(color, r.t0_in_book).as_str()));
    append_chars(&mut out, &chars_of("  "));
    append_chars(&mut out, &chars_of(status(color, r.t0_status.as_str()).as_str()));
    append_chars(&mut out, &chars_of("  rank "));
    append_chars(&mut out, &pad_left(&rank_v, 3));
    append_chars(&mut out, &chars_of("  selected "));
    append_chars(&mut out, &chars_of(yn(color, r.t0_selected).as_str()));
    string_of(&out)
}

} // verus!
