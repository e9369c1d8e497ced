//! What the HTTP face writes and reads: responses, JSON string escaping,
//! the names of statuses and drift kinds, a masked key, query parameters.

use vstd::prelude::*;

use crate::model::{DriftKind, LlmBind, TraceStatus};
use crate::store::texts;
use crate::text::{
    append_chars, chars_of, class_fn, joined, find_from, first_occurrence, has_infix, lemma_first_occurrence,
    matches_at, occurs_at, pieces, starts_with, string_of, trim_start_by, trim_start_class, trimmed,
    trim, white, is_white, CharClass,
};

verus! {

#[derive(Clone, Debug)]
pub struct HttpResponse {
    pub status: u16,
    pub body: String,
}

// ---------------------------------------------------------------------
// JSON string escaping.
// ---------------------------------------------------------------------

/// Lowercase hex digit of `n` (below 16).
pub open spec fn hex_digit(n: u32) -> char {
    if n == 0 { '0' } else if n == 1 { '1' } else if n == 2 { '2' } else if n == 3 { '3' }
    else if n == 4 { '4' } else if n == 5 { '5' } else if n == 6 { '6' } else if n == 7 { '7' }
    else if n == 8 { '8' } else if n == 9 { '9' } else if n == 10 { 'a' } else if n == 11 { 'b' }
    else if n == 12 { 'c' } else if n == 13 { 'd' } else if n == 14 { 'e' } else { 'f' }
}

/// How one char is written inside a JSON string: quote and backslash
/// behind a backslash, the usual short escapes, any other control char as
/// `\u00XX`, everything else as itself.
pub open spec fn escape_char(c: char) -> Seq<char> {
    if c == '"' {
        seq!['\\', '"']
    } else if c == '\\' {
        seq!['\\', '\\']
    } else if c == '\n' {
        seq!['\\', 'n']
    } else if c == '\r' {
        seq!['\\', 'r']
    } else if c == '\t' {
        seq!['\\', 't']
    } else if c == '\x08' {
        seq!['\\', 'b']
    } else if c == '\x0c' {
        seq!['\\', 'f']
    } else if (c as u32) < 0x20 {
        seq!['\\', 'u', '0', '0', hex_digit((c as u32) / 16), hex_digit((c as u32) % 16)]
    } else {
        seq![c]
    }
}

/// The whole text, escaped char by char.
pub open spec fn escaped(s: Seq<char>) -> Seq<char>
    decreases s.len(),
{
    if s.len() == 0 {
        Seq::empty()
    } else {
        escaped(s.drop_last()) + escape_char(s.last())
    }
}

/// The value of a hex digit, either case.
pub open spec fn hex_value(c: char) -> Option<u32> {
    let u = c as u32;
    if 0x30 <= u <= 0x39 {
        Some((u - 0x30) as u32)
    } else if 0x61 <= u <= 0x66 {
        Some((u - 0x61 + 10) as u32)
    } else if 0x41 <= u <= 0x46 {
        Some((u - 0x41 + 10) as u32)
    } else {
        None
    }
}

/// The char a two-char escape `\x` stands for in a JSON string.
pub open spec fn short_escape(c: char) -> Option<char> {
    if c == '"' {
        Some('"')
    } else if c == '\\' {
        Some('\\')
    } else if c == '/' {
        Some('/')
    } else if c == 'b' {
        Some('\x08')
    } else if c == 'f' {
        Some('\x0c')
    } else if c == 'n' {
        Some('\n')
    } else if c == 'r' {
        Some('\r')
    } else if c == 't' {
        Some('\t')
    } else {
        None
    }
}

/// The code unit written by the four hex digits of a `\uXXXX` escape at `i`.
pub open spec fn unicode_escape_at(e: Seq<char>, i: int) -> Option<u32> {
    if i + 4 <= e.len() {
        match (hex_value(e[i]), hex_value(e[i + 1]), hex_value(e[i + 2]), hex_value(e[i + 3])) {
            (Some(a), Some(b), Some(c), Some(d)) => Some((a * 4096 + b * 256 + c * 16 + d) as u32),
            _ => None,
        }
    } else {
        None
    }
}

/// Reads the inside of a JSON string literal: `None` where the text holds a
/// raw quote or control char or a malformed escape. A `\u` escape of a
/// surrogate half (which JSON pairs with a second one) is not read here.
pub open spec fn json_unescape(e: Seq<char>) -> Option<Seq<char>>
    decreases e.len(),
{
    if e.len() == 0 {
        Some(Seq::empty())
    } else if e[0] == '\\' {
        if e.len() >= 2 && e[1] == 'u' {
            match unicode_escape_at(e, 2) {
                Some(v) => if 0xD800 <= v <= 0xDFFF {
                    None
                } else {
                    match json_unescape(e.subrange(6, e.len() as int)) {
                        Some(r) => Some(seq![v as char] + r),
                        None => None,
                    }
                },
                None => None,
            }
        } else if e.len() >= 2 {
            match short_escape(e[1]) {
                Some(c) => match json_unescape(e.subrange(2, e.len() as int)) {
                    Some(r) => Some(seq![c] + r),
                    None => None,
                },
                None => None,
            }
        } else {
            None
        }
    } else if e[0] == '"' || (e[0] as u32) < 0x20 {
        None
    } else {
        match json_unescape(e.drop_first()) {
            Some(r) => Some(seq![e[0]] + r),
            None => None,
        }
    }
}

/// Reads a whole JSON string literal, quotes included.
pub open spec fn json_string_literal(e: Seq<char>) -> Option<Seq<char>> {
    if e.len() >= 2 && e[0] == '"' && e.last() == '"' {
        json_unescape(e.subrange(1, e.len() - 1))
    } else {
        None
    }
}

/// Text that needs no escape: no quote, no backslash, no control char.
pub open spec fn plain_json_text(s: Seq<char>) -> bool {
    forall|i: int| 0 <= i < s.len() ==> #[trigger] s[i] != '"' && s[i] != '\\' && (s[i] as u32) >= 0x20
}

/// Escaping two pieces one after the other escapes their concatenation.
pub proof fn lemma_escaped_concat(a: Seq<char>, b: Seq<char>)
    ensures
        escaped(a + b) == escaped(a) + escaped(b),
    decreases b.len(),
{
    if b.len() == 0 {
        assert(a + b =~= a);
        assert(escaped(a) + escaped(b) =~= escaped(a));
    } else {
        lemma_escaped_concat(a, b.drop_last());
        assert((a + b).drop_last() =~= a + b.drop_last());
        assert((a + b).last() == b.last());
        assert(escaped(a + b) =~= escaped(a) + escaped(b));
    }
}

proof fn lemma_escaped_front(s: Seq<char>)
    requires
        s.len() > 0,
    ensures
        escaped(s) == escape_char(s[0]) + escaped(s.drop_first()),
{
    lemma_escaped_concat(seq![s[0]], s.drop_first());
    assert(seq![s[0]] + s.drop_first() =~= s);
    let one = seq![s[0]];
    assert(one.drop_last() =~= Seq::<char>::empty());
    assert(one.last() == s[0]);
    assert(escaped(one.drop_last()).len() == 0);
    assert(escaped(one) =~= escape_char(s[0]));
}

proof fn lemma_hex_round_trip(n: u32)
    requires
        n < 16,
    ensures
        hex_value(hex_digit(n)) == Some(n),
{
}

/// One escaped char in front of the rest reads back as that char in front.
proof fn lemma_unescape_front(c: char, r: Seq<char>)
    ensures
        json_unescape(escape_char(c) + r) == match json_unescape(r) {
            Some(x) => Some(seq![c] + x),
            None => None,
        },
{
    let e = escape_char(c) + r;
    if c == '"' || c == '\\' || c == '\n' || c == '\r' || c == '\t' || c == '\x08' || c == '\x0c' {
        assert(e.subrange(2, e.len() as int) =~= r);
    } else if (c as u32) < 0x20 {
        let u = c as u32;
        lemma_hex_round_trip(u / 16);
        lemma_hex_round_trip(u % 16);
        assert(e[2] == '0' && e[3] == '0');
        assert(e[4] == hex_digit(u / 16) && e[5] == hex_digit(u % 16));
        assert(unicode_escape_at(e, 2) == Some(u));
        assert((u as char) == c);
        assert(e.subrange(6, e.len() as int) =~= r);
    } else {
        assert(e.drop_first() =~= r);
    }
}

/// Read back, the escaped text is the text: `"` + escaped(s) + `"` is one
/// JSON string literal whose value is exactly `s`.
pub proof fn escaped_reads_back(s: Seq<char>)
    ensures
        json_unescape(escaped(s)) == Some(s),
        json_string_literal(seq!['"'] + escaped(s) + seq!['"']) == Some(s),
    decreases s.len(),
{
    if s.len() == 0 {
        assert(escaped(s) =~= Seq::<char>::empty());
    } else {
        escaped_reads_back(s.drop_first());
        lemma_escaped_front(s);
        lemma_unescape_front(s[0], escaped(s.drop_first()));
        assert(seq![s[0]] + s.drop_first() =~= s);
    }
    let lit = seq!['"'] + escaped(s) + seq!['"'];
    assert(lit.subrange(1, lit.len() - 1) =~= escaped(s));
}

/// Text with no quote, backslash or control char is left as it is.
pub proof fn escaped_keeps_plain_text(s: Seq<char>)
    requires
        plain_json_text(s),
    ensures
        escaped(s) == s,
    decreases s.len(),
{
    if s.len() > 0 {
        assert(plain_json_text(s.drop_last())) by {
            assert forall|i: int| 0 <= i < s.drop_last().len() implies #[trigger] s.drop_last()[i] != '"'
                && s.drop_last()[i] != '\\' && (s.drop_last()[i] as u32) >= 0x20 by {
                assert(s.drop_last()[i] == s[i]);
            }
        }
        escaped_keeps_plain_text(s.drop_last());
        let c = s.last();
        assert(s[s.len() - 1] == c);
        assert(escape_char(c) == seq![c]);
        assert(s.drop_last().push(c) =~= s);
        assert(escaped(s) =~= s);
    }
}

fn hex(n: u32) -> (c: char)
    requires
        n < 16,
    ensures
        c == hex_digit(n),
{
    match n {
        0 => '0',
        1 => '1',
        2 => '2',
        3 => '3',
        4 => '4',
        5 => '5',
        6 => '6',
        7 => '7',
        8 => '8',
        9 => '9',
        10 => 'a',
        11 => 'b',
        12 => 'c',
        13 => 'd',
        14 => 'e',
        _ => 'f',
    }
}

fn push_escaped(out: &mut Vec<char>, c: char)
    ensures
        final(out)@ == old(out)@ + escape_char(c),
{
    let u: u32 = c as u32;
    if c == '"' {
        out.push('\\');
        out.push('"');
    } else if c == '\\' {
        out.push('\\');
        out.push('\\');
    } else if c == '\n' {
        out.push('\\');
        out.push('n');
    } else if c == '\r' {
        out.push('\\');
        out.push('r');
    } else if c == '\t' {
        out.push('\\');
        out.push('t');
    } else if c == '\x08' {
        out.push('\\');
        out.push('b');
    } else if c == '\x0c' {
        out.push('\\');
        out.push('f');
    } else if u < 0x20 {
        out.push('\\');
        out.push('u');
        out.push('0');
        out.push('0');
        out.push(hex(u / 16));
        out.push(hex(u % 16));
    } else {
        out.push(c);
    }
    assert(final(out)@ =~= old(out)@ + escape_char(c));
}

fn escape_into(out: &mut Vec<char>, s: &str)
    ensures
        final(out)@ == old(out)@ + escaped(s@),
{
    let v = chars_of(s);
    let n = v.len();
    let mut i: usize = 0;
    while i < n
        invariant
            n == v@.len(),
            v@ == s@,
            i <= n,
            out@ == old(out)@ + escaped(v@.take(i as int)),
        decreases n - i,
    {
        let ghost o0 = out@;
        push_escaped(out, v[i]);
        proof {
            assert(v@.take(i + 1).drop_last() =~= v@.take(i as int));
            assert(v@.take(i + 1).last() == v@[i as int]);
            assert(out@ =~= old(out)@ + escaped(v@.take(i + 1)));
        }
        i = i + 1;
    }
    proof {
        assert(v@.take(n as int) =~= v@);
    }
}

/// The text escaped for a JSON string literal (without the quotes).
pub fn json_esc(s: &str) -> (r: String)
    ensures
        r@ == escaped(s@),
{
    let mut out: Vec<char> = Vec::new();
    escape_into(&mut out, s);
    assert(out@ =~= escaped(s@));
    string_of(&out)
}

// ---------------------------------------------------------------------
// Responses.
// ---------------------------------------------------------------------

pub fn ok(body: String) -> (r: HttpResponse)
    ensures
        r.status == 200,
        r.body == body,
{
    HttpResponse { status: 200, body }
}

/// The JSON object `{"error":"<msg>"}` with the message escaped.
pub open spec fn error_body(msg: Seq<char>) -> Seq<char> {
    "{\"error\":\""@ + escaped(msg) + "\"}"@
}

pub fn err(status: u16, msg: &str) -> (r: HttpResponse)
    ensures
        r.status == status,
        r.body@ == error_body(msg@),
{
    let mut out = chars_of("{\"error\":\"");
    escape_into(&mut out, msg);
    let tail = chars_of("\"}");
    append_chars(&mut out, &tail);
    HttpResponse { status, body: string_of(&out) }
}

// ---------------------------------------------------------------------
// Names.
// ---------------------------------------------------------------------

pub open spec fn status_word(s: TraceStatus) -> Seq<char> {
    match s {
        TraceStatus::Active => "active"@,
        TraceStatus::Cold => "cold"@,
        TraceStatus::Myth => "myth"@,
        TraceStatus::Latent => "latent"@,
    }
}

/// Drift kinds as the event feed names them (`amplify` for disgust amplification).
pub open spec fn drift_event_word(k: DriftKind) -> Seq<char> {
    match k {
        DriftKind::Embellish => "embellish"@,
        DriftKind::AmplifyDisgust => "amplify"@,
        DriftKind::Fade => "fade"@,
        DriftKind::Merge => "merge"@,
        DriftKind::Weather => "weather"@,
        DriftKind::Rewrite => "rewrite"@,
        DriftKind::Reinterpret => "reinterpret"@,
        DriftKind::Ground => "ground"@,
        DriftKind::Color => "color"@,
    }
}

pub fn status_name(s: TraceStatus) -> (r: &'static str)
    ensures
        r@ == status_word(s),
{
    match s {
        TraceStatus::Active => "active",
        TraceStatus::Cold => "cold",
        TraceStatus::Myth => "myth",
        TraceStatus::Latent => "latent",
    }
}

pub fn drift_name(k: DriftKind) -> (r: &'static str)
    ensures
        r@ == drift_event_word(k),
{
    match k {
        DriftKind::Embellish => "embellish",
        DriftKind::AmplifyDisgust => "amplify",
        DriftKind::Fade => "fade",
        DriftKind::Merge => "merge",
        DriftKind::Weather => "weather",
        DriftKind::Rewrite => "rewrite",
        DriftKind::Reinterpret => "reinterpret",
        DriftKind::Ground => "ground",
        DriftKind::Color => "color",
    }
}

// ---------------------------------------------------------------------
// Numbers and lists.
// ---------------------------------------------------------------------

/// Decimal digit of `d` (below 10).
pub open spec fn digit(d: nat) -> char {
    hex_digit(d as u32)
}

/// `n` written in decimal, without leading zeros.
pub open spec fn decimal(n: nat) -> Seq<char>
    decreases n,
{
    if n < 10 {
        seq![digit(n)]
    } else {
        decimal(n / 10).push(digit(n % 10))
    }
}

/// An unsigned number in decimal (`to_string`).
pub fn decimal_text(n: u64) -> (r: String)
    ensures
        r@ == decimal(n as nat),
{
    let mut rev: Vec<char> = Vec::new();
    let mut m: u64 = n;
    // Digits from the last one back.
    while m >= 10
        invariant
            decimal(n as nat) == decimal(m as nat) + rev@.reverse(),
        decreases m,
    {
        let ghost r0 = rev@;
        rev.push(hex((m % 10) as u32));
        proof {
            assert(decimal(m as nat) == decimal((m / 10) as nat).push(digit((m % 10) as nat)));
            assert(rev@.reverse() =~= seq![digit((m % 10) as nat)] + r0.reverse());
            assert(decimal(m as nat) + r0.reverse() =~= decimal((m / 10) as nat) + rev@.reverse());
        }
        m = m / 10;
    }
    rev.push(hex(m as u32));
    let mut out: Vec<char> = Vec::new();
    let k = rev.len();
    let mut i: usize = 0;
    while i < k
        invariant
            k == rev@.len(),
            i <= k,
            out@ == rev@.reverse().take(i as int),
        decreases k - i,
    {
        out.push(rev[k - 1 - i]);
        assert(rev@.reverse().take(i + 1) =~= rev@.reverse().take(i as int).push(
            rev@[k - 1 - i],
        ));
        i = i + 1;
    }
    proof {
        assert(rev@.reverse().take(k as int) =~= rev@.reverse());
        assert(decimal(n as nat) =~= rev@.reverse());
    }
    string_of(&out)
}

/// A rank in JSON: the number, or `null`.
pub open spec fn rank_json(v: Option<u32>) -> Seq<char> {
    match v {
        Some(n) => decimal(n as nat),
        None => "null"@,
    }
}

pub fn opt_u32(v: Option<u32>) -> (r: String)
    ensures
        r@ == rank_json(v),
{
    match v {
        Some(n) => decimal_text(n as u64),
        None => "null".to_owned(),
    }
}

/// One id as a JSON string literal.
pub open spec fn quoted(s: Seq<char>) -> Seq<char> {
    seq!['"'] + escaped(s) + seq!['"']
}

/// The ids as the inside of a JSON array: quoted, escaped, comma-separated.
pub open spec fn ids_list(ids: Seq<String>) -> Seq<char> {
    joined(ids.map_values(|s: String| quoted(s@)), seq![','])
}

pub fn ids_json(ids: &[String]) -> (r: String)
    ensures
        r@ == ids_list(ids@),
{
    let ghost q = ids@.map_values(|s: String| quoted(s@));
    let mut out: Vec<char> = Vec::new();
    let n = ids.len();
    let mut i: usize = 0;
    while i < n
        invariant
            n == ids@.len(),
            i <= n,
            q == ids@.map_values(|s: String| quoted(s@)),
            out@ == joined(q.take(i as int), seq![',']),
        decreases n - i,
    {
        let ghost o0 = out@;
        if i > 0 {
            out.push(',');
        }
        let ghost o1 = out@;
        out.push('"');
        escape_into(&mut out, ids[i].as_str());
        out.push('"');
        proof {
            assert(q.take(i + 1).drop_last() =~= q.take(i as int));
            assert(q.take(i + 1).last() == quoted(ids@[i as int]@));
            assert(out@ =~= o1 + quoted(ids@[i as int]@));
            if i == 0 {
                assert(q.take(1).len() == 1);
                assert(out@ =~= q.take(1)[0]);
            } else {
                assert(out@ =~= o0 + seq![','] + q.take(i + 1).last());
            }
        }
        i = i + 1;
    }
    proof {
        assert(q.take(n as int) =~= q);
    }
    string_of(&out)
}

// ---------------------------------------------------------------------
// Reading a body and a query string.
// ---------------------------------------------------------------------

/// The chars of `v` from position `a` to position `b`.
fn chars_between(v: &Vec<char>, a: usize, b: usize) -> (r: Vec<char>)
    requires
        a <= b <= v@.len(),
    ensures
        r@ == v@.subrange(a as int, b as int),
{
    let mut r: Vec<char> = Vec::new();
    let mut j = a;
    while j < b
        invariant
            a <= j <= b,
            b <= v@.len(),
            r@ == v@.subrange(a as int, j as int),
        decreases b - j,
    {
        r.push(v[j]);
        assert(v@.subrange(a as int, j + 1) =~= v@.subrange(a as int, j as int).push(v@[j as int]));
        j = j + 1;
    }
    r
}

/// The flag written after `"key"` in a JSON body: after the first
/// occurrence of the quoted key, skip colons and whitespace, then read
/// `true` or `false`.
pub open spec fn bool_field(body: Seq<char>, key: Seq<char>) -> Option<bool> {
    let needle = seq!['"'] + key + seq!['"'];
    if !has_infix(body, needle) {
        None
    } else {
        let rest = trim_start_by(
            body.skip(first_occurrence(body, needle) + needle.len()),
            class_fn(CharClass::ColonOrWhite),
        );
        if occurs_at(rest, "true"@, 0) {
            Some(true)
        } else if occurs_at(rest, "false"@, 0) {
            Some(false)
        } else {
            None
        }
    }
}

pub fn json_bool(body: &str, key: &str) -> (r: Option<bool>)
    ensures
        r == bool_field(body@, key@),
{
    let b = chars_of(body);
    let mut needle: Vec<char> = Vec::new();
    needle.push('"');
    let k = chars_of(key);
    append_chars(&mut needle, &k);
    needle.push('"');
    assert(needle@ =~= seq!['"'] + key@ + seq!['"']);
    match find_from(&b, &needle, 0) {
        None => None,
        Some(i) => {
            proof {
                lemma_first_occurrence(b@, needle@, i as int);
            }
            let nl = needle.len();
            assert(occurs_at(b@, needle@, i as int));
            assert(i + nl <= b.len());
            let after = chars_between(&b, i + nl, b.len());
            assert(after@ =~= b@.skip(i + needle@.len()));
            let rest = trim_start_class(&after, CharClass::ColonOrWhite);
            if starts_with(&rest, "true") {
                Some(true)
            } else if starts_with(&rest, "false") {
                Some(false)
            } else {
                None
            }
        },
    }
}

/// The text after the first `"key"` in the body and the colons and
/// spaces that follow it.
pub open spec fn after_key(body: Seq<char>, key: Seq<char>) -> Option<Seq<char>> {
    let needle = seq!['"'] + key + seq!['"'];
    if !has_infix(body, needle) {
        None
    } else {
        Some(
            trim_start_by(
                body.skip(first_occurrence(body, needle) + needle.len()),
                class_fn(CharClass::ColonOrWhite),
            ),
        )
    }
}

/// Where the JSON string literal whose inside starts at `i` closes: the
/// first quote not behind a backslash.
pub open spec fn literal_end(s: Seq<char>, i: int) -> Option<int>
    decreases s.len() - i,
{
    if i < 0 || i >= s.len() {
        None
    } else if s[i] == '"' {
        Some(i)
    } else if s[i] == '\\' {
        if i + 1 >= s.len() {
            None
        } else {
            literal_end(s, i + 2)
        }
    } else {
        literal_end(s, i + 1)
    }
}

/// The string value of the first `"key"` of a JSON body: the literal right
/// after it (behind the colon), read.
pub open spec fn string_field(body: Seq<char>, key: Seq<char>) -> Option<Seq<char>> {
    match after_key(body, key) {
        Some(rest) => if rest.len() > 0 && rest[0] == '"' {
            match literal_end(rest, 1) {
                Some(e) => json_unescape(rest.subrange(1, e)),
                None => None,
            }
        } else {
            None
        },
        None => None,
    }
}

/// Calls `char::from_u32`: the char with that code point for every value
/// that is not a surrogate and not past `0x10FFFF`, and `None` for the others.
#[verifier::external_body]
fn char_of(v: u32) -> (r: Option<char>)
    ensures
        (v < 0xD800 || (0xE000 <= v && v <= 0x10FFFF)) ==> r == Some(v as char),
        !(v < 0xD800 || (0xE000 <= v && v <= 0x10FFFF)) ==> r is None,
{
    char::from_u32(v)
}

fn hex_of(c: char) -> (r: Option<u32>)
    ensures
        r == hex_value(c),
{
    let u: u32 = c as u32;
    if 0x30 <= u && u <= 0x39 {
        Some(u - 0x30)
    } else if 0x61 <= u && u <= 0x66 {
        Some(u - 0x61 + 10)
    } else if 0x41 <= u && u <= 0x46 {
        Some(u - 0x41 + 10)
    } else {
        None
    }
}

/// The first unit of the inside of a JSON string literal: the char it
/// stands for and how many chars it takes.
pub open spec fn step_at(e: Seq<char>) -> Option<(char, int)> {
    if e[0] == '\\' {
        if e.len() >= 2 && e[1] == 'u' {
            match unicode_escape_at(e, 2) {
                Some(v) => if 0xD800 <= v <= 0xDFFF {
                    None
                } else {
                    Some((v as char, 6int))
                },
                None => None,
            }
        } else if e.len() >= 2 {
            match short_escape(e[1]) {
                Some(c) => Some((c, 2int)),
                None => None,
            }
        } else {
            None
        }
    } else if e[0] == '"' || (e[0] as u32) < 0x20 {
        None
    } else {
        Some((e[0], 1int))
    }
}

/// `out` read so far in front of what the rest reads as.
pub open spec fn read_on(out: Seq<char>, rest: Option<Seq<char>>) -> Option<Seq<char>> {
    match rest {
        Some(r) => Some(out + r),
        None => None,
    }
}

proof fn lemma_unescape_step(e: Seq<char>)
    requires
        e.len() > 0,
    ensures
        json_unescape(e) == match step_at(e) {
            Some((c, k)) => read_on(seq![c], json_unescape(e.skip(k))),
            None => None,
        },
        step_at(e) matches Some((c, k)) ==> 1 <= k <= e.len(),
{
    if e[0] == '\\' && e.len() >= 2 && e[1] == 'u' {
        if unicode_escape_at(e, 2) is Some {
            assert(e.subrange(6, e.len() as int) =~= e.skip(6));
        }
    } else if e[0] == '\\' && e.len() >= 2 {
        assert(e.subrange(2, e.len() as int) =~= e.skip(2));
    } else {
        assert(e.drop_first() =~= e.skip(1));
    }
}

/// Read one unit at `i`.
fn read_one(v: &Vec<char>, i: usize) -> (r: Option<(char, usize)>)
    requires
        i < v@.len(),
    ensures
        match r {
            Some((c, k)) => step_at(v@.skip(i as int)) == Some((c, k as int)),
            None => step_at(v@.skip(i as int)) is None,
        },
{
    let ghost e = v@.skip(i as int);
    let n = v.len();
    let c = v[i];
    assert(e[0] == c);
    if c == '\\' {
        if n - i < 2 {
            return None;
        }
        assert(e[1] == v@[i + 1]);
        if v[i + 1] == 'u' {
            if n - i < 6 {
                assert(unicode_escape_at(e, 2) is None);
                return None;
            }
            assert(e[2] == v@[i + 2] && e[3] == v@[i + 3] && e[4] == v@[i + 4] && e[5] == v@[i + 5]);
            match (hex_of(v[i + 2]), hex_of(v[i + 3]), hex_of(v[i + 4]), hex_of(v[i + 5])) {
                (Some(a), Some(b), Some(c2), Some(d)) => {
                    let x: u32 = a * 4096 + b * 256 + c2 * 16 + d;
                    assert(unicode_escape_at(e, 2) == Some(x));
                    if 0xD800 <= x && x <= 0xDFFF {
                        return None;
                    }
                    match char_of(x) {
                        Some(ch) => Some((ch, 6)),
                        None => None,
                    }
                },
                _ => None,
            }
        } else {
            let d = v[i + 1];
            let sc = if d == '"' {
                Some('"')
            } else if d == '\\' {
                Some('\\')
            } else if d == '/' {
                Some('/')
            } else if d == 'b' {
                Some('\x08')
            } else if d == 'f' {
                Some('\x0c')
            } else if d == 'n' {
                Some('\n')
            } else if d == 'r' {
                Some('\r')
            } else if d == 't' {
                Some('\t')
            } else {
                None
            };
            match sc {
                Some(ch) => Some((ch, 2)),
                None => None,
            }
        }
    } else if c == '"' || (c as u32) < 0x20 {
        None
    } else {
        Some((c, 1))
    }
}

/// Read the inside of a JSON string literal.
pub fn unescape(v: &Vec<char>) -> (r: Option<String>)
    ensures
        match r {
            Some(s) => json_unescape(v@) == Some(s@),
            None => json_unescape(v@) is None,
        },
{
    let n = v.len();
    let mut out: Vec<char> = Vec::new();
    let mut i: usize = 0;
    assert(v@.skip(0) =~= v@);
    assert(out@ + v@ =~= v@);
    while i < n
        invariant
            n == v@.len(),
            i <= n,
            json_unescape(v@) == read_on(out@, json_unescape(v@.skip(i as int))),
        decreases n - i,
    {
        let ghost e = v@.skip(i as int);
        let ghost o0 = out@;
        proof {
            lemma_unescape_step(e);
        }
        match read_one(v, i) {
            Some((c, k)) => {
                out.push(c);
                proof {
                    assert(e.skip(k as int) =~= v@.skip(i + k));
                    match json_unescape(v@.skip(i + k)) {
                        Some(r) => {
                            assert(o0 + (seq![c] + r) =~= out@ + r);
                        },
                        None => {},
                    }
                }
                i = i + k;
            },
            None => {
                return None;
            },
        }
    }
    proof {
        assert(v@.skip(n as int) =~= Seq::<char>::empty());
        assert(out@ + Seq::<char>::empty() =~= out@);
    }
    Some(string_of(out.as_slice()))
}

/// Where the literal whose inside starts at 1 closes.
fn closing_quote(s: &Vec<char>) -> (r: Option<usize>)
    ensures
        match r {
            Some(e) => literal_end(s@, 1) == Some(e as int) && 1 <= e < s@.len(),
            None => literal_end(s@, 1) is None,
        },
{
    let m = s.len();
    let mut j: usize = 1;
    while j < m
        invariant
            m == s@.len(),
            1 <= j,
            literal_end(s@, 1) == literal_end(s@, j as int),
        decreases m - j,
    {
        if s[j] == '"' {
            return Some(j);
        } else if s[j] == '\\' {
            if m - j < 2 {
                return None;
            }
            j = j + 2;
        } else {
            j = j + 1;
        }
    }
    None
}

/// The string value of the first `"key"` of a JSON body.
pub fn json_str(body: &str, key: &str) -> (r: Option<String>)
    ensures
        match r {
            Some(s) => string_field(body@, key@) == Some(s@),
            None => string_field(body@, key@) is None,
        },
{
    let b = chars_of(body);
    let mut needle: Vec<char> = Vec::new();
    needle.push('"');
    let k = chars_of(key);
    append_chars(&mut needle, &k);
    needle.push('"');
    assert(needle@ =~= seq!['"'] + key@ + seq!['"']);
    let i = match find_from(&b, &needle, 0) {
        None => {
            return None;
        },
        Some(i) => i,
    };
    proof {
        lemma_first_occurrence(b@, needle@, i as int);
    }
    let nl = needle.len();
    assert(occurs_at(b@, needle@, i as int));
    assert(i + nl <= b.len());
    let after = chars_between(&b, i + nl, b.len());
    assert(after@ =~= b@.skip(i + needle@.len()));
    let rest = trim_start_class(&after, CharClass::ColonOrWhite);
    if rest.len() == 0 || rest[0] != '"' {
        return None;
    }
    let j = match closing_quote(&rest) {
        Some(j) => j,
        None => {
            return None;
        },
    };
    let inner = chars_between(&rest, 1, j);
    unescape(&inner)
}

/// The value of one `key=value` pair when its key (the text before its
/// first `=`) is `key`.
pub open spec fn pair_value(p: Seq<char>, key: Seq<char>) -> Option<Seq<char>> {
    if has_infix(p, seq!['=']) && p.take(first_occurrence(p, seq!['='])) == key {
        Some(p.skip(first_occurrence(p, seq!['=']) + 1))
    } else {
        None
    }
}

/// The first pair, in order, whose key matches.
pub open spec fn first_value(ps: Seq<Seq<char>>, key: Seq<char>) -> Option<Seq<char>>
    decreases ps.len(),
{
    if ps.len() == 0 {
        None
    } else {
        match first_value(ps.drop_last(), key) {
            Some(v) => Some(v),
            None => pair_value(ps.last(), key),
        }
    }
}

/// The value of `key` in a query string: its `&`-separated pairs are read
/// in order and the first with that key wins.
pub open spec fn param_value(query: Seq<char>, key: Seq<char>) -> Option<Seq<char>> {
    first_value(pieces(query, class_fn(CharClass::Is('&'))), key)
}

/// Where the pair that begins at `start` ends: the next `&`, or the end.
fn pair_end(q: &Vec<char>, start: usize) -> (end: usize)
    requires
        start <= q@.len(),
    ensures
        start <= end <= q@.len(),
        forall|j: int| start <= j < end ==> q@[j] != '&',
        end < q@.len() ==> q@[end as int] == '&',
{
    let mut end = start;
    while end < q.len() && q[end] != '&'
        invariant
            start <= end <= q@.len(),
            forall|j: int| start <= j < end ==> q@[j] != '&',
        decreases q@.len() - end,
    {
        end = end + 1;
    }
    end
}

/// A run without `&` extends the last piece.
proof fn lemma_pieces_run(q: Seq<char>, start: int, end: int, pre: Seq<Seq<char>>)
    requires
        0 <= start <= end <= q.len(),
        pieces(q.take(start), class_fn(CharClass::Is('&'))) == pre.push(Seq::<char>::empty()),
        forall|j: int| start <= j < end ==> q[j] != '&',
    ensures
        pieces(q.take(end), class_fn(CharClass::Is('&'))) == pre.push(q.subrange(start, end)),
    decreases end - start,
{
    let amp = class_fn(CharClass::Is('&'));
    if end == start {
        assert(q.subrange(start, start) =~= Seq::<char>::empty());
    } else {
        lemma_pieces_run(q, start, end - 1, pre);
        let p = pieces(q.take(end - 1), amp);
        assert(q.take(end).drop_last() =~= q.take(end - 1));
        assert(q.take(end).last() == q[end - 1]);
        assert(q.subrange(start, end - 1).push(q[end - 1]) =~= q.subrange(start, end));
        assert(p.update(p.len() - 1, p.last().push(q[end - 1])) =~= pre.push(q.subrange(start, end)));
    }
}

/// Where the value of the pair in `start..end` begins, when its key is `k`.
fn pair_match(q: &Vec<char>, start: usize, end: usize, k: &Vec<char>) -> (r: Option<usize>)
    requires
        start <= end <= q@.len(),
    ensures
        match r {
            Some(e) => start <= e < end && pair_value(q@.subrange(start as int, end as int), k@)
                == Some(q@.subrange(e + 1, end as int)),
            None => pair_value(q@.subrange(start as int, end as int), k@) is None,
        },
{
    let ghost piece = q@.subrange(start as int, end as int);
    let mut e = start;
    while e < end && q[e] != '='
        invariant
            start <= e <= end,
            end <= q@.len(),
            forall|j: int| start <= j < e ==> q@[j] != '=',
        decreases end - e,
    {
        e = e + 1;
    }
    proof {
        assert forall|j: int| 0 <= j < e - start implies !occurs_at(piece, seq!['='], j) by {
            if occurs_at(piece, seq!['='], j) {
                assert(piece.subrange(j, j + 1)[0] == piece[j]);
                assert(q@[start + j] != '=');
            }
        }
    }
    if e < end {
        proof {
            assert(piece.subrange(e - start, e - start + 1) =~= seq!['=']);
            assert(occurs_at(piece, seq!['='], e - start));
            lemma_first_occurrence(piece, seq!['='], e - start);
            assert(piece.skip(e - start + 1) =~= q@.subrange(e + 1, end as int));
        }
        if e - start == k.len() && matches_at(q, k, start) {
            proof {
                assert(piece.take(e - start) =~= q@.subrange(start as int, start + k@.len()));
            }
            Some(e)
        } else {
            proof {
                if piece.take(e - start) == k@ {
                    assert(q@.subrange(start as int, start + k@.len()) =~= piece.take(e - start));
                }
            }
            None
        }
    } else {
        proof {
            assert forall|j: int| !occurs_at(piece, seq!['='], j) by {
                if occurs_at(piece, seq!['='], j) {
                    assert(piece.subrange(j, j + 1)[0] == piece[j]);
                    assert(q@[start + j] != '=');
                }
            }
        }
        None
    }
}

/// The value of `key` in the query string, borrowed from it.
pub fn query_param<'a>(query: &'a str, key: &str) -> (r: Option<&'a str>)
    ensures
        match r {
            Some(v) => param_value(query@, key@) == Some(v@),
            None => param_value(query@, key@) is None,
        },
{
    let q = chars_of(query);
    let k = chars_of(key);
    let n = q.len();
    let ghost amp = class_fn(CharClass::Is('&'));
    let ghost mut pre: Seq<Seq<char>> = Seq::empty();
    let mut start: usize = 0;
    assert(q@.take(0) =~= Seq::<char>::empty());
    loop
        invariant
            n == q@.len(),
            q@ == query@,
            k@ == key@,
            start <= n,
            amp == class_fn(CharClass::Is('&')),
            pieces(q@.take(start as int), amp) == pre.push(Seq::<char>::empty()),
            first_value(pre, key@) is None,
        decreases n - start,
    {
        let end = pair_end(&q, start);
        let ghost piece = q@.subrange(start as int, end as int);
        proof {
            lemma_pieces_run(q@, start as int, end as int, pre);
            assert(pre.push(piece).drop_last() =~= pre);
        }
        match pair_match(&q, start, end, &k) {
            Some(e) => {
                let v = query.substring_char(e + 1, end);
                proof {
                    lemma_param_found(q@, key@, start as int, end as int, pre);
                }
                return Some(v);
            },
            None => {},
        }
        if end == n {
            proof {
                assert(q@.take(n as int) =~= q@);
            }
            return None;
        }
        proof {
            assert(q@.take(end + 1).drop_last() =~= q@.take(end as int));
            assert(q@.take(end + 1).last() == q@[end as int]);
            pre = pre.push(piece);
        }
        start = end + 1;
    }
}

/// A pair that matches, read whole (up to `&` or the end), gives the answer.
#[verifier::rlimit(40)]
proof fn lemma_param_found(q: Seq<char>, key: Seq<char>, start: int, end: int, pre: Seq<Seq<char>>)
    requires
        0 <= start <= end <= q.len(),
        end < q.len() ==> q[end] == '&',
        pieces(q.take(end), class_fn(CharClass::Is('&'))) == pre.push(q.subrange(start, end)),
        first_value(pre, key) is None,
        pair_value(q.subrange(start, end), key) is Some,
    ensures
        param_value(q, key) == pair_value(q.subrange(start, end), key),
{
    let amp = class_fn(CharClass::Is('&'));
    let piece = q.subrange(start, end);
    let done = pre.push(piece);
    assert(first_value(done, key) == pair_value(piece, key)) by {
        assert(done.drop_last() =~= pre);
        assert(done.last() == piece);
    }
    if end == q.len() {
        assert(q.take(end) =~= q);
    } else {
        let next = pieces(q.take(end + 1), amp);
        assert(next == done.push(Seq::<char>::empty())) by {
            assert(q.take(end + 1).drop_last() =~= q.take(end));
            assert(q.take(end + 1).last() == q[end]);
        }
        assert(next.drop_last() =~= done);
        lemma_first_value_prefix(q, end + 1, next, key);
    }
}

/// Once a finished pair has matched, the rest of the query cannot change
/// the answer.
proof fn lemma_first_value_prefix(q: Seq<char>, end: int, done: Seq<Seq<char>>, key: Seq<char>)
    requires
        0 <= end <= q.len(),
        pieces(q.take(end), class_fn(CharClass::Is('&'))) == done,
        done.len() >= 1,
        first_value(done.drop_last(), key) is Some,
    ensures
        param_value(q, key) == first_value(done.drop_last(), key),
    decreases q.len() - end,
{
    let amp = class_fn(CharClass::Is('&'));
    if end == q.len() {
        assert(q.take(end) =~= q);
    } else {
        assert(q.take(end + 1).drop_last() =~= q.take(end));
        assert(q.take(end + 1).last() == q[end]);
        let next = pieces(q.take(end + 1), amp);
        if amp(q[end]) {
            assert(next == done.push(Seq::<char>::empty()));
            assert(next.drop_last() =~= done);
        } else {
            assert(next == done.update(done.len() - 1, done.last().push(q[end])));
            assert(next.drop_last() =~= done.drop_last());
        }
        lemma_first_value_prefix(q, end + 1, next, key);
    }
}

// ---------------------------------------------------------------------
// A key shown only by its ends.
// ---------------------------------------------------------------------

/// Bytes that UTF-8 spends on one char.
pub open spec fn utf8_width(c: char) -> nat {
    if (c as u32) < 0x80 {
        1
    } else if (c as u32) < 0x800 {
        2
    } else if (c as u32) < 0x10000 {
        3
    } else {
        4
    }
}

/// Bytes of the UTF-8 encoding of a text (`str::len`).
pub open spec fn utf8_len(s: Seq<char>) -> nat
    decreases s.len(),
{
    if s.len() == 0 {
        0
    } else {
        utf8_len(s.drop_last()) + utf8_width(s.last())
    }
}

pub proof fn lemma_utf8_len_concat(a: Seq<char>, b: Seq<char>)
    ensures
        utf8_len(a + b) == utf8_len(a) + utf8_len(b),
    decreases b.len(),
{
    if b.len() == 0 {
        assert(a + b =~= a);
    } else {
        assert((a + b).drop_last() =~= a + b.drop_last());
        assert((a + b).last() == b.last());
        lemma_utf8_len_concat(a, b.drop_last());
    }
}

/// Prefixes grow strictly in bytes.
pub proof fn lemma_prefix_bytes_grow(s: Seq<char>, i: int, j: int)
    requires
        0 <= i < j <= s.len(),
    ensures
        utf8_len(s.take(i)) < utf8_len(s.take(j)),
{
    assert(s.take(j) =~= s.take(i) + s.subrange(i, j));
    lemma_utf8_len_concat(s.take(i), s.subrange(i, j));
}

/// Suffixes shrink strictly in bytes.
proof fn lemma_suffix_bytes_shrink(s: Seq<char>, i: int, j: int)
    requires
        0 <= i < j <= s.len(),
    ensures
        utf8_len(s.skip(i)) > utf8_len(s.skip(j)),
{
    assert(s.skip(i) =~= s.subrange(i, j) + s.skip(j));
    lemma_utf8_len_concat(s.subrange(i, j), s.skip(j));
}

/// The first `b` bytes of `s` end on a char boundary.
pub open spec fn head_bytes_whole(s: Seq<char>, b: nat) -> bool {
    exists|i: int| 0 <= i <= s.len() && utf8_len(#[trigger] s.take(i)) == b
}

/// The last `b` bytes of `s` begin on a char boundary.
pub open spec fn tail_bytes_whole(s: Seq<char>, b: nat) -> bool {
    exists|j: int| 0 <= j <= s.len() && utf8_len(#[trigger] s.skip(j)) == b
}

/// The chars that make the first `b` bytes.
pub open spec fn head_chars(s: Seq<char>, b: nat) -> int {
    choose|i: int| 0 <= i <= s.len() && utf8_len(#[trigger] s.take(i)) == b
}

/// Where the chars that make the last `b` bytes begin.
pub open spec fn tail_start(s: Seq<char>, b: nat) -> int {
    choose|j: int| 0 <= j <= s.len() && utf8_len(#[trigger] s.skip(j)) == b
}

/// The key, trimmed, shown as its first four bytes, an ellipsis and its
/// last four bytes; a key of eight bytes or fewer is all dots.
pub open spec fn masked(key: Seq<char>) -> Seq<char> {
    let t = trimmed(key);
    if utf8_len(t) <= 8 {
        "••••"@
    } else {
        t.take(head_chars(t, 4)) + "…"@ + t.skip(tail_start(t, 4))
    }
}

pub fn width(c: char) -> (w: usize)
    ensures
        w == utf8_width(c),
{
    let u: u32 = c as u32;
    if u < 0x80 {
        1
    } else if u < 0x800 {
        2
    } else if u < 0x10000 {
        3
    } else {
        4
    }
}

/// Whether the text takes more than `k` bytes.
pub fn more_bytes_than(t: &Vec<char>, k: usize) -> (r: bool)
    requires
        k + 4 <= usize::MAX,
    ensures
        r == (utf8_len(t@) > k),
{
    let mut acc: usize = 0;
    let mut i: usize = 0;
    while i < t.len() && acc <= k
        invariant
            i <= t@.len(),
            acc == utf8_len(t@.take(i as int)),
            acc <= k + 4,
            k + 4 <= usize::MAX,
        decreases t@.len() - i,
    {
        assert(t@.take(i + 1).drop_last() =~= t@.take(i as int));
        acc = acc + width(t[i]);
        i = i + 1;
    }
    proof {
        if i == t@.len() {
            assert(t@.take(i as int) =~= t@);
        } else {
            lemma_prefix_bytes_grow(t@, i as int, t@.len() as int);
            assert(t@.take(t@.len() as int) =~= t@);
        }
    }
    acc > k
}

/// The first prefix that reaches four bytes is the one that makes them.
proof fn lemma_head_found(s: Seq<char>, i: int)
    requires
        0 <= i <= s.len(),
        utf8_len(s.take(i)) >= 4,
        i == 0 || utf8_len(s.take(i - 1)) < 4,
        head_bytes_whole(s, 4),
    ensures
        utf8_len(s.take(i)) == 4,
        head_chars(s, 4) == i,
{
    let h = head_chars(s, 4);
    assert(0 <= h <= s.len() && utf8_len(s.take(h)) == 4);
    if h < i {
        if h < i - 1 {
            lemma_prefix_bytes_grow(s, h, i - 1);
        }
    } else if h > i {
        lemma_prefix_bytes_grow(s, i, h);
    }
}

/// The first suffix that reaches four bytes is the one that makes them.
proof fn lemma_tail_found(s: Seq<char>, j: int)
    requires
        0 <= j <= s.len(),
        utf8_len(s.skip(j)) >= 4,
        j == s.len() || utf8_len(s.skip(j + 1)) < 4,
        tail_bytes_whole(s, 4),
    ensures
        utf8_len(s.skip(j)) == 4,
        tail_start(s, 4) == j,
{
    let t = tail_start(s, 4);
    assert(0 <= t <= s.len() && utf8_len(s.skip(t)) == 4);
    if t > j {
        if t > j + 1 {
            lemma_suffix_bytes_shrink(s, j + 1, t);
        }
    } else if t < j {
        lemma_suffix_bytes_shrink(s, t, j);
    }
}

pub fn mask_key(key: &str) -> (r: String)
    requires
        utf8_len(trimmed(key@)) > 8 ==> head_bytes_whole(trimmed(key@), 4) && tail_bytes_whole(
            trimmed(key@),
            4,
        ),
    ensures
        r@ == masked(key@),
{
    let k = chars_of(key);
    let t = trim(&k);
    if !more_bytes_than(&t, 8) {
        return "••••".to_owned();
    }
    // The chars that make the first four bytes.
    let mut i: usize = 0;
    let mut acc: usize = 0;
    assert(t@.take(0) =~= Seq::<char>::empty());
    while acc < 4
        invariant
            i <= t@.len(),
            acc == utf8_len(t@.take(i as int)),
            acc <= 7,
            i == 0 || utf8_len(t@.take(i - 1)) < 4,
            utf8_len(t@) > 8,
        decreases t@.len() - i,
    {
        if i == t.len() {
            assert(t@.take(i as int) =~= t@);
            assert(false);
        }
        assert(t@.take(i + 1).drop_last() =~= t@.take(i as int));
        acc = acc + width(t[i]);
        i = i + 1;
    }
    proof {
        lemma_head_found(t@, i as int);
    }
    // Where the chars that make the last four bytes begin.
    let n = t.len();
    let mut j: usize = n;
    let mut back: usize = 0;
    assert(t@.skip(n as int) =~= Seq::<char>::empty());
    while back < 4
        invariant
            j <= n,
            n == t@.len(),
            back == utf8_len(t@.skip(j as int)),
            back <= 7,
            j == n || utf8_len(t@.skip(j + 1)) < 4,
            utf8_len(t@) > 8,
        decreases j,
    {
        if j == 0 {
            assert(t@.skip(0) =~= t@);
            assert(false);
        }
        proof {
            let c = t@[j - 1];
            assert(t@.skip(j - 1) =~= seq![c] + t@.skip(j as int));
            lemma_utf8_len_concat(seq![c], t@.skip(j as int));
            let one = seq![c];
            assert(one.len() == 1);
            assert(one.drop_last() =~= Seq::<char>::empty());
            assert(utf8_len(one.drop_last()) == 0);
            assert(one.last() == c);
            assert(utf8_len(one) == utf8_width(c));
        }
        back = back + width(t[j - 1]);
        j = j - 1;
    }
    proof {
        lemma_tail_found(t@, j as int);
    }
    let mut out = chars_between(&t, 0, i);
    let dots = chars_of("…");
    append_chars(&mut out, &dots);
    let tail = chars_between(&t, j, n);
    append_chars(&mut out, &tail);
    proof {
        assert(t@.subrange(0, i as int) =~= t@.take(i as int));
        assert(t@.subrange(j as int, n as int) =~= t@.skip(j as int));
    }
    string_of(&out)
}

// ---------------------------------------------------------------------
// Which backend a vault path asks for.
// ---------------------------------------------------------------------

/// What `Path::extension` gives for a path on the target the crate is built
/// for, as text: the part of the file name after its last dot, when the
/// name has one that is not its first char.
pub uninterp spec fn path_extension(path: Seq<char>) -> Option<Seq<char>>;

/// Calls `std::path::Path::extension` and `OsStr::to_str`. The extension
/// of a path given as a `str` is itself valid UTF-8, so `to_str` keeps it;
/// the result is named `path_extension` and not restated here.
#[verifier::external_body]
fn extension_of(path: &str) -> (r: Option<String>)
    ensures
        match r {
            Some(e) => path_extension(path@) == Some(e@),
            None => path_extension(path@) is None,
        },
{
    std::path::Path::new(path).extension().and_then(|e| e.to_str()).map(|e| e.to_owned())
}

/// The extensions that select the SQLite backend.
pub open spec fn sqlite_extension(e: Seq<char>) -> bool {
    e == "db"@ || e == "sqlite"@ || e == "sqlite3"@
}

/// The vault path names a SQLite file (`db`, `sqlite` or `sqlite3`).
pub fn is_sqlite(path: &str) -> (r: bool)
    ensures
        r == match path_extension(path@) {
            Some(e) => sqlite_extension(e),
            None => false,
        },
{
    match extension_of(path) {
        Some(e) => {
            let s = e.as_str();
            crate::text::same_text(s, "db") || crate::text::same_text(s, "sqlite")
                || crate::text::same_text(s, "sqlite3")
        },
        None => false,
    }
}

// ---------------------------------------------------------------------
// Routes.
// ---------------------------------------------------------------------

/// What a request asks of the organ.
#[derive(Clone, Copy, Debug, PartialEq, Eq, Structural)]
pub enum Route {
    /// A CORS preflight: answered 204 with an empty body.
    Preflight,
    Health,
    GetProfile,
    SetProfile,
    GetLlm,
    SetLlm,
    Mood,
    Who,
    Lineage,
    Audit,
    Book,
    Events,
    Turn,
    Pin,
    Live,
    Remember,
    Sleep,
    Speak,
    Talk,
    ClearTalk,
    Reset,
    Save,
    /// Anything else: answered 404, "route inconnue".
    Unknown,
}

/// The route of a method and a path.
pub open spec fn route_of(method: Seq<char>, path: Seq<char>) -> Route {
    if method == "OPTIONS"@ {
        Route::Preflight
    } else if method == "GET"@ {
        if path == "/health"@ {
            Route::Health
        } else if path == "/profile"@ {
            Route::GetProfile
        } else if path == "/llm"@ {
            Route::GetLlm
        } else if path == "/mood"@ {
            Route::Mood
        } else if path == "/who"@ {
            Route::Who
        } else if path == "/lineage"@ {
            Route::Lineage
        } else if path == "/audit"@ {
            Route::Audit
        } else if path == "/book"@ {
            Route::Book
        } else if path == "/events"@ {
            Route::Events
        } else if path == "/talk"@ {
            Route::Talk
        } else {
            Route::Unknown
        }
    } else if method == "POST"@ {
        if path == "/profile"@ {
            Route::SetProfile
        } else if path == "/llm"@ {
            Route::SetLlm
        } else if path == "/turn"@ {
            Route::Turn
        } else if path == "/pin"@ {
            Route::Pin
        } else if path == "/live"@ {
            Route::Live
        } else if path == "/remember"@ {
            Route::Remember
        } else if path == "/sleep"@ {
            Route::Sleep
        } else if path == "/speak"@ {
            Route::Speak
        } else if path == "/talk/clear"@ {
            Route::ClearTalk
        } else if path == "/reset"@ {
            Route::Reset
        } else if path == "/save"@ {
            Route::Save
        } else {
            Route::Unknown
        }
    } else {
        Route::Unknown
    }
}

pub fn route(method: &str, path: &str) -> (r: Route)
    ensures
        r == route_of(method@, path@),
{
    let eq = |a: &str, b: &str| -> (r: bool)
        ensures
            r == (a@ == b@),
        { crate::text::same_text(a, b) };
    if eq(method, "OPTIONS") {
        Route::Preflight
    } else if eq(method, "GET") {
        if eq(path, "/health") {
            Route::Health
        } else if eq(path, "/profile") {
            Route::GetProfile
        } else if eq(path, "/llm") {
            Route::GetLlm
        } else if eq(path, "/mood") {
            Route::Mood
        } else if eq(path, "/who") {
            Route::Who
        } else if eq(path, "/lineage") {
            Route::Lineage
        } else if eq(path, "/audit") {
            Route::Audit
        } else if eq(path, "/book") {
            Route::Book
        } else if eq(path, "/events") {
            Route::Events
        } else if eq(path, "/talk") {
            Route::Talk
        } else {
            Route::Unknown
        }
    } else if eq(method, "POST") {
        if eq(path, "/profile") {
            Route::SetProfile
        } else if eq(path, "/llm") {
            Route::SetLlm
        } else if eq(path, "/turn") {
            Route::Turn
        } else if eq(path, "/pin") {
            Route::Pin
        } else if eq(path, "/live") {
            Route::Live
        } else if eq(path, "/remember") {
            Route::Remember
        } else if eq(path, "/sleep") {
            Route::Sleep
        } else if eq(path, "/speak") {
            Route::Speak
        } else if eq(path, "/talk/clear") {
            Route::ClearTalk
        } else if eq(path, "/reset") {
            Route::Reset
        } else if eq(path, "/save") {
            Route::Save
        } else {
            Route::Unknown
        }
    } else {
        Route::Unknown
    }
}

/// The answer to a preflight: 204, empty body.
pub fn preflight() -> (r: HttpResponse)
    ensures
        r.status == 204,
        r.body@.len() == 0,
{
    HttpResponse { status: 204, body: String::new() }
}

/// The answer to an unknown route: 404, "route inconnue".
pub fn unknown_route() -> (r: HttpResponse)
    ensures
        r.status == 404,
        r.body@ == error_body("route inconnue"@),
{
    err(404, "route inconnue")
}

// ---------------------------------------------------------------------
// The bound LLM, as the face reports it.
// ---------------------------------------------------------------------

/// The key, if any, is one whose mask can be cut.
pub open spec fn key_maskable(key: Option<String>) -> bool {
    match key {
        Some(k) => k@.len() > 0 && utf8_len(trimmed(k@)) > 8 ==> head_bytes_whole(trimmed(k@), 4)
            && tail_bytes_whole(trimmed(k@), 4),
        None => true,
    }
}

/// `true` or `false` as JSON.
pub open spec fn flag_json(b: bool) -> Seq<char> {
    if b {
        "true"@
    } else {
        "false"@
    }
}

/// What the face reports of the bound LLM: whether one is attached, its
/// url and model, whether a key is held, and the key's mask.
pub open spec fn llm_body(bind: LlmBind) -> Seq<char> {
    let has_key = bind.key matches Some(k) && k@.len() > 0;
    let hint = if has_key {
        masked(bind.key.unwrap()@)
    } else {
        Seq::<char>::empty()
    };
    "{\"ok\":true,\"attached\":"@ + flag_json(bind.url@.len() > 0) + ",\"url\":\""@ + escaped(bind.url@)
        + "\",\"model\":\""@ + escaped(bind.model@) + "\",\"has_key\":"@ + flag_json(has_key)
        + ",\"key_hint\":\""@ + escaped(hint) + "\"}"@
}

fn flag_text(b: bool) -> (r: &'static str)
    ensures
        r@ == flag_json(b),
{
    if b {
        "true"
    } else {
        "false"
    }
}

pub fn llm_json(bind: &LlmBind) -> (r: String)
    requires
        key_maskable(bind.key),
    ensures
        r@ == llm_body(*bind),
{
    let attached = !bind.url.as_str().is_empty();
    let (has_key, hint) = match &bind.key {
        Some(k) => {
            if k.as_str().is_empty() {
                (false, String::new())
            } else {
                (true, mask_key(k.as_str()))
            }
        },
        None => (false, String::new()),
    };
    let mut out = chars_of("{\"ok\":true,\"attached\":");
    append_chars(&mut out, &chars_of(flag_text(attached)));
    append_chars(&mut out, &chars_of(",\"url\":\""));
    escape_into(&mut out, bind.url.as_str());
    append_chars(&mut out, &chars_of("\",\"model\":\""));
    escape_into(&mut out, bind.model.as_str());
    append_chars(&mut out, &chars_of("\",\"has_key\":"));
    append_chars(&mut out, &chars_of(flag_text(has_key)));
    append_chars(&mut out, &chars_of(",\"key_hint\":\""));
    escape_into(&mut out, hint.as_str());
    append_chars(&mut out, &chars_of("\"}"));
    string_of(&out)
}


// ---------------------------------------------------------------------
// Binding the LLM narrator.
// ---------------------------------------------------------------------

/// The view of an optional text.
pub open spec fn opt_view(o: Option<String>) -> Option<Seq<char>> {
    match o {
        Some(s) => Some(s@),
        None => None,
    }
}

/// An endpoint the HTTP narrator can call: `http://` or `https://`.
pub open spec fn llm_url_ok(url: Seq<char>) -> bool {
    occurs_at(url, "http://"@, 0) || occurs_at(url, "https://"@, 0)
}

/// The key a new binding keeps: the one given, unless it is missing or
/// blank, in which case the key already held.
pub open spec fn kept_key(held: Option<String>, given: Option<String>) -> Option<Seq<char>> {
    match given {
        Some(k) => if trimmed(k@).len() == 0 {
            opt_view(held)
        } else {
            Some(k@)
        },
        None => opt_view(held),
    }
}

/// The model named by a binding: the one given, trimmed, or `llama3`.
pub open spec fn bound_model(model: Seq<char>) -> Seq<char> {
    if trimmed(model).len() == 0 {
        "llama3"@
    } else {
        trimmed(model)
    }
}

/// Attach the HTTP narrator at `url` (trimmed), or detach it when the url is
/// blank. A url that is neither `http://` nor `https://` is refused with a
/// message; otherwise the binding holds the trimmed url, the model (trimmed,
/// `llama3` when blank) and the key `kept_key` keeps.
pub fn bind_llm(bound: &LlmBind, url: &str, model: &str, key: Option<String>) -> (r: Result<LlmBind, String>)
    ensures
        match r {
            Ok(b) => if trimmed(url@).len() == 0 {
                &&& b.url@.len() == 0
                &&& b.model@.len() == 0
                &&& b.key is None
            } else {
                &&& llm_url_ok(trimmed(url@))
                &&& b.url@ == trimmed(url@)
                &&& b.model@ == bound_model(model@)
                &&& opt_view(b.key) == kept_key(bound.key, key)
            },
            Err(e) => trimmed(url@).len() > 0 && !llm_url_ok(trimmed(url@))
                && e@ == "llm url must be http:// or https://"@,
        },
{
    let u = trim(&chars_of(url));
    let m = trim(&chars_of(model));
    if u.len() == 0 {
        return Ok(LlmBind { url: String::new(), model: String::new(), key: None });
    }
    let kept: Option<String> = match key {
        Some(k) => {
            if trim(&chars_of(k.as_str())).len() == 0 {
                match &bound.key {
                    Some(h) => Some(h.clone()),
                    None => None,
                }
            } else {
                Some(k)
            }
        },
        None => match &bound.key {
            Some(h) => Some(h.clone()),
            None => None,
        },
    };
    if !(starts_with(&u, "http://") || starts_with(&u, "https://")) {
        return Err("llm url must be http:// or https://".to_owned());
    }
    let name = if m.len() == 0 {
        "llama3".to_owned()
    } else {
        string_of(m.as_slice())
    };
    Ok(LlmBind { url: string_of(u.as_slice()), model: name, key: kept })
}


// ---------------------------------------------------------------------
// Answering a request.
// ---------------------------------------------------------------------

/// The text fields of a request body, as the JSON reader found them.
pub struct RequestFields {
    pub text: Option<String>,
    pub event: Option<String>,
    pub query: Option<String>,
    pub url: Option<String>,
    pub model: Option<String>,
    pub api_key: Option<String>,
}

/// The first position at or after `i` that holds no whitespace.
pub open spec fn skip_white(s: Seq<char>, i: int) -> int
    decreases s.len() - i,
{
    if 0 <= i < s.len() && white(s[i]) {
        skip_white(s, i + 1)
    } else {
        i
    }
}

pub proof fn lemma_skip_white(s: Seq<char>, i: int)
    ensures
        skip_white(s, i) >= i,
        0 <= i <= s.len() ==> skip_white(s, i) <= s.len(),
    decreases s.len() - i,
{
    if 0 <= i < s.len() && white(s[i]) {
        lemma_skip_white(s, i + 1);
    }
}

pub proof fn lemma_literal_end(s: Seq<char>, i: int)
    ensures
        literal_end(s, i) matches Some(e) ==> i <= e < s.len(),
    decreases s.len() - i,
{
    if 0 <= i < s.len() && s[i] != '"' {
        if s[i] == '\\' {
            if i + 1 < s.len() {
                lemma_literal_end(s, i + 2);
            }
        } else {
            lemma_literal_end(s, i + 1);
        }
    }
}

/// The string items of a JSON array read from `i` on (just after its `[` or
/// after a comma): literals separated by commas, whitespace around, up to
/// the closing `]`.
pub open spec fn items_from(s: Seq<char>, i: int) -> Option<Seq<Seq<char>>>
    decreases s.len() - i,
{
    let j = skip_white(s, i);
    if i < 0 || j >= s.len() {
        None
    } else if s[j] == ']' {
        Some(Seq::empty())
    } else if s[j] == '"' {
        match literal_end(s, j + 1) {
            Some(e) => match json_unescape(s.subrange(j + 1, e)) {
                Some(v) => {
                    let k = skip_white(s, e + 1);
                    if k < s.len() && s[k] == ',' {
                        proof {
                            lemma_skip_white(s, i);
                            lemma_literal_end(s, j + 1);
                            lemma_skip_white(s, e + 1);
                        }
                        match items_from(s, k + 1) {
                            Some(rest) => Some(seq![v] + rest),
                            None => None,
                        }
                    } else if k < s.len() && s[k] == ']' {
                        Some(seq![v])
                    } else {
                        None
                    }
                },
                None => None,
            },
            None => None,
        }
    } else {
        None
    }
}

/// The string array of the first `"key"` of a JSON body.
pub open spec fn array_field(body: Seq<char>, key: Seq<char>) -> Option<Seq<Seq<char>>> {
    match after_key(body, key) {
        Some(rest) => if rest.len() > 0 && rest[0] == '[' {
            items_from(rest, 1)
        } else {
            None
        },
        None => None,
    }
}

/// Items read so far in front of what the rest reads as.
pub open spec fn items_on(got: Seq<Seq<char>>, rest: Option<Seq<Seq<char>>>) -> Option<Seq<Seq<char>>> {
    match rest {
        Some(r) => Some(got + r),
        None => None,
    }
}

fn skip_spaces(s: &Vec<char>, i: usize) -> (j: usize)
    requires
        i <= s@.len(),
    ensures
        j == skip_white(s@, i as int),
        i <= j <= s@.len(),
{
    let mut j = i;
    while j < s.len() && is_white(s[j])
        invariant
            i <= j <= s@.len(),
            skip_white(s@, i as int) == skip_white(s@, j as int),
        decreases s@.len() - j,
    {
        j = j + 1;
    }
    j
}

/// Where the literal whose inside starts at `i` closes.
fn literal_close(s: &Vec<char>, i: usize) -> (r: Option<usize>)
    requires
        i >= 1,
    ensures
        match r {
            Some(e) => literal_end(s@, i as int) == Some(e as int) && i <= e < s@.len(),
            None => literal_end(s@, i as int) is None,
        },
{
    let m = s.len();
    let mut j: usize = i;
    while j < m
        invariant
            m == s@.len(),
            i <= j,
            literal_end(s@, i as int) == literal_end(s@, j as int),
        decreases m - j,
    {
        if s[j] == '"' {
            return Some(j);
        } else if s[j] == '\\' {
            if m - j < 2 {
                return None;
            }
            j = j + 2;
        } else {
            j = j + 1;
        }
    }
    None
}

/// Read the string items of an array from `i` on.
fn read_items(s: &Vec<char>, i: usize) -> (r: Option<Vec<String>>)
    requires
        1 <= i <= s@.len(),
    ensures
        match r {
            Some(v) => items_from(s@, i as int) == Some(texts(v@)),
            None => items_from(s@, i as int) is None,
        },
{
    let n = s.len();
    let mut got: Vec<String> = Vec::new();
    let mut p: usize = i;
    assert(texts(got@) + Seq::<Seq<char>>::empty() =~= Seq::<Seq<char>>::empty());
    while p <= n
        invariant
            n == s@.len(),
            1 <= p <= n,
            items_from(s@, i as int) == items_on(texts(got@), items_from(s@, p as int)),
        decreases n - p,
    {
        let j = skip_spaces(s, p);
        if j >= n {
            return None;
        }
        if s[j] == ']' {
            proof {
                assert(texts(got@) + Seq::<Seq<char>>::empty() =~= texts(got@));
            }
            return Some(got);
        }
        if s[j] != '"' {
            return None;
        }
        let e = match literal_close(s, j + 1) {
            Some(e) => e,
            None => {
                return None;
            },
        };
        let inner = chars_between(s, j + 1, e);
        let v = match unescape(&inner) {
            Some(v) => v,
            None => {
                return None;
            },
        };
        let k = skip_spaces(s, e + 1);
        if k < n && s[k] == ',' {
            let ghost g0 = texts(got@);
            got.push(v);
            proof {
                assert(texts(got@) =~= g0.push(v@));
                match items_from(s@, k + 1) {
                    Some(rest) => {
                        assert(g0 + (seq![v@] + rest) =~= texts(got@) + rest);
                    },
                    None => {},
                }
            }
            if k + 1 > n {
                return None;
            }
            p = k + 1;
            if p == n {
                proof {
                    lemma_skip_white(s@, p as int);
                }
                return None;
            }
        } else if k < n && s[k] == ']' {
            let ghost g0 = texts(got@);
            got.push(v);
            proof {
                assert(texts(got@) =~= g0.push(v@));
                assert(g0 + seq![v@] =~= texts(got@));
            }
            return Some(got);
        } else {
            return None;
        }
    }
    None
}

/// The string array of the first `"key"` of a JSON body.
pub fn json_str_array(body: &str, key: &str) -> (r: Option<Vec<String>>)
    ensures
        match r {
            Some(v) => array_field(body@, key@) == Some(texts(v@)),
            None => array_field(body@, key@) is None,
        },
{
    let b = chars_of(body);
    let mut needle: Vec<char> = Vec::new();
    needle.push('"');
    let k = chars_of(key);
    append_chars(&mut needle, &k);
    needle.push('"');
    assert(needle@ =~= seq!['"'] + key@ + seq!['"']);
    let i = match find_from(&b, &needle, 0) {
        None => {
            return None;
        },
        Some(i) => i,
    };
    proof {
        lemma_first_occurrence(b@, needle@, i as int);
    }
    let nl = needle.len();
    assert(occurs_at(b@, needle@, i as int));
    assert(i + nl <= b.len());
    let after = chars_between(&b, i + nl, b.len());
    assert(after@ =~= b@.skip(i + needle@.len()));
    let rest = trim_start_class(&after, CharClass::ColonOrWhite);
    if rest.len() == 0 || rest[0] != '[' {
        return None;
    }
    read_items(&rest, 1)
}

/// The text fields of a JSON request body.
pub fn request_fields(body: &str) -> (f: RequestFields)
    ensures
        opt_view(f.text) == string_field(body@, "text"@),
        opt_view(f.event) == string_field(body@, "event"@),
        opt_view(f.query) == string_field(body@, "query"@),
        opt_view(f.url) == string_field(body@, "url"@),
        opt_view(f.model) == string_field(body@, "model"@),
        opt_view(f.api_key) == string_field(body@, "api_key"@),
{
    RequestFields {
        text: json_str(body, "text"),
        event: json_str(body, "event"),
        query: json_str(body, "query"),
        url: json_str(body, "url"),
        model: json_str(body, "model"),
        api_key: json_str(body, "api_key"),
    }
}

/// What the face does with a request.
pub enum Action {
    /// Answered without the organ: a preflight, an unknown route, or a
    /// request missing its text.
    Reply(HttpResponse),
    Health,
    GetProfile,
    SetProfile,
    GetLlm,
    /// Bind the narrator at this url, or detach it.
    SetLlm { detach: bool },
    Mood,
    Who,
    Lineage { schema: String },
    Audit { id: String },
    Book,
    Events,
    Turn { text: String },
    Pin { text: String },
    Live { event: String },
    Remember { query: String },
    Sleep,
    Speak { text: String },
    Talk,
    ClearTalk,
    Reset,
    Save,
}

/// The first field that is present, or the empty text.
pub open spec fn first_field(a: Option<String>, b: Option<String>) -> Seq<char> {
    match a {
        Some(x) => x@,
        None => match b {
            Some(y) => y@,
            None => Seq::empty(),
        },
    }
}

/// The text that is blank once trimmed.
pub open spec fn blank(s: Seq<char>) -> bool {
    trimmed(s).len() == 0
}

/// The answer to a request missing its text: 400 and the message.
pub open spec fn refused(a: Action, msg: Seq<char>) -> bool {
    a matches Action::Reply(r) && r.status == 400 && r.body@ == error_body(msg)
}

/// What the pin takes: the body's text (or event) when it is not blank,
/// else the last line of the sitting.
pub open spec fn pin_text(f: RequestFields, sitting_line: Seq<char>) -> Seq<char> {
    let from_body = first_field(f.text, f.event);
    if (f.text is Some || f.event is Some) && !blank(from_body) {
        from_body
    } else {
        sitting_line
    }
}

/// The action each route asks for.
pub open spec fn responds(
    route: Route,
    query: Seq<char>,
    body: Seq<char>,
    f: RequestFields,
    held_url: Seq<char>,
    sitting_line: Seq<char>,
    a: Action,
) -> bool {
    match route {
        Route::Preflight => a matches Action::Reply(r) && r.status == 204 && r.body@.len() == 0,
        Route::Unknown => a matches Action::Reply(r) && r.status == 404 && r.body@ == error_body(
            "route inconnue"@,
        ),
        Route::Health => a is Health,
        Route::GetProfile => a is GetProfile,
        Route::SetProfile => a is SetProfile,
        Route::GetLlm => a is GetLlm,
        Route::SetLlm => a matches Action::SetLlm { detach } && detach == (bool_field(body, "clear"@)
            == Some(true) || blank(
            match f.url {
                Some(u) => u@,
                None => held_url,
            },
        )),
        Route::Mood => a is Mood,
        Route::Who => a is Who,
        Route::Lineage => a matches Action::Lineage { schema } && schema@ == match param_value(
            query,
            "schema"@,
        ) {
            Some(v) => v,
            None => Seq::empty(),
        },
        Route::Audit => a matches Action::Audit { id } && id@ == match param_value(query, "id"@) {
            Some(v) => v,
            None => Seq::empty(),
        },
        Route::Book => a is Book,
        Route::Events => a is Events,
        Route::Turn => if blank(first_field(f.text, f.event)) {
            refused(a, "text requis"@)
        } else {
            a matches Action::Turn { text } && text@ == first_field(f.text, f.event)
        },
        Route::Pin => if blank(pin_text(f, sitting_line)) {
            refused(a, "nothing to pin"@)
        } else {
            a matches Action::Pin { text } && text@ == pin_text(f, sitting_line)
        },
        Route::Live => if blank(first_field(f.event, None)) {
            refused(a, "event requis"@)
        } else {
            a matches Action::Live { event } && event@ == first_field(f.event, None)
        },
        Route::Remember => if blank(first_field(f.query, None)) {
            refused(a, "query requis"@)
        } else {
            a matches Action::Remember { query } && query@ == first_field(f.query, None)
        },
        Route::Sleep => a is Sleep,
        Route::Speak => if blank(first_field(f.text, f.query)) {
            refused(a, "text requis"@)
        } else {
            a matches Action::Speak { text } && text@ == first_field(f.text, f.query)
        },
        Route::Talk => a is Talk,
        Route::ClearTalk => a is ClearTalk,
        Route::Reset => a is Reset,
        Route::Save => a is Save,
    }
}

fn field_or(a: &Option<String>, b: &Option<String>) -> (r: String)
    ensures
        r@ == first_field(*a, *b),
{
    match a {
        Some(x) => x.clone(),
        None => match b {
            Some(y) => y.clone(),
            None => String::new(),
        },
    }
}

fn is_blank(s: &str) -> (r: bool)
    ensures
        r == blank(s@),
{
    trim(&chars_of(s)).len() == 0
}

/// Decide what a request asks for. `held_url` is the url of the narrator
/// bound now; `sitting_line` is the last line of the sitting (or its topic).
pub fn respond(
    route: Route,
    query: &str,
    body: &str,
    f: &RequestFields,
    held_url: &str,
    sitting_line: &str,
) -> (a: Action)
    ensures
        responds(route, query@, body@, *f, held_url@, sitting_line@, a),
{
    let text_or = |x: Option<&str>| -> (r: String)
        ensures
            r@ == match x {
                Some(v) => v@,
                None => Seq::<char>::empty(),
            },
        {
            match x {
                Some(v) => v.to_owned(),
                None => String::new(),
            }
        };
    match route {
        Route::Preflight => Action::Reply(preflight()),
        Route::Unknown => Action::Reply(unknown_route()),
        Route::Health => Action::Health,
        Route::GetProfile => Action::GetProfile,
        Route::SetProfile => Action::SetProfile,
        Route::GetLlm => Action::GetLlm,
        Route::SetLlm => {
            let clear = match json_bool(body, "clear") {
                Some(b) => b,
                None => false,
            };
            let url = match &f.url {
                Some(u) => u.clone(),
                None => held_url.to_owned(),
            };
            Action::SetLlm { detach: clear || is_blank(url.as_str()) }
        },
        Route::Mood => Action::Mood,
        Route::Who => Action::Who,
        Route::Lineage => Action::Lineage { schema: text_or(query_param(query, "schema")) },
        Route::Audit => Action::Audit { id: text_or(query_param(query, "id")) },
        Route::Book => Action::Book,
        Route::Events => Action::Events,
        Route::Turn => {
            let t = field_or(&f.text, &f.event);
            if is_blank(t.as_str()) {
                Action::Reply(err(400, "text requis"))
            } else {
                Action::Turn { text: t }
            }
        },
        Route::Pin => {
            let from_body = field_or(&f.text, &f.event);
            let t = if (f.text.is_some() || f.event.is_some()) && !is_blank(from_body.as_str()) {
                from_body
            } else {
                sitting_line.to_owned()
            };
            if is_blank(t.as_str()) {
                Action::Reply(err(400, "nothing to pin"))
            } else {
                Action::Pin { text: t }
            }
        },
        Route::Live => {
            let t = field_or(&f.event, &None);
            if is_blank(t.as_str()) {
                Action::Reply(err(400, "event requis"))
            } else {
                Action::Live { event: t }
            }
        },
        Route::Remember => {
            let t = field_or(&f.query, &None);
            if is_blank(t.as_str()) {
                Action::Reply(err(400, "query requis"))
            } else {
                Action::Remember { query: t }
            }
        },
        Route::Sleep => Action::Sleep,
        Route::Speak => {
            let t = field_or(&f.text, &f.query);
            if is_blank(t.as_str()) {
                Action::Reply(err(400, "text requis"))
            } else {
                Action::Speak { text: t }
            }
        },
        Route::Talk => Action::Talk,
        Route::ClearTalk => Action::ClearTalk,
        Route::Reset => Action::Reset,
        Route::Save => Action::Save,
    }
}


/// A number for each served route, in table order.
spec fn route_rank(r: Route) -> int {
    match r {
        Route::Health => 0,
        Route::GetProfile => 1,
        Route::GetLlm => 2,
        Route::Mood => 3,
        Route::Who => 4,
        Route::Lineage => 5,
        Route::Audit => 6,
        Route::Book => 7,
        Route::Events => 8,
        Route::Talk => 9,
        Route::SetProfile => 10,
        Route::SetLlm => 11,
        Route::Turn => 12,
        Route::Pin => 13,
        Route::Live => 14,
        Route::Remember => 15,
        Route::Sleep => 16,
        Route::Speak => 17,
        Route::ClearTalk => 18,
        Route::Reset => 19,
        Route::Save => 20,
        Route::Preflight => 21,
        Route::Unknown => 22,
    }
}

/// The method and path pairs the HTTP face serves.
pub open spec fn served_pairs() -> Seq<(Seq<char>, Seq<char>)> {
    seq![
        ("GET"@, "/health"@),
        ("GET"@, "/profile"@),
        ("GET"@, "/llm"@),
        ("GET"@, "/mood"@),
        ("GET"@, "/who"@),
        ("GET"@, "/lineage"@),
        ("GET"@, "/audit"@),
        ("GET"@, "/book"@),
        ("GET"@, "/events"@),
        ("GET"@, "/talk"@),
        ("POST"@, "/profile"@),
        ("POST"@, "/llm"@),
        ("POST"@, "/turn"@),
        ("POST"@, "/pin"@),
        ("POST"@, "/live"@),
        ("POST"@, "/remember"@),
        ("POST"@, "/sleep"@),
        ("POST"@, "/speak"@),
        ("POST"@, "/talk/clear"@),
        ("POST"@, "/reset"@),
        ("POST"@, "/save"@),
    ]
}

/// Every served pair has a route of its own, neither the preflight nor the
/// unknown route, and no two served pairs share one; a pair outside the
/// table, with any method but `OPTIONS`, is the unknown route; `OPTIONS` is
/// a preflight on any path.
pub proof fn served_pairs_route_apart(method: Seq<char>, path: Seq<char>)
    ensures
        forall|i: int|
            0 <= i < served_pairs().len() ==> !(route_of(served_pairs()[i].0, served_pairs()[i].1) is Unknown)
                && !(route_of(served_pairs()[i].0, served_pairs()[i].1) is Preflight),
        forall|i: int, j: int|
            0 <= i < j < served_pairs().len() ==> route_of(served_pairs()[i].0, served_pairs()[i].1)
                != route_of(served_pairs()[j].0, served_pairs()[j].1),
        method != "OPTIONS"@ && !served_pairs().contains((method, path)) ==> route_of(method, path) is Unknown,
        method == "OPTIONS"@ ==> route_of(method, path) is Preflight,
{
    reveal_strlit("/audit");
    reveal_strlit("/book");
    reveal_strlit("/events");
    reveal_strlit("/health");
    reveal_strlit("/lineage");
    reveal_strlit("/live");
    reveal_strlit("/llm");
    reveal_strlit("/mood");
    reveal_strlit("/pin");
    reveal_strlit("/profile");
    reveal_strlit("/remember");
    reveal_strlit("/reset");
    reveal_strlit("/save");
    reveal_strlit("/sleep");
    reveal_strlit("/speak");
    reveal_strlit("/talk");
    reveal_strlit("/talk/clear");
    reveal_strlit("/turn");
    reveal_strlit("/who");
    reveal_strlit("GET");
    reveal_strlit("OPTIONS");
    reveal_strlit("POST");
    let t = served_pairs();
    let m = method;
    if m != "OPTIONS"@ && !(route_of(m, path) is Unknown) {
        if m == "GET"@ && path == "/health"@ {
            assert(t[0] == (m, path));
        }
        if m == "GET"@ && path == "/profile"@ {
            assert(t[1] == (m, path));
        }
        if m == "GET"@ && path == "/llm"@ {
            assert(t[2] == (m, path));
        }
        if m == "GET"@ && path == "/mood"@ {
            assert(t[3] == (m, path));
        }
        if m == "GET"@ && path == "/who"@ {
            assert(t[4] == (m, path));
        }
        if m == "GET"@ && path == "/lineage"@ {
            assert(t[5] == (m, path));
        }
        if m == "GET"@ && path == "/audit"@ {
            assert(t[6] == (m, path));
        }
        if m == "GET"@ && path == "/book"@ {
            assert(t[7] == (m, path));
        }
        if m == "GET"@ && path == "/events"@ {
            assert(t[8] == (m, path));
        }
        if m == "GET"@ && path == "/talk"@ {
            assert(t[9] == (m, path));
        }
        if m == "POST"@ && path == "/profile"@ {
            assert(t[10] == (m, path));
        }
        if m == "POST"@ && path == "/llm"@ {
            assert(t[11] == (m, path));
        }
        if m == "POST"@ && path == "/turn"@ {
            assert(t[12] == (m, path));
        }
        if m == "POST"@ && path == "/pin"@ {
            assert(t[13] == (m, path));
        }
        if m == "POST"@ && path == "/live"@ {
            assert(t[14] == (m, path));
        }
        if m == "POST"@ && path == "/remember"@ {
            assert(t[15] == (m, path));
        }
        if m == "POST"@ && path == "/sleep"@ {
            assert(t[16] == (m, path));
        }
        if m == "POST"@ && path == "/speak"@ {
            assert(t[17] == (m, path));
        }
        if m == "POST"@ && path == "/talk/clear"@ {
            assert(t[18] == (m, path));
        }
        if m == "POST"@ && path == "/reset"@ {
            assert(t[19] == (m, path));
        }
        if m == "POST"@ && path == "/save"@ {
            assert(t[20] == (m, path));
        }
    }
    assert("GET"@ != "OPTIONS"@ && "POST"@ != "OPTIONS"@ && "POST"@ != "GET"@) by {
        assert("GET"@.len() == 3 && "OPTIONS"@.len() == 7 && "POST"@.len() == 4);
    }
    assert("/profile"@ != "/health"@) by {
        assert("/profile"@.len() == 8 && "/health"@.len() == 7);
    }
    assert("/llm"@ != "/health"@) by {
        assert("/llm"@.len() == 4 && "/health"@.len() == 7);
    }
    assert("/llm"@ != "/profile"@) by {
        assert("/llm"@.len() == 4 && "/profile"@.len() == 8);
    }
    assert("/mood"@ != "/health"@) by {
        assert("/mood"@.len() == 5 && "/health"@.len() == 7);
    }
    assert("/mood"@ != "/profile"@) by {
        assert("/mood"@.len() == 5 && "/profile"@.len() == 8);
    }
    assert("/mood"@ != "/llm"@) by {
        assert("/mood"@.len() == 5 && "/llm"@.len() == 4);
    }
    assert("/who"@ != "/health"@) by {
        assert("/who"@.len() == 4 && "/health"@.len() == 7);
    }
    assert("/who"@ != "/profile"@) by {
        assert("/who"@.len() == 4 && "/profile"@.len() == 8);
    }
    assert("/who"@ != "/llm"@) by {
        assert("/who"@[1] != "/llm"@[1]);
    }
    assert("/who"@ != "/mood"@) by {
        assert("/who"@.len() == 4 && "/mood"@.len() == 5);
    }
    assert("/lineage"@ != "/health"@) by {
        assert("/lineage"@.len() == 8 && "/health"@.len() == 7);
    }
    assert("/lineage"@ != "/profile"@) by {
        assert("/lineage"@[1] != "/profile"@[1]);
    }
    assert("/lineage"@ != "/llm"@) by {
        assert("/lineage"@.len() == 8 && "/llm"@.len() == 4);
    }
    assert("/lineage"@ != "/mood"@) by {
        assert("/lineage"@.len() == 8 && "/mood"@.len() == 5);
    }
    assert("/lineage"@ != "/who"@) by {
        assert("/lineage"@.len() == 8 && "/who"@.len() == 4);
    }
    assert("/audit"@ != "/health"@) by {
        assert("/audit"@.len() == 6 && "/health"@.len() == 7);
    }
    assert("/audit"@ != "/profile"@) by {
        assert("/audit"@.len() == 6 && "/profile"@.len() == 8);
    }
    assert("/audit"@ != "/llm"@) by {
        assert("/audit"@.len() == 6 && "/llm"@.len() == 4);
    }
    assert("/audit"@ != "/mood"@) by {
        assert("/audit"@.len() == 6 && "/mood"@.len() == 5);
    }
    assert("/audit"@ != "/who"@) by {
        assert("/audit"@.len() == 6 && "/who"@.len() == 4);
    }
    assert("/audit"@ != "/lineage"@) by {
        assert("/audit"@.len() == 6 && "/lineage"@.len() == 8);
    }
    assert("/book"@ != "/health"@) by {
        assert("/book"@.len() == 5 && "/health"@.len() == 7);
    }
    assert("/book"@ != "/profile"@) by {
        assert("/book"@.len() == 5 && "/profile"@.len() == 8);
    }
    assert("/book"@ != "/llm"@) by {
        assert("/book"@.len() == 5 && "/llm"@.len() == 4);
    }
    assert("/book"@ != "/mood"@) by {
        assert("/book"@[1] != "/mood"@[1]);
    }
    assert("/book"@ != "/who"@) by {
        assert("/book"@.len() == 5 && "/who"@.len() == 4);
    }
    assert("/book"@ != "/lineage"@) by {
        assert("/book"@.len() == 5 && "/lineage"@.len() == 8);
    }
    assert("/book"@ != "/audit"@) by {
        assert("/book"@.len() == 5 && "/audit"@.len() == 6);
    }
    assert("/events"@ != "/health"@) by {
        assert("/events"@[1] != "/health"@[1]);
    }
    assert("/events"@ != "/profile"@) by {
        assert("/events"@.len() == 7 && "/profile"@.len() == 8);
    }
    assert("/events"@ != "/llm"@) by {
        assert("/events"@.len() == 7 && "/llm"@.len() == 4);
    }
    assert("/events"@ != "/mood"@) by {
        assert("/events"@.len() == 7 && "/mood"@.len() == 5);
    }
    assert("/events"@ != "/who"@) by {
        assert("/events"@.len() == 7 && "/who"@.len() == 4);
    }
    assert("/events"@ != "/lineage"@) by {
        assert("/events"@.len() == 7 && "/lineage"@.len() == 8);
    }
    assert("/events"@ != "/audit"@) by {
        assert("/events"@.len() == 7 && "/audit"@.len() == 6);
    }
    assert("/events"@ != "/book"@) by {
        assert("/events"@.len() == 7 && "/book"@.len() == 5);
    }
    assert("/talk"@ != "/health"@) by {
        assert("/talk"@.len() == 5 && "/health"@.len() == 7);
    }
    assert("/talk"@ != "/profile"@) by {
        assert("/talk"@.len() == 5 && "/profile"@.len() == 8);
    }
    assert("/talk"@ != "/llm"@) by {
        assert("/talk"@.len() == 5 && "/llm"@.len() == 4);
    }
    assert("/talk"@ != "/mood"@) by {
        assert("/talk"@[1] != "/mood"@[1]);
    }
    assert("/talk"@ != "/who"@) by {
        assert("/talk"@.len() == 5 && "/who"@.len() == 4);
    }
    assert("/talk"@ != "/lineage"@) by {
        assert("/talk"@.len() == 5 && "/lineage"@.len() == 8);
    }
    assert("/talk"@ != "/audit"@) by {
        assert("/talk"@.len() == 5 && "/audit"@.len() == 6);
    }
    assert("/talk"@ != "/book"@) by {
        assert("/talk"@[1] != "/book"@[1]);
    }
    assert("/talk"@ != "/events"@) by {
        assert("/talk"@.len() == 5 && "/events"@.len() == 7);
    }
    assert("/turn"@ != "/profile"@) by {
        assert("/turn"@.len() == 5 && "/profile"@.len() == 8);
    }
    assert("/turn"@ != "/llm"@) by {
        assert("/turn"@.len() == 5 && "/llm"@.len() == 4);
    }
    assert("/pin"@ != "/profile"@) by {
        assert("/pin"@.len() == 4 && "/profile"@.len() == 8);
    }
    assert("/pin"@ != "/llm"@) by {
        assert("/pin"@[1] != "/llm"@[1]);
    }
    assert("/pin"@ != "/turn"@) by {
        assert("/pin"@.len() == 4 && "/turn"@.len() == 5);
    }
    assert("/live"@ != "/profile"@) by {
        assert("/live"@.len() == 5 && "/profile"@.len() == 8);
    }
    assert("/live"@ != "/llm"@) by {
        assert("/live"@.len() == 5 && "/llm"@.len() == 4);
    }
    assert("/live"@ != "/turn"@) by {
        assert("/live"@[1] != "/turn"@[1]);
    }
    assert("/live"@ != "/pin"@) by {
        assert("/live"@.len() == 5 && "/pin"@.len() == 4);
    }
    assert("/remember"@ != "/profile"@) by {
        assert("/remember"@.len() == 9 && "/profile"@.len() == 8);
    }
    assert("/remember"@ != "/llm"@) by {
        assert("/remember"@.len() == 9 && "/llm"@.len() == 4);
    }
    assert("/remember"@ != "/turn"@) by {
        assert("/remember"@.len() == 9 && "/turn"@.len() == 5);
    }
    assert("/remember"@ != "/pin"@) by {
        assert("/remember"@.len() == 9 && "/pin"@.len() == 4);
    }
    assert("/remember"@ != "/live"@) by {
        assert("/remember"@.len() == 9 && "/live"@.len() == 5);
    }
    assert("/sleep"@ != "/profile"@) by {
        assert("/sleep"@.len() == 6 && "/profile"@.len() == 8);
    }
    assert("/sleep"@ != "/llm"@) by {
        assert("/sleep"@.len() == 6 && "/llm"@.len() == 4);
    }
    assert("/sleep"@ != "/turn"@) by {
        assert("/sleep"@.len() == 6 && "/turn"@.len() == 5);
    }
    assert("/sleep"@ != "/pin"@) by {
        assert("/sleep"@.len() == 6 && "/pin"@.len() == 4);
    }
    assert("/sleep"@ != "/live"@) by {
        assert("/sleep"@.len() == 6 && "/live"@.len() == 5);
    }
    assert("/sleep"@ != "/remember"@) by {
        assert("/sleep"@.len() == 6 && "/remember"@.len() == 9);
    }
    assert("/speak"@ != "/profile"@) by {
        assert("/speak"@.len() == 6 && "/profile"@.len() == 8);
    }
    assert("/speak"@ != "/llm"@) by {
        assert("/speak"@.len() == 6 && "/llm"@.len() == 4);
    }
    assert("/speak"@ != "/turn"@) by {
        assert("/speak"@.len() == 6 && "/turn"@.len() == 5);
    }
    assert("/speak"@ != "/pin"@) by {
        assert("/speak"@.len() == 6 && "/pin"@.len() == 4);
    }
    assert("/speak"@ != "/live"@) by {
        assert("/speak"@.len() == 6 && "/live"@.len() == 5);
    }
    assert("/speak"@ != "/remember"@) by {
        assert("/speak"@.len() == 6 && "/remember"@.len() == 9);
    }
    assert("/speak"@ != "/sleep"@) by {
        assert("/speak"@[2] != "/sleep"@[2]);
    }
    assert("/talk/clear"@ != "/profile"@) by {
        assert("/talk/clear"@.len() == 11 && "/profile"@.len() == 8);
    }
    assert("/talk/clear"@ != "/llm"@) by {
        assert("/talk/clear"@.len() == 11 && "/llm"@.len() == 4);
    }
    assert("/talk/clear"@ != "/turn"@) by {
        assert("/talk/clear"@.len() == 11 && "/turn"@.len() == 5);
    }
    assert("/talk/clear"@ != "/pin"@) by {
        assert("/talk/clear"@.len() == 11 && "/pin"@.len() == 4);
    }
    assert("/talk/clear"@ != "/live"@) by {
        assert("/talk/clear"@.len() == 11 && "/live"@.len() == 5);
    }
    assert("/talk/clear"@ != "/remember"@) by {
        assert("/talk/clear"@.len() == 11 && "/remember"@.len() == 9);
    }
    assert("/talk/clear"@ != "/sleep"@) by {
        assert("/talk/clear"@.len() == 11 && "/sleep"@.len() == 6);
    }
    assert("/talk/clear"@ != "/speak"@) by {
        assert("/talk/clear"@.len() == 11 && "/speak"@.len() == 6);
    }
    assert("/reset"@ != "/profile"@) by {
        assert("/reset"@.len() == 6 && "/profile"@.len() == 8);
    }
    assert("/reset"@ != "/llm"@) by {
        assert("/reset"@.len() == 6 && "/llm"@.len() == 4);
    }
    assert("/reset"@ != "/turn"@) by {
        assert("/reset"@.len() == 6 && "/turn"@.len() == 5);
    }
    assert("/reset"@ != "/pin"@) by {
        assert("/reset"@.len() == 6 && "/pin"@.len() == 4);
    }
    assert("/reset"@ != "/live"@) by {
        assert("/reset"@.len() == 6 && "/live"@.len() == 5);
    }
    assert("/reset"@ != "/remember"@) by {
        assert("/reset"@.len() == 6 && "/remember"@.len() == 9);
    }
    assert("/reset"@ != "/sleep"@) by {
        assert("/reset"@[1] != "/sleep"@[1]);
    }
    assert("/reset"@ != "/speak"@) by {
        assert("/reset"@[1] != "/speak"@[1]);
    }
    assert("/reset"@ != "/talk/clear"@) by {
        assert("/reset"@.len() == 6 && "/talk/clear"@.len() == 11);
    }
    assert("/save"@ != "/profile"@) by {
        assert("/save"@.len() == 5 && "/profile"@.len() == 8);
    }
    assert("/save"@ != "/llm"@) by {
        assert("/save"@.len() == 5 && "/llm"@.len() == 4);
    }
    assert("/save"@ != "/turn"@) by {
        assert("/save"@[1] != "/turn"@[1]);
    }
    assert("/save"@ != "/pin"@) by {
        assert("/save"@.len() == 5 && "/pin"@.len() == 4);
    }
    assert("/save"@ != "/live"@) by {
        assert("/save"@[1] != "/live"@[1]);
    }
    assert("/save"@ != "/remember"@) by {
        assert("/save"@.len() == 5 && "/remember"@.len() == 9);
    }
    assert("/save"@ != "/sleep"@) by {
        assert("/save"@.len() == 5 && "/sleep"@.len() == 6);
    }
    assert("/save"@ != "/speak"@) by {
        assert("/save"@.len() == 5 && "/speak"@.len() == 6);
    }
    assert("/save"@ != "/talk/clear"@) by {
        assert("/save"@.len() == 5 && "/talk/clear"@.len() == 11);
    }
    assert("/save"@ != "/reset"@) by {
        assert("/save"@.len() == 5 && "/reset"@.len() == 6);
    }
    assert(route_of("GET"@, "/health"@) == Route::Health);
    assert(route_of("GET"@, "/profile"@) == Route::GetProfile);
    assert(route_of("GET"@, "/llm"@) == Route::GetLlm);
    assert(route_of("GET"@, "/mood"@) == Route::Mood);
    assert(route_of("GET"@, "/who"@) == Route::Who);
    assert(route_of("GET"@, "/lineage"@) == Route::Lineage);
    assert(route_of("GET"@, "/audit"@) == Route::Audit);
    assert(route_of("GET"@, "/book"@) == Route::Book);
    assert(route_of("GET"@, "/events"@) == Route::Events);
    assert(route_of("GET"@, "/talk"@) == Route::Talk);
    assert(route_of("POST"@, "/profile"@) == Route::SetProfile);
    assert(route_of("POST"@, "/llm"@) == Route::SetLlm);
    assert(route_of("POST"@, "/turn"@) == Route::Turn);
    assert(route_of("POST"@, "/pin"@) == Route::Pin);
    assert(route_of("POST"@, "/live"@) == Route::Live);
    assert(route_of("POST"@, "/remember"@) == Route::Remember);
    assert(route_of("POST"@, "/sleep"@) == Route::Sleep);
    assert(route_of("POST"@, "/speak"@) == Route::Speak);
    assert(route_of("POST"@, "/talk/clear"@) == Route::ClearTalk);
    assert(route_of("POST"@, "/reset"@) == Route::Reset);
    assert(route_of("POST"@, "/save"@) == Route::Save);
    assert forall|i: int| 0 <= i < t.len() implies route_rank(#[trigger] route_of(t[i].0, t[i].1)) == i by {
        if i == 0 {
            assert(route_rank(route_of(t[0].0, t[0].1)) == 0);
        } else if i == 1 {
            assert(route_rank(route_of(t[1].0, t[1].1)) == 1);
        } else if i == 2 {
            assert(route_rank(route_of(t[2].0, t[2].1)) == 2);
        } else if i == 3 {
            assert(route_rank(route_of(t[3].0, t[3].1)) == 3);
        } else if i == 4 {
            assert(route_rank(route_of(t[4].0, t[4].1)) == 4);
        } else if i == 5 {
            assert(route_rank(route_of(t[5].0, t[5].1)) == 5);
        } else if i == 6 {
            assert(route_rank(route_of(t[6].0, t[6].1)) == 6);
        } else if i == 7 {
            assert(route_rank(route_of(t[7].0, t[7].1)) == 7);
        } else if i == 8 {
            assert(route_rank(route_of(t[8].0, t[8].1)) == 8);
        } else if i == 9 {
            assert(route_rank(route_of(t[9].0, t[9].1)) == 9);
        } else if i == 10 {
            assert(route_rank(route_of(t[10].0, t[10].1)) == 10);
        } else if i == 11 {
            assert(route_rank(route_of(t[11].0, t[11].1)) == 11);
        } else if i == 12 {
            assert(route_rank(route_of(t[12].0, t[12].1)) == 12);
        } else if i == 13 {
            assert(route_rank(route_of(t[13].0, t[13].1)) == 13);
        } else if i == 14 {
            assert(route_rank(route_of(t[14].0, t[14].1)) == 14);
        } else if i == 15 {
            assert(route_rank(route_of(t[15].0, t[15].1)) == 15);
        } else if i == 16 {
            assert(route_rank(route_of(t[16].0, t[16].1)) == 16);
        } else if i == 17 {
            assert(route_rank(route_of(t[17].0, t[17].1)) == 17);
        } else if i == 18 {
            assert(route_rank(route_of(t[18].0, t[18].1)) == 18);
        } else if i == 19 {
            assert(route_rank(route_of(t[19].0, t[19].1)) == 19);
        } else if i == 20 {
            assert(route_rank(route_of(t[20].0, t[20].1)) == 20);
        }
    }
}

} // verus!
