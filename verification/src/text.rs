//! Character-level text rules shared by the organ: search, trim, split.
//!
//! Everything here works on `Seq<char>`, the view of a `str` or `String`.

use vstd::prelude::*;

verus! {

// ---------------------------------------------------------------------
// What std computes and this file does not restate.
// ---------------------------------------------------------------------

/// The text that `str::to_lowercase` makes of a text (full Unicode case mapping).
pub uninterp spec fn lowered(text: Seq<char>) -> Seq<char>;

/// Whether `char::is_alphanumeric` holds (Unicode Alphabetic or Numeric).
pub uninterp spec fn alnum(c: char) -> bool;

/// Calls `str::to_lowercase`. Its result is a function of the text alone,
/// named `lowered`; the Unicode case tables are not restated here.
#[verifier::external_body]
pub(crate) fn lowercase(text: &str) -> (r: String)
    ensures
        r@ == lowered(text@),
{
    text.to_lowercase()
}

/// Calls `char::is_alphanumeric`. Its result is a function of the char
/// alone, named `alnum`; the Unicode property tables are not restated here.
#[verifier::external_body]
pub(crate) fn is_alphanumeric(c: char) -> (r: bool)
    ensures
        r == alnum(c),
{
    c.is_alphanumeric()
}

/// Calls `String::push`: the text grows by exactly that char at its end.
#[verifier::external_body]
pub(crate) fn push_char(s: &mut String, c: char)
    ensures
        final(s)@ == old(s)@.push(c),
{
    s.push(c);
}

/// Whether two texts hold the same chars.
pub(crate) fn same_text(a: &str, b: &str) -> (r: bool)
    ensures
        r == (a@ == b@),
{
    same_chars(&chars_of(a), &chars_of(b))
}

/// Whether two char vectors hold the same chars.
pub fn same_chars(a: &Vec<char>, b: &Vec<char>) -> (r: bool)
    ensures
        r == (a@ == b@),
{
    if a.len() != b.len() {
        return false;
    }
    let mut i: usize = 0;
    while i < a.len()
        invariant
            a@.len() == b@.len(),
            i <= a@.len(),
            forall|j: int| 0 <= j < i ==> a@[j] == b@[j],
        decreases a@.len() - i,
    {
        if a[i] != b[i] {
            return false;
        }
        i = i + 1;
    }
    assert(a@ =~= b@);
    true
}

// ---------------------------------------------------------------------
// Whitespace (Unicode White_Space, as `char::is_whitespace` tests it).
// ---------------------------------------------------------------------

pub open spec fn white(c: char) -> bool {
    let u = c as u32;
    ||| 0x09 <= u <= 0x0D
    ||| u == 0x20
    ||| u == 0x85
    ||| u == 0xA0
    ||| u == 0x1680
    ||| 0x2000 <= u <= 0x200A
    ||| u == 0x2028
    ||| u == 0x2029
    ||| u == 0x202F
    ||| u == 0x205F
    ||| u == 0x3000
}

pub fn is_white(c: char) -> (r: bool)
    ensures
        r == white(c),
{
    let u = c as u32;
    (0x09 <= u && u <= 0x0D) || u == 0x20 || u == 0x85 || u == 0xA0 || u == 0x1680 || (0x2000
        <= u && u <= 0x200A) || u == 0x2028 || u == 0x2029 || u == 0x202F || u == 0x205F || u
        == 0x3000
}

// ---------------------------------------------------------------------
// Conversions between `str`, `String` and `Vec<char>`.
// ---------------------------------------------------------------------

/// The chars of a text, in order.
pub fn chars_of(s: &str) -> (v: Vec<char>)
    ensures
        v@ == s@,
{
    broadcast use vstd::string::group_string_axioms;
    let mut v: Vec<char> = Vec::new();
    for c in it: s.chars()
        invariant
            it.seq() == s@,
            v@ == it.seq().take(it.index() as int),
    {
        v.push(c);
    }
    v
}

/// A `String` holding exactly the given chars.
pub fn string_of(v: &[char]) -> (s: String)
    ensures
        s@ == v@,
{
    let mut s = String::new();
    let n = v.len();
    for i in 0..n
        invariant
            n == v@.len(),
            s@ == v@.subrange(0, i as int),
    {
        push_char(&mut s, v[i]);
        assert(v@.subrange(0, i + 1) == v@.subrange(0, i as int).push(v@[i as int]));
    }
    assert(v@.subrange(0, n as int) == v@);
    s
}

// ---------------------------------------------------------------------
// Search.
// ---------------------------------------------------------------------

/// `needle` occurs in `hay` at position `i`.
pub open spec fn occurs_at(hay: Seq<char>, needle: Seq<char>, i: int) -> bool {
    0 <= i && i + needle.len() <= hay.len() && hay.subrange(i, i + needle.len()) == needle
}

/// `needle` occurs somewhere in `hay` (`str::contains`).
pub open spec fn has_infix(hay: Seq<char>, needle: Seq<char>) -> bool {
    exists|i: int| occurs_at(hay, needle, i)
}

pub fn matches_at(hay: &Vec<char>, needle: &Vec<char>, i: usize) -> (r: bool)
    ensures
        r == occurs_at(hay@, needle@, i as int),
{
    let n = needle.len();
    if i > hay.len() || n > hay.len() - i {
        return false;
    }
    let mut k: usize = 0;
    while k < n
        invariant
            n == needle@.len(),
            i + n <= hay.len(),
            k <= n,
            forall|j: int| 0 <= j < k ==> hay@[i + j] == needle@[j],
        decreases n - k,
    {
        if hay[i + k] != needle[k] {
            assert(hay@.subrange(i as int, i + n)[k as int] != needle@[k as int]);
            return false;
        }
        k = k + 1;
    }
    assert(hay@.subrange(i as int, i + n) =~= needle@);
    true
}

/// First position where `needle` occurs in `hay`, if any (`str::find`).
pub fn find_from(hay: &Vec<char>, needle: &Vec<char>, start: usize) -> (r: Option<usize>)
    ensures
        match r {
            Some(i) => start <= i && occurs_at(hay@, needle@, i as int) && forall|j: int|
                start <= j < i ==> !occurs_at(hay@, needle@, j),
            None => forall|j: int| start <= j ==> !occurs_at(hay@, needle@, j),
        },
{
    if start > hay.len() {
        return None;
    }
    let mut i = start;
    while i < hay.len()
        invariant
            start <= i <= hay@.len(),
            forall|j: int| start <= j < i ==> !occurs_at(hay@, needle@, j),
        decreases hay@.len() - i,
    {
        if matches_at(hay, needle, i) {
            return Some(i);
        }
        i = i + 1;
    }
    if matches_at(hay, needle, i) {
        return Some(i);
    }
    None
}

/// First position where `needle` occurs in `hay`.
pub open spec fn first_occurrence(hay: Seq<char>, needle: Seq<char>) -> int {
    choose|i: int| occurs_at(hay, needle, i) && forall|j: int| 0 <= j < i ==> !occurs_at(hay, needle, j)
}

pub fn contains_seq(hay: &Vec<char>, needle: &Vec<char>) -> (r: bool)
    ensures
        r == has_infix(hay@, needle@),
{
    match find_from(hay, needle, 0) {
        Some(i) => true,
        None => false,
    }
}

/// `str::contains` with a `str` pattern.
pub fn contains(hay: &str, needle: &str) -> (r: bool)
    ensures
        r == has_infix(hay@, needle@),
{
    let h = chars_of(hay);
    let n = chars_of(needle);
    contains_seq(&h, &n)
}

/// Whether `s` begins with `prefix` (`str::starts_with`).
pub fn starts_with(s: &Vec<char>, prefix: &str) -> (r: bool)
    ensures
        r == occurs_at(s@, prefix@, 0),
{
    let p = chars_of(prefix);
    matches_at(s, &p, 0)
}


// ---------------------------------------------------------------------
// Trimming.
// ---------------------------------------------------------------------

/// `s` without its leading chars that `drop` accepts.
pub open spec fn trim_start_by(s: Seq<char>, drop: spec_fn(char) -> bool) -> Seq<char>
    decreases s.len(),
{
    if s.len() > 0 && drop(s[0]) {
        trim_start_by(s.drop_first(), drop)
    } else {
        s
    }
}

/// `s` without its trailing chars that `drop` accepts.
pub open spec fn trim_end_by(s: Seq<char>, drop: spec_fn(char) -> bool) -> Seq<char>
    decreases s.len(),
{
    if s.len() > 0 && drop(s.last()) {
        trim_end_by(s.drop_last(), drop)
    } else {
        s
    }
}

/// `str::trim`: no leading or trailing whitespace.
pub open spec fn trimmed(s: Seq<char>) -> Seq<char> {
    trim_end_by(trim_start_by(s, |c: char| white(c)), |c: char| white(c))
}

/// What a char-class argument to a trimming or splitting call accepts.
#[derive(Clone, Copy, Debug, PartialEq, Eq, Structural)]
pub enum CharClass {
    /// Unicode White_Space.
    White,
    /// Anything that is not alphanumeric.
    NotAlnum,
    /// Exactly this char.
    Is(char),
    /// `:` or whitespace.
    ColonOrWhite,
    /// A clause break: `.`, `—`, `;` or `/`.
    Clause,
    /// A pause in a retelling: `,`, `—` or `/`.
    Pause,
}

pub open spec fn in_class(k: CharClass, c: char) -> bool {
    match k {
        CharClass::White => white(c),
        CharClass::NotAlnum => !alnum(c),
        CharClass::Is(d) => c == d,
        CharClass::ColonOrWhite => c == ':' || white(c),
        CharClass::Clause => c == '.' || c == '—' || c == ';' || c == '/',
        CharClass::Pause => c == ',' || c == '—' || c == '/',
    }
}

pub open spec fn class_fn(k: CharClass) -> spec_fn(char) -> bool {
    |c: char| in_class(k, c)
}

pub fn is_in_class(k: CharClass, c: char) -> (r: bool)
    ensures
        r == in_class(k, c),
{
    match k {
        CharClass::White => is_white(c),
        CharClass::NotAlnum => !is_alphanumeric(c),
        CharClass::Is(d) => c == d,
        CharClass::ColonOrWhite => c == ':' || is_white(c),
        CharClass::Clause => c == '.' || c == '—' || c == ';' || c == '/',
        CharClass::Pause => c == ',' || c == '—' || c == '/',
    }
}

/// Drop leading chars of the class.
pub fn trim_start_class(v: &Vec<char>, k: CharClass) -> (r: Vec<char>)
    ensures
        r@ == trim_start_by(v@, class_fn(k)),
{
    let n = v.len();
    let mut i: usize = 0;
    assert(v@.subrange(0, n as int) =~= v@);
    while i < n && is_in_class(k, v[i])
        invariant
            n == v@.len(),
            i <= n,
            trim_start_by(v@, class_fn(k)) == trim_start_by(v@.subrange(i as int, n as int), class_fn(k)),
        decreases n - i,
    {
        assert(v@.subrange(i as int, n as int).drop_first() =~= v@.subrange(i + 1, n as int));
        assert(v@.subrange(i as int, n as int)[0] == v@[i as int]);
        i = i + 1;
    }
    let mut r: Vec<char> = Vec::new();
    let mut j = i;
    while j < n
        invariant
            n == v@.len(),
            i <= j <= n,
            r@ == v@.subrange(i as int, j as int),
        decreases n - j,
    {
        r.push(v[j]);
        assert(v@.subrange(i as int, j + 1) =~= v@.subrange(i as int, j as int).push(v@[j as int]));
        j = j + 1;
    }
    if i < n {
        assert(v@.subrange(i as int, n as int)[0] == v@[i as int]);
    }
    r
}

/// Drop trailing chars of the class.
pub fn trim_end_class(v: &Vec<char>, k: CharClass) -> (r: Vec<char>)
    ensures
        r@ == trim_end_by(v@, class_fn(k)),
{
    let n = v.len();
    let mut e: usize = n;
    assert(v@.subrange(0, n as int) =~= v@);
    while e > 0 && is_in_class(k, v[e - 1])
        invariant
            n == v@.len(),
            e <= n,
            trim_end_by(v@, class_fn(k)) == trim_end_by(v@.subrange(0, e as int), class_fn(k)),
        decreases e,
    {
        assert(v@.subrange(0, e as int).drop_last() =~= v@.subrange(0, e - 1));
        assert(v@.subrange(0, e as int).last() == v@[e - 1]);
        e = e - 1;
    }
    let mut r: Vec<char> = Vec::new();
    let mut j: usize = 0;
    while j < e
        invariant
            n == v@.len(),
            j <= e <= n,
            r@ == v@.subrange(0, j as int),
        decreases e - j,
    {
        r.push(v[j]);
        assert(v@.subrange(0, j + 1) =~= v@.subrange(0, j as int).push(v@[j as int]));
        j = j + 1;
    }
    if e > 0 {
        assert(v@.subrange(0, e as int).last() == v@[e - 1]);
    }
    r
}

/// Drop leading and trailing chars of the class.
pub fn trim_class(v: &Vec<char>, k: CharClass) -> (r: Vec<char>)
    ensures
        r@ == trim_end_by(trim_start_by(v@, class_fn(k)), class_fn(k)),
{
    let a = trim_start_class(v, k);
    trim_end_class(&a, k)
}

/// `str::trim` on chars.
pub fn trim(v: &Vec<char>) -> (r: Vec<char>)
    ensures
        r@ == trimmed(v@),
{
    let r = trim_class(v, CharClass::White);
    proof {
        let f = |c: char| white(c);
        assert(class_fn(CharClass::White) =~= f);
    }
    r
}

// ---------------------------------------------------------------------
// Splitting and joining.
// ---------------------------------------------------------------------

/// `str::split` with a char predicate: the pieces between separators, empty
/// pieces included (an empty text is one empty piece).
pub open spec fn pieces(s: Seq<char>, sep: spec_fn(char) -> bool) -> Seq<Seq<char>>
    decreases s.len(),
{
    if s.len() == 0 {
        seq![Seq::<char>::empty()]
    } else {
        let p = pieces(s.drop_last(), sep);
        if sep(s.last()) {
            p.push(Seq::<char>::empty())
        } else {
            p.update(p.len() - 1, p.last().push(s.last()))
        }
    }
}

pub proof fn lemma_pieces_nonempty(s: Seq<char>, sep: spec_fn(char) -> bool)
    ensures
        pieces(s, sep).len() >= 1,
    decreases s.len(),
{
    if s.len() > 0 {
        lemma_pieces_nonempty(s.drop_last(), sep);
    }
}

/// The views of a list of char vectors.
pub open spec fn views(v: Seq<Vec<char>>) -> Seq<Seq<char>> {
    v.map_values(|x: Vec<char>| x@)
}

/// Split on every char of the class, keeping empty pieces.
pub fn split_class(v: &Vec<char>, k: CharClass) -> (r: Vec<Vec<char>>)
    ensures
        views(r@) == pieces(v@, class_fn(k)),
{
    let n = v.len();
    let mut done: Vec<Vec<char>> = Vec::new();
    let mut cur: Vec<char> = Vec::new();
    let mut i: usize = 0;
    assert(v@.take(0) =~= Seq::<char>::empty());
    assert(views(done@).push(cur@) =~= seq![Seq::<char>::empty()]);
    while i < n
        invariant
            n == v@.len(),
            i <= n,
            views(done@).push(cur@) == pieces(v@.take(i as int), class_fn(k)),
        decreases n - i,
    {
        let c = v[i];
        let ghost p = pieces(v@.take(i as int), class_fn(k));
        assert(v@.take(i + 1).drop_last() =~= v@.take(i as int));
        assert(v@.take(i + 1).last() == c);
        if is_in_class(k, c) {
            let piece = cur;
            let ghost d0 = done@;
            done.push(piece);
            cur = Vec::new();
            assert(views(done@) =~= views(d0).push(piece@));
            assert(views(done@).push(cur@) =~= p.push(Seq::<char>::empty()));
        } else {
            cur.push(c);
            assert(views(done@).push(cur@) =~= p.update(p.len() - 1, p.last().push(c)));
        }
        i = i + 1;
    }
    assert(v@.take(n as int) =~= v@);
    let ghost d1 = done@;
    done.push(cur);
    assert(views(done@) =~= views(d1).push(done@.last()@));
    done
}

/// The non-empty pieces.
pub open spec fn nonempty(p: Seq<Seq<char>>) -> Seq<Seq<char>> {
    p.filter(|x: Seq<char>| x.len() > 0)
}

/// `str::split_whitespace`: the non-empty runs between whitespace.
pub open spec fn words(s: Seq<char>) -> Seq<Seq<char>> {
    nonempty(pieces(s, |c: char| white(c)))
}

/// Keep the non-empty pieces, in order.
pub fn drop_empty(v: Vec<Vec<char>>) -> (r: Vec<Vec<char>>)
    ensures
        views(r@) == nonempty(views(v@)),
{
    let mut r: Vec<Vec<char>> = Vec::new();
    let n = v.len();
    let mut i: usize = 0;
    let ghost keep = |x: Seq<char>| x.len() > 0;
    while i < n
        invariant
            n == v@.len(),
            i <= n,
            keep == (|x: Seq<char>| x.len() > 0),
            views(r@) == views(v@).take(i as int).filter(keep),
        decreases n - i,
    {
        proof {
            reveal(Seq::filter);
            assert(views(v@).take(i + 1).drop_last() =~= views(v@).take(i as int));
            assert(views(v@).take(i + 1).last() == v@[i as int]@);
        }
        if v[i].len() > 0 {
            let ghost r0 = r@;
            r.push(clone_chars(&v[i]));
            assert(views(r@) =~= views(r0).push(v@[i as int]@));
        }
        i = i + 1;
    }
    assert(views(v@).take(n as int) =~= views(v@));
    r
}

/// A copy of a char vector.
pub fn clone_chars(v: &Vec<char>) -> (r: Vec<char>)
    ensures
        r@ == v@,
{
    let mut r: Vec<char> = Vec::new();
    let n = v.len();
    let mut i: usize = 0;
    while i < n
        invariant
            n == v@.len(),
            i <= n,
            r@ == v@.take(i as int),
        decreases n - i,
    {
        r.push(v[i]);
        assert(v@.take(i + 1) =~= v@.take(i as int).push(v@[i as int]));
        i = i + 1;
    }
    assert(v@.take(n as int) =~= v@);
    r
}

/// `str::split_whitespace` on chars.
pub fn split_words(v: &Vec<char>) -> (r: Vec<Vec<char>>)
    ensures
        views(r@) == words(v@),
{
    let p = split_class(v, CharClass::White);
    let r = drop_empty(p);
    proof {
        let f = |c: char| white(c);
        assert(class_fn(CharClass::White) =~= f);
    }
    r
}

/// Texts joined with a separator between each two.
pub open spec fn joined(p: Seq<Seq<char>>, sep: Seq<char>) -> Seq<char>
    decreases p.len(),
{
    if p.len() == 0 {
        Seq::empty()
    } else if p.len() == 1 {
        p[0]
    } else {
        joined(p.drop_last(), sep) + sep + p.last()
    }
}

/// `[..].join(sep)` on chars.
pub fn join_chars(p: &Vec<Vec<char>>, sep: &Vec<char>) -> (r: Vec<char>)
    ensures
        r@ == joined(views(p@), sep@),
{
    let mut r: Vec<char> = Vec::new();
    let n = p.len();
    let mut i: usize = 0;
    while i < n
        invariant
            n == p@.len(),
            i <= n,
            r@ == joined(views(p@).take(i as int), sep@),
        decreases n - i,
    {
        let ghost r0 = r@;
        assert(views(p@).take(i + 1).drop_last() =~= views(p@).take(i as int));
        assert(views(p@).take(i + 1).last() == p@[i as int]@);
        if i > 0 {
            append_chars(&mut r, sep);
        }
        append_chars(&mut r, &p[i]);
        if i == 0 {
            assert(views(p@).take(1)[0] == p@[0]@);
            assert(r@ =~= views(p@).take(1)[0]);
        } else {
            assert(r@ =~= r0 + sep@ + p@[i as int]@);
        }
        i = i + 1;
    }
    assert(views(p@).take(n as int) =~= views(p@));
    r
}

/// Append a copy of `extra` at the end of `v`.
pub fn append_chars(v: &mut Vec<char>, extra: &Vec<char>)
    ensures
        final(v)@ == old(v)@ + extra@,
{
    let n = extra.len();
    let mut i: usize = 0;
    while i < n
        invariant
            n == extra@.len(),
            i <= n,
            v@ == old(v)@ + extra@.take(i as int),
        decreases n - i,
    {
        v.push(extra[i]);
        assert(extra@.take(i + 1) =~= extra@.take(i as int).push(extra@[i as int]));
        assert(v@ =~= old(v)@ + extra@.take(i + 1));
        i = i + 1;
    }
    assert(extra@.take(n as int) =~= extra@);
}

/// The first `cap` items of `s` that `keep` accepts, in order.
pub open spec fn first_kept(s: Seq<Seq<char>>, keep: spec_fn(Seq<char>) -> bool, cap: nat) -> Seq<Seq<char>>
    decreases s.len(),
{
    if s.len() == 0 || cap == 0 {
        Seq::empty()
    } else if keep(s[0]) {
        seq![s[0]] + first_kept(s.drop_first(), keep, (cap - 1) as nat)
    } else {
        first_kept(s.drop_first(), keep, cap)
    }
}

/// The first `n` chars of `s` (all of them if it is shorter).
pub open spec fn first_chars(s: Seq<char>, n: nat) -> Seq<char> {
    if s.len() <= n {
        s
    } else {
        s.take(n as int)
    }
}

/// The first `n` chars.
pub fn take_chars(v: &Vec<char>, n: usize) -> (r: Vec<char>)
    ensures
        r@ == first_chars(v@, n as nat),
{
    let m = if v.len() <= n { v.len() } else { n };
    let mut r: Vec<char> = Vec::new();
    let mut i: usize = 0;
    while i < m
        invariant
            m <= v@.len(),
            m == (if v@.len() <= n { v@.len() } else { n as nat }),
            i <= m,
            r@ == v@.take(i as int),
        decreases m - i,
    {
        r.push(v[i]);
        assert(v@.take(i + 1) =~= v@.take(i as int).push(v@[i as int]));
        i = i + 1;
    }
    assert(v@.len() <= n ==> v@.take(m as int) =~= v@);
    r
}


/// `acc` followed by each text of `add` that is not already there.
pub open spec fn merged_texts(acc: Seq<Seq<char>>, add: Seq<Seq<char>>) -> Seq<Seq<char>>
    decreases add.len(),
{
    if add.len() == 0 {
        acc
    } else if acc.contains(add[0]) {
        merged_texts(acc, add.drop_first())
    } else {
        merged_texts(acc.push(add[0]), add.drop_first())
    }
}

/// The first position at which `needle` occurs is unique.
pub proof fn lemma_first_occurrence(hay: Seq<char>, needle: Seq<char>, i: int)
    requires
        occurs_at(hay, needle, i),
        forall|j: int| 0 <= j < i ==> !occurs_at(hay, needle, j),
    ensures
        first_occurrence(hay, needle) == i,
{
    let f = first_occurrence(hay, needle);
    assert(occurs_at(hay, needle, f) && forall|j: int| 0 <= j < f ==> !occurs_at(hay, needle, j));
    if f < i {
        assert(!occurs_at(hay, needle, f));
    }
    if f > i {
        assert(!occurs_at(hay, needle, i));
    }
}

/// The part of `s` before the first occurrence of `pat`, or all of `s`.
pub open spec fn before_first(s: Seq<char>, pat: Seq<char>) -> Seq<char> {
    if has_infix(s, pat) {
        s.take(first_occurrence(s, pat))
    } else {
        s
    }
}

/// `s.split(pat).next()`: the text before the first `pat`.
pub fn head_before(v: &Vec<char>, pat: &str) -> (r: Vec<char>)
    ensures
        r@ == before_first(v@, pat@),
{
    let p = chars_of(pat);
    match find_from(v, &p, 0) {
        Some(i) => {
            proof {
                lemma_first_occurrence(v@, p@, i as int);
            }
            let mut r: Vec<char> = Vec::new();
            let mut j: usize = 0;
            while j < i
                invariant
                    i <= v@.len(),
                    j <= i,
                    r@ == v@.take(j as int),
                decreases i - j,
            {
                r.push(v[j]);
                assert(v@.take(j + 1) =~= v@.take(j as int).push(v@[j as int]));
                j = j + 1;
            }
            r
        },
        None => clone_chars(v),
    }
}

} // verus!
