//! The event feed of the HTTP face: every encode, drift, axiom and archive,
//! newest first, at most two hundred, as JSON.

use vstd::prelude::*;

use crate::order::{lemma_insert_multiset, lemma_lex_asymmetric, lemma_lex_irreflexive, lemma_lex_total, lemma_lex_transitive, lex_le, lex_lt, rank_texts, Rank};
use crate::text::{append_chars, chars_of, joined, string_of};
use crate::wire::{decimal, decimal_text, escaped, json_esc};

verus! {

/// Most events the feed shows.
pub const FEED_CAP: usize = 200;

/// One entry of the feed.
#[derive(Clone, Debug)]
pub struct Event {
    pub at: u64,
    pub kind: String,
    pub title: String,
    pub detail: String,
}

/// `a` comes strictly before `b`: newer, or as new with a kind earlier in
/// code point order.
pub open spec fn event_before(a: Event, b: Event) -> bool {
    a.at > b.at || (a.at == b.at && lex_lt(a.kind@, b.kind@))
}

/// `a` may come before `b`.
pub open spec fn event_le(a: Event, b: Event) -> bool {
    a.at > b.at || (a.at == b.at && lex_le(a.kind@, b.kind@))
}

/// Newest first; among events of one second, kinds in code point order.
pub open spec fn feed_sorted(s: Seq<Event>) -> bool {
    forall|i: int, j: int| 0 <= i < j < s.len() ==> event_le(#[trigger] s[i], #[trigger] s[j])
}

proof fn lemma_event_total(a: Event, b: Event)
    ensures
        !event_before(a, b) ==> event_le(b, a),
{
    lemma_lex_total(a.kind@, b.kind@);
}

proof fn lemma_event_transitive(a: Event, b: Event, c: Event)
    requires
        event_le(a, b),
        event_le(b, c),
    ensures
        event_le(a, c),
{
    if a.at == b.at && b.at == c.at && lex_lt(a.kind@, b.kind@) && lex_lt(b.kind@, c.kind@) {
        lemma_lex_transitive(a.kind@, b.kind@, c.kind@);
    }
}

proof fn lemma_before_le(a: Event, b: Event)
    requires
        event_before(a, b),
    ensures
        event_le(a, b),
{
}

/// `a` strictly before `b`.
fn is_before(a: &Event, b: &Event) -> (r: bool)
    ensures
        r == event_before(*a, *b),
{
    if a.at > b.at {
        true
    } else if a.at < b.at {
        false
    } else {
        let ka = chars_of(a.kind.as_str());
        let kb = chars_of(b.kind.as_str());
        match rank_texts(&ka, &kb) {
            Rank::Precedes => true,
            Rank::Same => {
                proof {
                    lemma_lex_irreflexive(a.kind@);
                }
                false
            },
            Rank::Follows => {
                proof {
                    lemma_lex_asymmetric(a.kind@, b.kind@);
                }
                false
            },
        }
    }
}

/// The events in feed order.
pub fn sort_events(evs: Vec<Event>) -> (r: Vec<Event>)
    ensures
        feed_sorted(r@),
        r@.to_multiset() == evs@.to_multiset(),
{
    let ghost all = evs@;
    let total = evs.len();
    let mut rest = evs;
    let mut out: Vec<Event> = Vec::new();
    let mut i: usize = 0;
    proof {
        broadcast use vstd::seq_lib::group_to_multiset_ensures;
        assert(all.take(0) =~= Seq::<Event>::empty());
    }
    while rest.len() > 0
        invariant
            total == all.len(),
            i + rest@.len() == all.len(),
            rest@ == all.skip(i as int),
            feed_sorted(out@),
            out@.to_multiset() == all.take(i as int).to_multiset(),
        decreases rest@.len(),
    {
        let x = rest.remove(0);
        proof {
            assert(x == all[i as int]);
            assert(rest@ =~= all.skip(i + 1));
        }
        // After every event that x does not strictly precede.
        let mut pos: usize = 0;
        while pos < out.len() && !is_before(&x, &out[pos])
            invariant
                pos <= out@.len(),
                forall|j: int| 0 <= j < pos ==> !event_before(x, #[trigger] out@[j]),
            decreases out@.len() - pos,
        {
            pos = pos + 1;
        }
        let ghost before = out@;
        proof {
            assert forall|j: int| 0 <= j < pos implies event_le(#[trigger] before[j], x) by {
                lemma_event_total(x, before[j]);
            }
            assert forall|j: int| pos <= j < before.len() implies event_le(x, #[trigger] before[j]) by {
                lemma_before_le(x, before[pos as int]);
                if j > pos {
                    lemma_event_transitive(x, before[pos as int], before[j]);
                }
            }
        }
        out.insert(pos, x);
        proof {
            broadcast use vstd::seq_lib::group_to_multiset_ensures;
            assert(out@ =~= before.insert(pos as int, x));
            assert forall|u: int, v: int| 0 <= u < v < out@.len() implies event_le(#[trigger] out@[u], #[trigger] out@[v]) by {
                if v < pos {
                    assert(out@[u] == before[u] && out@[v] == before[v]);
                } else if v == pos {
                    assert(out@[u] == before[u]);
                } else if u == pos {
                    assert(out@[v] == before[v - 1]);
                } else if u < pos {
                    assert(out@[u] == before[u] && out@[v] == before[v - 1]);
                    lemma_event_transitive(before[u], x, before[v - 1]);
                } else {
                    assert(out@[u] == before[u - 1] && out@[v] == before[v - 1]);
                }
            }
            lemma_insert_multiset(before, pos as int, x);
            assert(all.take(i + 1) =~= all.take(i as int).push(x));
        }
        i = i + 1;
    }
    proof {
        assert(all.take(i as int) =~= all);
    }
    out
}

/// One event as a JSON object. Its kind is one of the feed's own words and
/// is written as it is.
pub open spec fn event_json(e: Event) -> Seq<char> {
    "{\"at\":"@ + decimal(e.at as nat) + ",\"kind\":\""@ + e.kind@ + "\",\"title\":\""@ + escaped(e.title@)
        + "\",\"detail\":\""@ + escaped(e.detail@) + "\"}"@
}

/// The feed body for events already in feed order.
pub open spec fn feed_body(s: Seq<Event>) -> Seq<char> {
    "{\"events\":["@ + joined(s.map_values(|e: Event| event_json(e)), seq![',']) + "]}"@
}

fn event_chars(e: &Event) -> (r: Vec<char>)
    ensures
        r@ == event_json(*e),
{
    let mut out = chars_of("{\"at\":");
    append_chars(&mut out, &chars_of(decimal_text(e.at).as_str()));
    append_chars(&mut out, &chars_of(",\"kind\":\""));
    append_chars(&mut out, &chars_of(e.kind.as_str()));
    append_chars(&mut out, &chars_of("\",\"title\":\""));
    append_chars(&mut out, &chars_of(json_esc(e.title.as_str()).as_str()));
    append_chars(&mut out, &chars_of("\",\"detail\":\""));
    append_chars(&mut out, &chars_of(json_esc(e.detail.as_str()).as_str()));
    append_chars(&mut out, &chars_of("\"}"));
    out
}

/// The feed: newest first (kinds in code point order within a second), the
/// first two hundred, as JSON. Among events of one second and one kind the
/// order is not fixed.
pub fn events_json(evs: Vec<Event>) -> (r: String)
    ensures
        exists|s: Seq<Event>|
            #![trigger feed_sorted(s)]
            feed_sorted(s) && s.to_multiset() == evs@.to_multiset() && r@ == feed_body(
                if s.len() > FEED_CAP { s.take(FEED_CAP as int) } else { s },
            ),
{
    let sorted = sort_events(evs);
    let n = if sorted.len() > FEED_CAP { FEED_CAP } else { sorted.len() };
    let ghost shown = if sorted@.len() > FEED_CAP { sorted@.take(FEED_CAP as int) } else { sorted@ };
    let ghost items = shown.map_values(|e: Event| event_json(e));
    let mut out = chars_of("{\"events\":[");
    let ghost head = out@;
    let mut k: usize = 0;
    assert(items.take(0) =~= Seq::<Seq<char>>::empty());
    assert(out@ =~= head + joined(items.take(0), seq![',']));
    while k < n
        invariant
            n == shown.len(),
            n <= sorted@.len(),
            shown == (if sorted@.len() > FEED_CAP { sorted@.take(FEED_CAP as int) } else { sorted@ }),
            items == shown.map_values(|e: Event| event_json(e)),
            k <= n,
            out@ == head + joined(items.take(k as int), seq![',']),
        decreases n - k,
    {
        let ghost o0 = out@;
        if k > 0 {
            out.push(',');
        }
        let ghost o1 = out@;
        append_chars(&mut out, &event_chars(&sorted[k]));
        proof {
            assert(shown[k as int] == sorted@[k as int]);
            assert(items.take(k + 1).drop_last() =~= items.take(k as int));
            assert(items.take(k + 1).last() == event_json(sorted@[k as int]));
            if k == 0 {
                assert(items.take(1).len() == 1);
                assert(joined(items.take(1), seq![',']) == items.take(1)[0]);
                assert(out@ =~= head + joined(items.take(k + 1), seq![',']));
            } else {
                assert(out@ =~= head + (joined(items.take(k as int), seq![',']) + seq![','] + items.take(k + 1).last()));
            }
        }
        k = k + 1;
    }
    append_chars(&mut out, &chars_of("]}"));
    proof {
        assert(items.take(n as int) =~= items);
        assert(out@ =~= feed_body(shown));
    }
    string_of(&out)
}

/// Positions of the stamps, newest first: a permutation of `0..n` whose
/// stamps never increase (equal stamps keep no particular order).
pub fn newest_first(stamps: &[u64]) -> (r: Vec<usize>)
    ensures
        r@.len() == stamps@.len(),
        r@.no_duplicates(),
        forall|i: int| 0 <= i < r@.len() ==> r@[i] < stamps@.len(),
        forall|i: int, j: int| 0 <= i < j < r@.len() ==> stamps@[r@[i] as int] >= stamps@[r@[j] as int],
{
    let mut out: Vec<usize> = Vec::new();
    let n = stamps.len();
    let mut i: usize = 0;
    while i < n
        invariant
            n == stamps@.len(),
            i <= n,
            out@.len() == i,
            out@.no_duplicates(),
            forall|k: int| 0 <= k < out@.len() ==> out@[k] < i,
            forall|u: int, v: int| 0 <= u < v < out@.len() ==> stamps@[out@[u] as int] >= stamps@[out@[v] as int],
        decreases n - i,
    {
        let mut pos: usize = 0;
        while pos < out.len() && stamps[out[pos]] >= stamps[i]
            invariant
                pos <= out@.len(),
                i < n,
                n == stamps@.len(),
                forall|k: int| 0 <= k < out@.len() ==> out@[k] < i,
                forall|j: int| 0 <= j < pos ==> stamps@[out@[j] as int] >= stamps@[i as int],
            decreases out@.len() - pos,
        {
            pos = pos + 1;
        }
        let ghost before = out@;
        out.insert(pos, i);
        proof {
            assert(out@ =~= before.insert(pos as int, i));
            assert forall|u: int, v: int| 0 <= u < v < out@.len() implies stamps@[out@[u] as int] >= stamps@[out@[v] as int] by {
                if v < pos {
                    assert(out@[u] == before[u] && out@[v] == before[v]);
                } else if v == pos {
                    assert(out@[u] == before[u]);
                } else if u == pos {
                    assert(out@[v] == before[v - 1]);
                    if v - 1 > pos {
                        assert(stamps@[before[pos as int] as int] >= stamps@[before[v - 1] as int]);
                    }
                } else if u < pos {
                    assert(out@[u] == before[u] && out@[v] == before[v - 1]);
                    if v - 1 > pos {
                        assert(stamps@[before[pos as int] as int] >= stamps@[before[v - 1] as int]);
                    }
                } else {
                    assert(out@[u] == before[u - 1] && out@[v] == before[v - 1]);
                }
            }
            assert forall|u: int, v: int| 0 <= u < out@.len() && 0 <= v < out@.len() && u != v implies out@[u] != out@[v] by {
                if u != pos && v != pos {
                    let bu = if u < pos { u } else { u - 1 };
                    let bv = if v < pos { v } else { v - 1 };
                    assert(out@[u] == before[bu] && out@[v] == before[bv]);
                } else if u == pos {
                    let bv = if v < pos { v } else { v - 1 };
                    assert(out@[v] == before[bv]);
                } else {
                    let bu = if u < pos { u } else { u - 1 };
                    assert(out@[u] == before[bu]);
                }
            }
            assert forall|k: int| 0 <= k < out@.len() implies out@[k] < i + 1 by {
                if k != pos {
                    let bk = if k < pos { k } else { k - 1 };
                    assert(out@[k] == before[bk]);
                }
            }
        }
        i = i + 1;
    }
    out
}

} // verus!
