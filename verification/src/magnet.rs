//! What a magnet link in a page's source looks like.

use crate::text::{is_white_space, occurs_at};
use vstd::prelude::*;

verus! {

/// The pattern by which magnet links are found in a page's source.
pub const MAGNET_PATTERN: &'static str = "magnet:\\?[^\\s<>\"']+|magnet:\\?[^\\s<>'\"]+";

/// The selector for the anchors of a page that lead somewhere.
pub const ANCHOR_SELECTOR: &'static str = "a[href]";

/// The attribute that says where an anchor leads.
pub const ANCHOR_ATTRIBUTE: &'static str = "href";

/// What every magnet link begins with.
pub open spec fn magnet_prefix() -> Seq<char> {
    seq!['m', 'a', 'g', 'n', 'e', 't', ':', '?']
}

/// A character that a magnet link may hold after its prefix: neither white space, nor an angle
/// bracket, nor a quote.
pub open spec fn is_magnet_char(c: char) -> bool {
    !is_white_space(c) && c != '<' && c != '>' && c != '"' && c != '\''
}

/// A magnet link begins at `i`: the prefix stands there, with at least one character after it.
pub open spec fn magnet_at(s: Seq<char>, i: int) -> bool {
    occurs_at(s, magnet_prefix(), i) && i + 8 < s.len() && is_magnet_char(s[i + 8])
}

/// Where the run of magnet characters from `i` on ends.
pub open spec fn magnet_end(s: Seq<char>, i: int) -> int
    decreases s.len() - i,
{
    if 0 <= i < s.len() && is_magnet_char(s[i]) {
        magnet_end(s, i + 1)
    } else {
        i
    }
}

/// The end of a run lies between its start and the end of the text.
pub proof fn lemma_magnet_end(s: Seq<char>, i: int)
    requires
        0 <= i <= s.len(),
    ensures
        i <= magnet_end(s, i) <= s.len(),
        forall|j: int| i <= j < magnet_end(s, i) ==> is_magnet_char(#[trigger] s[j]),
        magnet_end(s, i) < s.len() ==> !is_magnet_char(s[magnet_end(s, i)]),
    decreases s.len() - i,
{
    if i < s.len() && is_magnet_char(s[i]) {
        lemma_magnet_end(s, i + 1);
    }
}

/// The magnet links of `s` from position `i` on: each the leftmost one after the one before,
/// and each as long as it can be.
pub open spec fn magnets_from(s: Seq<char>, i: int) -> Seq<Seq<char>>
    decreases s.len() - i,
    via magnets_from_decreases
{
    if !(0 <= i < s.len()) {
        seq![]
    } else if magnet_at(s, i) {
        let end = magnet_end(s, i + 8);
        seq![s.subrange(i, end)] + magnets_from(s, end)
    } else {
        magnets_from(s, i + 1)
    }
}

#[via_fn]
proof fn magnets_from_decreases(s: Seq<char>, i: int) {
    if 0 <= i < s.len() && magnet_at(s, i) {
        lemma_magnet_end(s, i + 8);
    }
}

/// The magnet links in a page's source, in order.
pub open spec fn magnets_in(s: Seq<char>) -> Seq<Seq<char>> {
    magnets_from(s, 0)
}

/// `m` has the form of a magnet link: the prefix, and then at least one character, all of them
/// fit for a magnet link.
pub open spec fn is_magnet_link(m: Seq<char>) -> bool {
    &&& m.len() > 8
    &&& m.take(8) == magnet_prefix()
    &&& forall|j: int| 8 <= j < m.len() ==> is_magnet_char(#[trigger] m[j])
}

proof fn lemma_found_magnets(s: Seq<char>, i: int, k: int)
    requires
        0 <= i <= s.len(),
        0 <= k < magnets_from(s, i).len(),
    ensures
        is_magnet_link(magnets_from(s, i)[k]),
        crate::text::occurs(s, magnets_from(s, i)[k]),
    decreases s.len() - i,
{
    if i < s.len() {
        if magnet_at(s, i) {
            let end = magnet_end(s, i + 8);
            lemma_magnet_end(s, i + 8);
            let m = s.subrange(i, end);
            if k == 0 {
                assert(magnet_end(s, i + 8) == magnet_end(s, i + 9));
                lemma_magnet_end(s, i + 9);
                assert(m.take(8) == s.subrange(i, i + 8));
                assert forall|j: int| 8 <= j < m.len() implies is_magnet_char(#[trigger] m[j]) by {
                    assert(m[j] == s[i + j]);
                }
                assert(occurs_at(s, m, i));
            } else {
                lemma_found_magnets(s, end, k - 1);
            }
        } else {
            lemma_found_magnets(s, i + 1, k);
        }
    }
}

/// Whatever is found in a page has the form of a magnet link and stands in the page's source
/// as it was found.
pub proof fn law_found_magnets_are_magnet_links(s: Seq<char>, k: int)
    requires
        0 <= k < magnets_in(s).len(),
    ensures
        is_magnet_link(magnets_in(s)[k]),
        crate::text::occurs(s, magnets_in(s)[k]),
{
    lemma_found_magnets(s, 0, k);
}

proof fn lemma_some_magnet_found(s: Seq<char>, i: int, p: int)
    requires
        0 <= i <= p < s.len(),
        magnet_at(s, p),
    ensures
        magnets_from(s, i).len() > 0,
    decreases p - i,
{
    if !magnet_at(s, i) {
        lemma_some_magnet_found(s, i + 1, p);
    }
}

/// A page in whose source a magnet link begins yields at least one.
pub proof fn law_magnet_is_not_missed(s: Seq<char>, p: int)
    requires
        magnet_at(s, p),
    ensures
        magnets_in(s).len() > 0,
{
    lemma_some_magnet_found(s, 0, p);
}

/// A magnet link ends before white space, an angle bracket or a quote, and before nothing else.
pub proof fn law_magnet_links_end_at_space_brackets_and_quotes(c: char)
    ensures
        is_magnet_char(c) <==> !is_white_space(c) && c as u32 != 34 && c as u32 != 39 && c as u32
            != 60 && c as u32 != 62,
        magnet_prefix() == "magnet:?"@,
        ANCHOR_SELECTOR@ == "a[href]"@,
        ANCHOR_ATTRIBUTE@ == "href"@,
        MAGNET_PATTERN@ == "magnet:\\?[^\\s<>\"']+|magnet:\\?[^\\s<>'\"]+"@,
{
    reveal_strlit("magnet:?");
    assert(magnet_prefix() =~= "magnet:?"@);
}

proof fn lemma_magnet_at_shift(a: Seq<char>, b: Seq<char>, i: int)
    requires
        0 <= i <= b.len(),
    ensures
        magnet_at(a + b, a.len() + i) <==> magnet_at(b, i),
{
    let s = a + b;
    let p = a.len() + i;
    if i + 8 <= b.len() {
        assert(s.subrange(p, p + 8) =~= b.subrange(i, i + 8));
    }
    if i + 8 < b.len() {
        assert(s[p + 8] == b[i + 8]);
    }
}

proof fn lemma_magnet_end_shift(a: Seq<char>, b: Seq<char>, i: int)
    requires
        0 <= i <= b.len(),
    ensures
        magnet_end(a + b, a.len() + i) == a.len() + magnet_end(b, i),
    decreases b.len() - i,
{
    if i < b.len() {
        assert((a + b)[a.len() + i] == b[i]);
        if is_magnet_char(b[i]) {
            lemma_magnet_end_shift(a, b, i + 1);
        }
    }
}

proof fn lemma_magnets_shift(a: Seq<char>, b: Seq<char>, i: int)
    requires
        0 <= i <= b.len(),
    ensures
        magnets_from(a + b, a.len() + i) == magnets_from(b, i),
    decreases b.len() - i,
{
    if i < b.len() {
        lemma_magnet_at_shift(a, b, i);
        if magnet_at(b, i) {
            let end = magnet_end(b, i + 8);
            lemma_magnet_end(b, i + 8);
            lemma_magnet_end_shift(a, b, i + 8);
            lemma_magnets_shift(a, b, end);
            assert((a + b).subrange(a.len() + i, a.len() + end) =~= b.subrange(i, end));
        } else {
            lemma_magnets_shift(a, b, i + 1);
        }
    }
}

proof fn lemma_magnets_skip(s: Seq<char>, from: int, to: int)
    requires
        0 <= from <= to <= s.len(),
        forall|i: int| from <= i < to ==> !#[trigger] magnet_at(s, i),
    ensures
        magnets_from(s, from) == magnets_from(s, to),
    decreases to - from,
{
    if from < to {
        assert(!magnet_at(s, from));
        lemma_magnets_skip(s, from + 1, to);
    }
}

proof fn lemma_magnet_run(s: Seq<char>, from: int, to: int)
    requires
        0 <= from <= to <= s.len(),
        forall|i: int| from <= i < to ==> is_magnet_char(#[trigger] s[i]),
        to < s.len() ==> !is_magnet_char(s[to]),
    ensures
        magnet_end(s, from) == to,
    decreases to - from,
{
    if from < to {
        lemma_magnet_run(s, from + 1, to);
    }
}

/// A magnet link begins in `s` at `i`: `magnet:?` stands there and a character that fits follows.
pub open spec fn begins_at(s: Seq<char>, i: int) -> bool {
    &&& 0 <= i
    &&& i + 8 < s.len()
    &&& s.subrange(i, i + 8) == "magnet:?"@
    &&& is_magnet_char(s[i + 8])
}

/// The magnet links of a text are found one after another: the first one that begins, as far as
/// characters fit, and then those of what follows it.
pub proof fn law_magnet_links_are_found_one_after_another(
    before: Seq<char>,
    link: Seq<char>,
    after: Seq<char>,
)
    requires
        link.len() > 8,
        link.take(8) == "magnet:?"@,
        forall|j: int| 8 <= j < link.len() ==> is_magnet_char(#[trigger] link[j]),
        after.len() > 0 ==> !is_magnet_char(after[0]),
        forall|i: int| 0 <= i < before.len() ==> !#[trigger] begins_at(before + link + after, i),
    ensures
        magnets_in(before + link + after) == seq![link] + magnets_in(after),
{
    reveal_strlit("magnet:?");
    assert(magnet_prefix() =~= "magnet:?"@);
    let s = before + link + after;
    let p = before.len() as int;
    let end = p + link.len();
    assert forall|i: int| 0 <= i < p implies !#[trigger] magnet_at(s, i) by {
        assert(!begins_at(s, i));
    }
    lemma_magnets_skip(s, 0, p);
    assert(s.subrange(p, p + 8) =~= link.take(8));
    assert(s[p + 8] == link[8]);
    assert(magnet_at(s, p));
    assert forall|i: int| p + 8 <= i < end implies is_magnet_char(#[trigger] s[i]) by {
        assert(s[i] == link[i - p]);
    }
    if end < s.len() {
        assert(s[end] == after[0]);
    }
    lemma_magnet_run(s, p + 8, end);
    assert(s.subrange(p, end) =~= link);
    assert(s =~= (before + link) + after);
    lemma_magnets_shift(before + link, after, 0);
}

/// A text in which no magnet link begins has none.
pub proof fn law_no_magnet_links_are_made_up(s: Seq<char>)
    requires
        forall|i: int| !#[trigger] begins_at(s, i),
    ensures
        magnets_in(s).len() == 0,
{
    reveal_strlit("magnet:?");
    assert(magnet_prefix() =~= "magnet:?"@);
    assert forall|i: int| 0 <= i < s.len() implies !#[trigger] magnet_at(s, i) by {
        assert(!begins_at(s, i));
    }
    lemma_magnets_skip(s, 0, s.len() as int);
}

} // verus!
