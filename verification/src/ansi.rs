//! Terminal escape sequences.

use crate::app::App;
use crate::text::chars_of;
use vstd::prelude::*;

verus! {

/// The character that begins an escape sequence.
pub const ESCAPE: char = '\u{1b}';

/// `c` is an ASCII letter.
pub open spec fn is_ascii_letter(c: char) -> bool {
    'A' as u32 <= c as u32 <= 'Z' as u32 || 'a' as u32 <= c as u32 <= 'z' as u32
}

/// The position after the first letter at or after `i`; the end of the text where none follows.
pub open spec fn after_letter(s: Seq<char>, i: int) -> int
    decreases s.len() - i,
{
    if !(0 <= i < s.len()) {
        i
    } else if is_ascii_letter(s[i]) {
        i + 1
    } else {
        after_letter(s, i + 1)
    }
}

proof fn lemma_after_letter(s: Seq<char>, i: int)
    requires
        0 <= i <= s.len(),
    ensures
        i <= after_letter(s, i) <= s.len(),
    decreases s.len() - i,
{
    if i < s.len() && !is_ascii_letter(s[i]) {
        lemma_after_letter(s, i + 1);
    }
}

/// Where the escape that begins at `i` ends: with a `[` after it, it runs through the next
/// letter; otherwise it is the one character.
pub open spec fn escape_end(s: Seq<char>, i: int) -> int {
    if i + 1 < s.len() && s[i + 1] == '[' {
        after_letter(s, i + 2)
    } else {
        i + 1
    }
}

/// `s` from position `i` on without its escapes.
pub open spec fn without_escapes_from(s: Seq<char>, i: int) -> Seq<char>
    decreases s.len() - i,
    via without_escapes_decreases
{
    if !(0 <= i < s.len()) {
        seq![]
    } else if s[i] == ESCAPE {
        without_escapes_from(s, escape_end(s, i))
    } else {
        seq![s[i]] + without_escapes_from(s, i + 1)
    }
}

#[via_fn]
proof fn without_escapes_decreases(s: Seq<char>, i: int) {
    if 0 <= i && i + 1 < s.len() {
        lemma_after_letter(s, i + 2);
    }
}

/// `s` without its escapes.
pub open spec fn without_escapes(s: Seq<char>) -> Seq<char> {
    without_escapes_from(s, 0)
}

/// No character of `s` begins an escape.
pub open spec fn is_plain(s: Seq<char>) -> bool {
    forall|i: int| 0 <= i < s.len() ==> #[trigger] s[i] != ESCAPE
}

proof fn lemma_result_is_plain(s: Seq<char>, i: int)
    requires
        0 <= i <= s.len(),
    ensures
        is_plain(without_escapes_from(s, i)),
    decreases s.len() - i,
{
    if i < s.len() {
        if s[i] == ESCAPE {
            if i + 1 < s.len() {
                lemma_after_letter(s, i + 2);
            }
            lemma_result_is_plain(s, escape_end(s, i));
        } else {
            lemma_result_is_plain(s, i + 1);
        }
    }
}

proof fn lemma_plain_is_kept(s: Seq<char>, i: int)
    requires
        0 <= i <= s.len(),
        is_plain(s),
    ensures
        without_escapes_from(s, i) == s.skip(i),
    decreases s.len() - i,
{
    if i < s.len() {
        lemma_plain_is_kept(s, i + 1);
        assert(seq![s[i]] + s.skip(i + 1) == s.skip(i));
    } else {
        assert(s.skip(i) == Seq::<char>::empty());
    }
}

/// What remains holds no escape character.
pub proof fn law_stripped_text_is_plain(s: Seq<char>)
    ensures
        is_plain(without_escapes(s)),
{
    lemma_result_is_plain(s, 0);
}

/// A text without escape characters stays as it is.
pub proof fn law_plain_text_is_kept(s: Seq<char>)
    requires
        is_plain(s),
    ensures
        without_escapes(s) == s,
{
    lemma_plain_is_kept(s, 0);
    assert(s.skip(0) == s);
}

/// Stripping a second time changes nothing.
pub proof fn law_stripping_twice_is_stripping_once(s: Seq<char>)
    ensures
        without_escapes(without_escapes(s)) == without_escapes(s),
{
    law_stripped_text_is_plain(s);
    law_plain_text_is_kept(without_escapes(s));
}

/// What stands before a place does not matter for what is stripped after it.
proof fn lemma_after_letter_shift(a: Seq<char>, b: Seq<char>, i: int)
    requires
        0 <= i <= b.len(),
    ensures
        after_letter(a + b, a.len() + i) == a.len() + after_letter(b, i),
    decreases b.len() - i,
{
    if i < b.len() {
        assert((a + b)[a.len() + i] == b[i]);
        if !is_ascii_letter(b[i]) {
            lemma_after_letter_shift(a, b, i + 1);
        }
    }
}

proof fn lemma_shift(a: Seq<char>, b: Seq<char>, i: int)
    requires
        0 <= i <= b.len(),
    ensures
        without_escapes_from(a + b, a.len() + i) == without_escapes_from(b, i),
    decreases b.len() - i,
{
    if i < b.len() {
        assert((a + b)[a.len() + i] == b[i]);
        if b[i] == ESCAPE {
            if i + 1 < b.len() {
                assert((a + b)[a.len() + i + 1] == b[i + 1]);
                lemma_after_letter_shift(a, b, i + 2);
                lemma_after_letter(b, i + 2);
            }
            lemma_shift(a, b, escape_end(b, i));
        } else {
            lemma_shift(a, b, i + 1);
        }
    }
}

proof fn lemma_plain_before(a: Seq<char>, b: Seq<char>, i: int)
    requires
        0 <= i <= a.len(),
        is_plain(a),
    ensures
        without_escapes_from(a + b, i) == a.skip(i) + without_escapes(b),
    decreases a.len() - i,
{
    if i < a.len() {
        assert((a + b)[i] == a[i]);
        lemma_plain_before(a, b, i + 1);
        assert(seq![a[i]] + (a.skip(i + 1) + without_escapes(b)) == a.skip(i) + without_escapes(b));
    } else {
        lemma_shift(a, b, 0);
        assert(a.skip(i) + without_escapes(b) == without_escapes(b));
    }
}

proof fn lemma_first_letter(s: Seq<char>, from: int, to: int)
    requires
        0 <= from <= to <= s.len(),
        forall|i: int| from <= i < to ==> !is_ascii_letter(#[trigger] s[i]),
    ensures
        after_letter(s, from) == (if to < s.len() && is_ascii_letter(s[to]) {
            to + 1
        } else {
            after_letter(s, to)
        }),
    decreases to - from,
{
    if from < to {
        lemma_first_letter(s, from + 1, to);
    }
}

/// Nothing but escapes goes: text before the first escape character stays, and what follows is
/// stripped as it would be by itself.
pub proof fn law_text_before_an_escape_is_kept(a: Seq<char>, b: Seq<char>)
    requires
        is_plain(a),
    ensures
        without_escapes(a + b) == a + without_escapes(b),
{
    lemma_plain_before(a, b, 0);
    assert(a.skip(0) == a);
}

/// An escape character with a `[` after it begins a sequence that runs through its first letter:
/// that much goes, and no more.
pub proof fn law_a_sequence_runs_through_its_first_letter(code: Seq<char>, letter: char, rest: Seq<char>)
    requires
        forall|i: int| 0 <= i < code.len() ==> !is_ascii_letter(#[trigger] code[i]),
        is_ascii_letter(letter),
    ensures
        without_escapes(seq![ESCAPE, '['] + code + seq![letter] + rest) == without_escapes(rest),
{
    let a = seq![ESCAPE, '['] + code + seq![letter];
    let s = a + rest;
    let to = 2 + code.len() as int;
    assert forall|i: int| 2 <= i < to implies !is_ascii_letter(#[trigger] s[i]) by {
        assert(s[i] == code[i - 2]);
    }
    assert(s[to] == letter);
    lemma_first_letter(s, 2, to);
    lemma_shift(a, rest, 0);
}

/// A sequence that no letter ends goes up to the end of the text.
pub proof fn law_an_open_sequence_runs_to_the_end(code: Seq<char>)
    requires
        forall|i: int| 0 <= i < code.len() ==> !is_ascii_letter(#[trigger] code[i]),
    ensures
        without_escapes(seq![ESCAPE, '['] + code) == Seq::<char>::empty(),
{
    let s = seq![ESCAPE, '['] + code;
    assert forall|i: int| 2 <= i < s.len() implies !is_ascii_letter(#[trigger] s[i]) by {
        assert(s[i] == code[i - 2]);
    }
    lemma_first_letter(s, 2, s.len() as int);
    assert(escape_end(s, 0) == s.len());
    assert(without_escapes_from(s, s.len() as int) == Seq::<char>::empty());
}

/// An escape character without a `[` after it goes alone.
pub proof fn law_a_lone_escape_goes_alone(rest: Seq<char>)
    requires
        rest.len() > 0 ==> rest[0] != '[',
    ensures
        without_escapes(seq![ESCAPE] + rest) == without_escapes(rest),
{
    let s = seq![ESCAPE] + rest;
    if rest.len() > 0 {
        assert(s[1] == rest[0]);
    }
    lemma_shift(seq![ESCAPE], rest, 0);
}

impl App {
    /// `s` without its ANSI escape codes.
    pub fn strip_ansi(s: &str) -> (r: String)
        ensures
            r@ == without_escapes(s@),
    {
        let v = chars_of(s);
        let n: usize = v.len();
        let mut result = String::new();
        let mut i: usize = 0;
        assert(result@ + without_escapes_from(v@, 0) == without_escapes(v@));
        while i < n
            invariant
                n == v@.len(),
                i <= n,
                result@ + without_escapes_from(v@, i as int) == without_escapes(v@),
            decreases n - i,
        {
            let c: char = v[i];
            if c == ESCAPE {
                if i + 1 < n && v[i + 1] == '[' {
                    let ghost start = i as int;
                    i += 2;
                    let ghost end = after_letter(v@, start + 2);
                    let mut open: bool = true;
                    while i < n && open
                        invariant
                            n == v@.len(),
                            start + 2 <= i <= n,
                            end == (if open {
                                after_letter(v@, i as int)
                            } else {
                                i as int
                            }),
                        decreases n - i,
                    {
                        let code: u32 = v[i] as u32;
                        if (65 <= code && code <= 90) || (97 <= code && code <= 122) {
                            open = false;
                        }
                        i += 1;
                    }
                    assert(i == end);
                } else {
                    i += 1;
                }
            } else {
                let ghost before = result@;
                result.push(c);
                assert(before + (seq![c] + without_escapes_from(v@, i + 1)) == result@
                    + without_escapes_from(v@, i + 1));
                i += 1;
            }
        }
        assert(result@ + without_escapes_from(v@, n as int) == result@);
        result
    }
}

/// The letters that end a sequence are those from `A` to `Z` and from `a` to `z`.
pub proof fn law_letters_are_those_of_ascii(c: char)
    ensures
        is_ascii_letter(c) <==> 65 <= c as u32 <= 90 || 97 <= c as u32 <= 122,
        ESCAPE as u32 == 27,
{
}

} // verus!
