//! Strings as sequences of characters: searching, splitting and trimming.

use vstd::prelude::*;

verus! {

/// `needle` stands in `hay` at position `i`.
pub open spec fn occurs_at<A>(hay: Seq<A>, needle: Seq<A>, i: int) -> bool {
    &&& 0 <= i
    &&& i + needle.len() <= hay.len()
    &&& hay.subrange(i, i + needle.len()) == needle
}

/// `i` is the lowest position at which `needle` stands in `hay`.
pub open spec fn occurs_first_at<A>(hay: Seq<A>, needle: Seq<A>, i: int) -> bool {
    &&& occurs_at(hay, needle, i)
    &&& forall|j: int| j < i ==> !#[trigger] occurs_at(hay, needle, j)
}

/// `needle` stands somewhere in `hay`.
pub open spec fn occurs<A>(hay: Seq<A>, needle: Seq<A>) -> bool {
    exists|i: int| #[trigger] occurs_at(hay, needle, i)
}

/// The lowest position at which `needle` stands in `hay`.
pub open spec fn first_occurrence<A>(hay: Seq<A>, needle: Seq<A>) -> Option<int> {
    if exists|i: int| occurs_first_at(hay, needle, i) {
        Some(choose|i: int| occurs_first_at(hay, needle, i))
    } else {
        None
    }
}

/// A position that is lowest is the one that `first_occurrence` names.
pub proof fn lemma_first_occurrence<A>(hay: Seq<A>, needle: Seq<A>, i: int)
    requires
        occurs_first_at(hay, needle, i),
    ensures
        first_occurrence(hay, needle) == Some(i),
{
    let k = choose|k: int| occurs_first_at(hay, needle, k);
    assert(occurs_first_at(hay, needle, k));
    assert(k == i) by {
        if k < i {
            assert(occurs_at(hay, needle, k));
        }
        if i < k {
            assert(occurs_at(hay, needle, i));
        }
    }
}

/// The characters of `s`, in order.
pub fn chars_of(s: &str) -> (v: Vec<char>)
    ensures
        v@ == s@,
{
    let mut v: Vec<char> = Vec::new();
    for c in it: s.chars()
        invariant
            v@ == s@.take(it.index() as int),
            it.seq() == s@,
    {
        v.push(c);
        assert(s@.take(it.index() as int + 1) == s@.take(it.index() as int).push(c));
    }
    assert(s@.take(s@.len() as int) == s@);
    v
}

/// The string made of `v[from..to]`.
pub fn string_of(v: &Vec<char>, from: usize, to: usize) -> (s: String)
    requires
        from <= to <= v@.len(),
    ensures
        s@ == v@.subrange(from as int, to as int),
{
    let mut s = String::new();
    let mut i: usize = from;
    assert(v@.subrange(from as int, from as int) == s@);
    while i < to
        invariant
            from <= i <= to <= v@.len(),
            s@ == v@.subrange(from as int, i as int),
        decreases to - i,
    {
        s.push(v[i]);
        assert(v@.subrange(from as int, i + 1) == v@.subrange(from as int, i as int).push(v[i as int]));
        i += 1;
    }
    s
}

/// Whether `needle` stands in `hay` at `at`.
pub fn chars_at(hay: &Vec<char>, needle: &Vec<char>, at: usize) -> (r: bool)
    ensures
        r == occurs_at(hay@, needle@, at as int),
{
    let n: usize = hay.len();
    let m: usize = needle.len();
    if at > n || m > n - at {
        return false;
    }
    let mut i: usize = 0;
    while i < m
        invariant
            n == hay@.len(),
            m == needle@.len(),
            at + m <= n,
            i <= m,
            forall|j: int| 0 <= j < i ==> hay@[at + j] == needle@[j],
        decreases m - i,
    {
        if hay[at + i] != needle[i] {
            assert(hay@.subrange(at as int, at + needle@.len())[i as int] != needle@[i as int]);
            return false;
        }
        i += 1;
    }
    assert(hay@.subrange(at as int, at + needle@.len()) =~= needle@);
    true
}

/// The lowest position at which `needle` stands in `hay`.
pub fn find_chars(hay: &Vec<char>, needle: &Vec<char>) -> (r: Option<usize>)
    ensures
        r is Some <==> occurs(hay@, needle@),
        r is Some ==> first_occurrence(hay@, needle@) == Some(r->0 as int),
        r is None ==> first_occurrence(hay@, needle@) is None,
        r is Some ==> r->0 + needle@.len() <= hay@.len(),
{
    let mut i: usize = 0;
    while i < hay.len()
        invariant
            i <= hay@.len(),
            forall|j: int| j < i ==> !#[trigger] occurs_at(hay@, needle@, j),
        decreases hay.len() - i,
    {
        if chars_at(hay, needle, i) {
            proof {
                lemma_first_occurrence(hay@, needle@, i as int);
            }
            return Some(i);
        }
        i += 1;
    }
    if chars_at(hay, needle, i) {
        proof {
            lemma_first_occurrence(hay@, needle@, i as int);
        }
        return Some(i);
    }
    None
}

/// The characters with Unicode's White_Space property.
pub open spec fn is_white_space(c: char) -> bool {
    let u = c as u32;
    ||| 0x9 <= u <= 0xd
    ||| u == 0x20
    ||| u == 0x85
    ||| u == 0xa0
    ||| u == 0x1680
    ||| 0x2000 <= u <= 0x200a
    ||| 0x2028 <= u <= 0x2029
    ||| u == 0x202f
    ||| u == 0x205f
    ||| u == 0x3000
}

/// Whether `c` is white space.
pub fn white_space(c: char) -> (r: bool)
    ensures
        r == is_white_space(c),
{
    let u: u32 = c as u32;
    (0x9 <= u && u <= 0xd) || u == 0x20 || u == 0x85 || u == 0xa0 || u == 0x1680 || (0x2000 <= u && u
        <= 0x200a) || (0x2028 <= u && u <= 0x2029) || u == 0x202f || u == 0x205f || u == 0x3000
}

/// `s` without leading and trailing white space.
pub open spec fn trimmed(s: Seq<char>) -> Seq<char>
    decreases s.len(),
{
    if s.len() == 0 {
        s
    } else if is_white_space(s.first()) {
        trimmed(s.drop_first())
    } else if is_white_space(s.last()) {
        trimmed(s.drop_last())
    } else {
        s
    }
}

/// The bounds of `v` without leading and trailing white space.
pub fn trim_bounds(v: &Vec<char>) -> (r: (usize, usize))
    ensures
        r.0 <= r.1 <= v@.len(),
        v@.subrange(r.0 as int, r.1 as int) == trimmed(v@),
{
    let mut from: usize = 0;
    let mut to: usize = v.len();
    assert(v@.subrange(0, to as int) == v@);
    while from < to && white_space(v[from])
        invariant
            from <= to == v@.len(),
            trimmed(v@) == trimmed(v@.subrange(from as int, to as int)),
        decreases to - from,
    {
        let ghost s = v@.subrange(from as int, to as int);
        assert(s.drop_first() == v@.subrange(from + 1, to as int));
        from += 1;
    }
    assert(from == to || !is_white_space(v@[from as int]));
    while from < to && white_space(v[to - 1])
        invariant
            from <= to <= v@.len(),
            from == to || !is_white_space(v@[from as int]),
            trimmed(v@) == trimmed(v@.subrange(from as int, to as int)),
        decreases to - from,
    {
        let ghost s = v@.subrange(from as int, to as int);
        assert(s.drop_last() == v@.subrange(from as int, to - 1));
        to -= 1;
    }
    (from, to)
}

/// Where the word that runs through position `i` ends.
pub open spec fn word_end(s: Seq<char>, i: int) -> int
    decreases s.len() - i,
{
    if 0 <= i < s.len() && !is_white_space(s[i]) {
        word_end(s, i + 1)
    } else {
        i
    }
}

proof fn lemma_word_end(s: Seq<char>, i: int)
    requires
        0 <= i <= s.len(),
    ensures
        i <= word_end(s, i) <= s.len(),
        i < s.len() && !is_white_space(s[i]) ==> i < word_end(s, i),
    decreases s.len() - i,
{
    if i < s.len() && !is_white_space(s[i]) {
        lemma_word_end(s, i + 1);
    }
}

/// The maximal runs without white space in `s` from position `i` on.
pub open spec fn words_from(s: Seq<char>, i: int) -> Seq<Seq<char>>
    decreases s.len() - i,
    via words_from_decreases
{
    if !(0 <= i < s.len()) {
        seq![]
    } else if is_white_space(s[i]) {
        words_from(s, i + 1)
    } else {
        seq![s.subrange(i, word_end(s, i))] + words_from(s, word_end(s, i))
    }
}

#[via_fn]
proof fn words_from_decreases(s: Seq<char>, i: int) {
    if 0 <= i < s.len() {
        lemma_word_end(s, i);
    }
}

/// The words of `s`: its maximal runs without white space, in order.
pub open spec fn words(s: Seq<char>) -> Seq<Seq<char>> {
    words_from(s, 0)
}

/// The views of a sequence of character vectors.
pub open spec fn char_views(v: Seq<Vec<char>>) -> Seq<Seq<char>> {
    v.map_values(|w: Vec<char>| w@)
}

/// The views of a sequence of strings.
pub open spec fn texts(v: Seq<String>) -> Seq<Seq<char>> {
    v.map_values(|s: String| s@)
}

/// The view of an optional text.
pub open spec fn optional_text(t: Option<String>) -> Option<Seq<char>> {
    match t {
        Some(s) => Some(s@),
        None => None,
    }
}

/// The views of a sequence of optional texts.
pub open spec fn optional_texts(v: Seq<Option<String>>) -> Seq<Option<Seq<char>>> {
    v.map_values(|t: Option<String>| optional_text(t))
}

/// A copy of `v[from..to]`.
pub fn chars_between(v: &Vec<char>, from: usize, to: usize) -> (r: Vec<char>)
    requires
        from <= to <= v@.len(),
    ensures
        r@ == v@.subrange(from as int, to as int),
{
    let mut r: Vec<char> = Vec::new();
    let mut i: usize = from;
    while i < to
        invariant
            from <= i <= to <= v@.len(),
            r@ == v@.subrange(from as int, i as int),
        decreases to - i,
    {
        r.push(v[i]);
        i += 1;
    }
    r
}

/// The words of `v`.
pub fn split_words(v: &Vec<char>) -> (r: Vec<Vec<char>>)
    ensures
        char_views(r@) == words(v@),
{
    let n: usize = v.len();
    let mut r: Vec<Vec<char>> = Vec::new();
    let mut i: usize = 0;
    assert(char_views(r@) + words_from(v@, 0) == words_from(v@, 0));
    while i < n
        invariant
            n == v@.len(),
            i <= n,
            char_views(r@) + words_from(v@, i as int) == words(v@),
        decreases n - i,
    {
        if white_space(v[i]) {
            i += 1;
        } else {
            let start: usize = i;
            proof {
                lemma_word_end(v@, start as int);
            }
            while i < n && !white_space(v[i])
                invariant
                    n == v@.len(),
                    start <= i <= n,
                    word_end(v@, i as int) == word_end(v@, start as int),
                decreases n - i,
            {
                i += 1;
            }
            let ghost before = r@;
            let word = chars_between(v, start, i);
            r.push(word);
            assert(char_views(r@) == char_views(before).push(word@));
            assert(char_views(before) + (seq![word@] + words_from(v@, i as int)) == char_views(r@)
                + words_from(v@, i as int));
        }
    }
    assert(char_views(r@) + words_from(v@, n as int) == char_views(r@));
    r
}

/// Whether `hay` holds `needle`.
pub fn has_text(hay: &Vec<char>, needle: &str) -> (r: bool)
    ensures
        r == occurs(hay@, needle@),
{
    let needle = chars_of(needle);
    find_chars(hay, &needle).is_some()
}

/// Whether `hay` begins with `needle`.
pub fn begins_with(hay: &Vec<char>, needle: &str) -> (r: bool)
    ensures
        r == needle@.is_prefix_of(hay@),
{
    let needle = chars_of(needle);
    let r = chars_at(hay, &needle, 0);
    assert(needle@.len() <= hay@.len() ==> hay@.subrange(0, needle@.len() as int) == hay@.take(
        needle@.len() as int,
    ));
    r
}

/// Whether `hay` ends with `needle`.
pub fn ends_with(hay: &Vec<char>, needle: &str) -> (r: bool)
    ensures
        r == needle@.is_suffix_of(hay@),
{
    let needle = chars_of(needle);
    if needle.len() > hay.len() {
        return false;
    }
    chars_at(hay, &needle, hay.len() - needle.len())
}

/// The first position of the character `c` in `s`, or the length of `s`.
pub open spec fn char_position(s: Seq<char>, c: char) -> int
    decreases s.len(),
{
    if s.len() == 0 || s.first() == c {
        0
    } else {
        1 + char_position(s.drop_first(), c)
    }
}

/// The first position of `c` in `s`, or the length of `s` where it does not occur.
pub fn position_of(s: &Vec<char>, c: char) -> (r: usize)
    ensures
        r == char_position(s@, c),
        r <= s@.len(),
        r < s@.len() ==> s@[r as int] == c,
        forall|j: int| 0 <= j < r ==> s@[j] != c,
{
    let mut i: usize = 0;
    assert(s@.skip(0) == s@);
    while i < s.len() && s[i] != c
        invariant
            i <= s@.len(),
            char_position(s@, c) == i + char_position(s@.skip(i as int), c),
            forall|j: int| 0 <= j < i ==> s@[j] != c,
        decreases s.len() - i,
    {
        assert(s@.skip(i as int).drop_first() == s@.skip(i + 1));
        i += 1;
    }
    i
}

/// Two strings with the same characters.
pub fn same_text(a: &str, b: &str) -> (r: bool)
    ensures
        r == (a@ == b@),
{
    let a = chars_of(a);
    let b = chars_of(b);
    if a.len() != b.len() {
        return false;
    }
    let r = chars_at(&a, &b, 0);
    assert(a@.subrange(0, a@.len() as int) == a@);
    r
}

/// `parts` written one after another with `separator` between neighbours.
pub open spec fn joined(parts: Seq<Seq<char>>, separator: Seq<char>) -> Seq<char>
    decreases parts.len(),
{
    if parts.len() == 0 {
        seq![]
    } else if parts.len() == 1 {
        parts[0]
    } else {
        joined(parts.drop_last(), separator) + separator + parts.last()
    }
}

/// `parts` written one after another with `separator` between neighbours.
pub fn join(parts: &Vec<String>, separator: &str) -> (r: String)
    ensures
        r@ == joined(texts(parts@), separator@),
{
    let mut r = String::new();
    let mut i: usize = 0;
    assert(texts(parts@).take(0) == Seq::<Seq<char>>::empty());
    while i < parts.len()
        invariant
            i <= parts@.len(),
            r@ == joined(texts(parts@).take(i as int), separator@),
        decreases parts.len() - i,
    {
        let ghost whole = texts(parts@);
        if i > 0 {
            r.append(separator);
        }
        r.append(parts[i].as_str());
        proof {
            let ghost next = whole.take(i + 1);
            assert(next.drop_last() == whole.take(i as int));
            assert(next.last() == parts@[i as int]@);
            assert(r@ == joined(next, separator@));
        }
        i += 1;
    }
    assert(texts(parts@).take(parts@.len() as int) == texts(parts@));
    r
}

/// White space is the tab, the line and page breaks, the space, and Unicode's other spaces.
pub proof fn law_white_space_is_that_of_unicode(c: char)
    ensures
        is_white_space(c) <==> (c == '\u{9}' || c == '\u{a}' || c == '\u{b}' || c == '\u{c}' || c
            == '\u{d}' || c == ' ' || c == '\u{85}' || c == '\u{a0}' || c == '\u{1680}' || c
            == '\u{2000}' || c == '\u{2001}' || c == '\u{2002}' || c == '\u{2003}' || c == '\u{2004}'
            || c == '\u{2005}' || c == '\u{2006}' || c == '\u{2007}' || c == '\u{2008}' || c
            == '\u{2009}' || c == '\u{200a}' || c == '\u{2028}' || c == '\u{2029}' || c == '\u{202f}'
            || c == '\u{205f}' || c == '\u{3000}'),
{
}

proof fn lemma_some_first<A>(hay: Seq<A>, needle: Seq<A>, i: int)
    requires
        occurs_at(hay, needle, i),
    ensures
        exists|k: int| occurs_first_at(hay, needle, k),
    decreases i,
{
    if exists|j: int| 0 <= j < i && occurs_at(hay, needle, j) {
        let j = choose|j: int| 0 <= j < i && occurs_at(hay, needle, j);
        lemma_some_first(hay, needle, j);
    } else {
        assert forall|j: int| j < i implies !#[trigger] occurs_at(hay, needle, j) by {
            if 0 <= j {
                assert(!(0 <= j < i && occurs_at(hay, needle, j)));
            }
        }
        assert(occurs_first_at(hay, needle, i));
    }
}

/// The place that is found is the lowest at which the text stands, and none is found only where the
/// text stands nowhere.
pub proof fn law_the_lowest_place_is_found<A>(hay: Seq<A>, needle: Seq<A>)
    ensures
        match first_occurrence(hay, needle) {
            Some(i) => {
                &&& 0 <= i <= hay.len() - needle.len()
                &&& hay.subrange(i, i + needle.len()) == needle
                &&& forall|j: int|
                    0 <= j < i ==> #[trigger] hay.subrange(j, j + needle.len()) != needle
            },
            None => forall|j: int|
                0 <= j <= hay.len() - needle.len() ==> #[trigger] hay.subrange(j, j + needle.len())
                    != needle,
        },
{
    match first_occurrence(hay, needle) {
        Some(i) => {
            assert(occurs_first_at(hay, needle, i));
            assert forall|j: int| 0 <= j < i implies #[trigger] hay.subrange(j, j + needle.len())
                != needle by {
                assert(!occurs_at(hay, needle, j));
            }
        },
        None => {
            assert forall|j: int| 0 <= j <= hay.len() - needle.len() implies #[trigger] hay.subrange(
                j,
                j + needle.len(),
            ) != needle by {
                if hay.subrange(j, j + needle.len()) == needle {
                    assert(occurs_at(hay, needle, j));
                    lemma_some_first(hay, needle, j);
                }
            }
        },
    }
}

/// A text stands in another exactly where the other is it with something before and something
/// after.
pub proof fn law_a_text_stands_between_two_others<A>(hay: Seq<A>, needle: Seq<A>)
    ensures
        occurs(hay, needle) <==> exists|before: Seq<A>, after: Seq<A>|
            hay == #[trigger] (before + needle + after),
{
    if occurs(hay, needle) {
        let i = choose|i: int| #[trigger] occurs_at(hay, needle, i);
        assert(hay =~= hay.take(i) + needle + hay.skip(i + needle.len())) by {
            assert(hay.subrange(i, i + needle.len()) == needle);
            assert forall|k: int| 0 <= k < needle.len() implies hay[i + k] == needle[k] by {
                assert(hay.subrange(i, i + needle.len())[k] == needle[k]);
            }
        }
    }
    if exists|before: Seq<A>, after: Seq<A>| hay == #[trigger] (before + needle + after) {
        let (before, after) = choose|before: Seq<A>, after: Seq<A>|
            hay == #[trigger] (before + needle + after);
        let i = before.len() as int;
        assert(hay.subrange(i, i + needle.len()) =~= needle);
        assert(occurs_at(hay, needle, i));
    }
}

/// A character is found where it stands first.
pub proof fn law_a_character_is_found_where_it_is_first(before: Seq<char>, c: char, after: Seq<char>)
    requires
        !before.contains(c),
    ensures
        char_position(before + seq![c] + after, c) == before.len(),
    decreases before.len(),
{
    let s = before + seq![c] + after;
    if before.len() > 0 {
        let rest = before.drop_first();
        assert(before.contains(before[0]));
        assert(!rest.contains(c)) by {
            if rest.contains(c) {
                let k = choose|k: int| 0 <= k < rest.len() && rest[k] == c;
                assert(before[k + 1] == c);
            }
        }
        assert(s.first() == before[0]);
        assert(s.drop_first() =~= rest + seq![c] + after);
        law_a_character_is_found_where_it_is_first(rest, c, after);
    } else {
        assert(s.first() == c);
    }
}

/// A character that is not there is looked for up to the end.
pub proof fn law_a_missing_character_is_past_the_end(s: Seq<char>, c: char)
    requires
        !s.contains(c),
    ensures
        char_position(s, c) == s.len(),
    decreases s.len(),
{
    if s.len() > 0 {
        let rest = s.drop_first();
        assert(s.contains(s[0]));
        assert(!rest.contains(c)) by {
            if rest.contains(c) {
                let k = choose|k: int| 0 <= k < rest.len() && rest[k] == c;
                assert(s[k + 1] == c);
            }
        }
        law_a_missing_character_is_past_the_end(rest, c);
    }
}

/// Every character of `s` is white space.
pub open spec fn all_white(s: Seq<char>) -> bool {
    forall|i: int| 0 <= i < s.len() ==> is_white_space(#[trigger] s[i])
}

/// No character of `s` is white space.
pub open spec fn no_white(s: Seq<char>) -> bool {
    forall|i: int| 0 <= i < s.len() ==> !is_white_space(#[trigger] s[i])
}

/// Trimming takes the white space before and after a text away, and nothing else.
pub proof fn law_trimming_takes_the_white_space_around(
    before: Seq<char>,
    text: Seq<char>,
    after: Seq<char>,
)
    requires
        all_white(before),
        all_white(after),
        text.len() > 0 ==> !is_white_space(text[0]) && !is_white_space(text[text.len() - 1]),
    ensures
        trimmed(before + text + after) == text,
    decreases before.len() + after.len(),
{
    let s = before + text + after;
    if before.len() > 0 {
        let rest = before.drop_first();
        assert forall|i: int| 0 <= i < rest.len() implies is_white_space(#[trigger] rest[i]) by {
            assert(rest[i] == before[i + 1]);
        }
        assert(is_white_space(before[0]));
        assert(s.first() == before[0]);
        assert(s.drop_first() =~= rest + text + after);
        law_trimming_takes_the_white_space_around(rest, text, after);
    } else if after.len() > 0 {
        if text.len() == 0 {
            let rest = after.drop_first();
            assert forall|i: int| 0 <= i < rest.len() implies is_white_space(#[trigger] rest[i]) by {
                assert(rest[i] == after[i + 1]);
            }
            assert(is_white_space(after[0]));
            assert(s.first() == after[0]);
            assert(s.drop_first() =~= before + text + rest);
            law_trimming_takes_the_white_space_around(before, text, rest);
        } else {
            let rest = after.drop_last();
            assert forall|i: int| 0 <= i < rest.len() implies is_white_space(#[trigger] rest[i]) by {
                assert(rest[i] == after[i]);
            }
            assert(is_white_space(after[after.len() - 1]));
            assert(s.last() == after[after.len() - 1]);
            assert(s.first() == text[0]);
            assert(s.drop_last() =~= before + text + rest);
            law_trimming_takes_the_white_space_around(before, text, rest);
        }
    } else {
        assert(s =~= text);
    }
}

proof fn lemma_word_end_shift(a: Seq<char>, b: Seq<char>, i: int)
    requires
        0 <= i <= b.len(),
    ensures
        word_end(a + b, a.len() + i) == a.len() + word_end(b, i),
    decreases b.len() - i,
{
    if i < b.len() {
        assert((a + b)[a.len() + i] == b[i]);
        if !is_white_space(b[i]) {
            lemma_word_end_shift(a, b, i + 1);
        }
    }
}

proof fn lemma_words_shift(a: Seq<char>, b: Seq<char>, i: int)
    requires
        0 <= i <= b.len(),
    ensures
        words_from(a + b, a.len() + i) == words_from(b, i),
    decreases b.len() - i,
{
    if i < b.len() {
        assert((a + b)[a.len() + i] == b[i]);
        if is_white_space(b[i]) {
            lemma_words_shift(a, b, i + 1);
        } else {
            let end = word_end(b, i);
            lemma_word_end(b, i);
            lemma_word_end_shift(a, b, i);
            lemma_words_shift(a, b, end);
            assert((a + b).subrange(a.len() + i, a.len() + end) =~= b.subrange(i, end));
        }
    }
}

proof fn lemma_word_end_before(a: Seq<char>, b: Seq<char>, i: int)
    requires
        0 <= i <= a.len(),
        b.len() > 0 ==> is_white_space(b[0]),
    ensures
        word_end(a + b, i) == word_end(a, i),
    decreases a.len() - i,
{
    if i < a.len() {
        assert((a + b)[i] == a[i]);
        if !is_white_space(a[i]) {
            lemma_word_end_before(a, b, i + 1);
        }
    } else if b.len() > 0 {
        assert((a + b)[i] == b[0]);
    }
}

proof fn lemma_words_before(a: Seq<char>, b: Seq<char>, i: int)
    requires
        0 <= i <= a.len(),
        b.len() > 0 ==> is_white_space(b[0]),
    ensures
        words_from(a + b, i) == words_from(a, i) + words_from(a + b, a.len() as int),
    decreases a.len() - i,
{
    let s = a + b;
    let tail = words_from(s, a.len() as int);
    if i < a.len() {
        assert(s[i] == a[i]);
        if is_white_space(a[i]) {
            lemma_words_before(a, b, i + 1);
        } else {
            let end = word_end(a, i);
            lemma_word_end(a, i);
            lemma_word_end_before(a, b, i);
            lemma_words_before(a, b, end);
            assert(s.subrange(i, end) =~= a.subrange(i, end));
            assert(seq![a.subrange(i, end)] + (words_from(a, end) + tail) =~= seq![
                a.subrange(i, end),
            ] + words_from(a, end) + tail);
        }
    } else {
        assert(words_from(a, i) + tail =~= tail);
    }
}

proof fn lemma_words_skip(s: Seq<char>, from: int, to: int)
    requires
        0 <= from <= to <= s.len(),
        forall|i: int| from <= i < to ==> is_white_space(#[trigger] s[i]),
    ensures
        words_from(s, from) == words_from(s, to),
    decreases to - from,
{
    if from < to {
        assert(is_white_space(s[from]));
        lemma_words_skip(s, from + 1, to);
    }
}

/// White space parts the words of two texts: those of the first come first, then those of the
/// second.
pub proof fn law_white_space_parts_words(a: Seq<char>, gap: Seq<char>, b: Seq<char>)
    requires
        gap.len() > 0,
        all_white(gap),
    ensures
        words(a + gap + b) == words(a) + words(b),
{
    let tail = gap + b;
    let s = a + tail;
    assert(a + gap + b =~= s);
    assert(tail[0] == gap[0]);
    lemma_words_before(a, tail, 0);
    assert forall|i: int| a.len() <= i < a.len() + gap.len() implies is_white_space(
        #[trigger] s[i],
    ) by {
        assert(s[i] == gap[i - a.len()]);
    }
    lemma_words_skip(s, a.len() as int, (a.len() + gap.len()) as int);
    assert(s =~= (a + gap) + b);
    lemma_words_shift(a + gap, b, 0);
}

/// A text without white space is one word, and the empty text is none.
pub proof fn law_a_text_without_white_space_is_a_word(s: Seq<char>)
    requires
        no_white(s),
    ensures
        words(s) == (if s.len() > 0 {
            seq![s]
        } else {
            seq![]
        }),
{
    if s.len() > 0 {
        lemma_whole_word(s, 0);
        assert(s.subrange(0, s.len() as int) =~= s);
        assert(words_from(s, s.len() as int) =~= Seq::<Seq<char>>::empty());
        assert(seq![s] + words_from(s, s.len() as int) =~= seq![s]);
    }
}

proof fn lemma_whole_word(s: Seq<char>, i: int)
    requires
        0 <= i <= s.len(),
        no_white(s),
    ensures
        word_end(s, i) == s.len(),
    decreases s.len() - i,
{
    if i < s.len() {
        lemma_whole_word(s, i + 1);
    }
}

/// Joined parts are the parts in order with the separator between two of them and nowhere else.
pub proof fn law_a_separator_stands_between_parts(
    a: Seq<Seq<char>>,
    b: Seq<Seq<char>>,
    part: Seq<char>,
    separator: Seq<char>,
)
    requires
        a.len() > 0,
        b.len() > 0,
    ensures
        joined(a + b, separator) == joined(a, separator) + separator + joined(b, separator),
        joined(seq![part], separator) == part,
        joined(seq![], separator) == Seq::<char>::empty(),
    decreases b.len(),
{
    let all = a + b;
    assert(all.last() == b.last());
    if b.len() == 1 {
        assert(all.drop_last() =~= a);
        assert(b[0] == b.last());
    } else {
        assert(all.drop_last() =~= a + b.drop_last());
        law_a_separator_stands_between_parts(a, b.drop_last(), part, separator);
        assert(joined(a, separator) + separator + joined(b.drop_last(), separator) + separator
            + b.last() =~= joined(a, separator) + separator + (joined(b.drop_last(), separator)
            + separator + b.last()));
    }
}

/// Every word stands in the text that it is a word of.
pub proof fn lemma_words_stand_in(s: Seq<char>, i: int, k: int)
    requires
        0 <= i <= s.len(),
        0 <= k < words_from(s, i).len(),
    ensures
        occurs(s, words_from(s, i)[k]),
    decreases s.len() - i,
{
    if i < s.len() {
        if is_white_space(s[i]) {
            lemma_words_stand_in(s, i + 1, k);
        } else {
            let end = word_end(s, i);
            lemma_word_end(s, i);
            if k == 0 {
                assert(occurs_at(s, s.subrange(i, end), i));
            } else {
                lemma_words_stand_in(s, end, k - 1);
            }
        }
    }
}

/// Texts are seen as they are: each by its characters, in its place, and a text that is not there as
/// none.
pub proof fn law_texts_are_seen_as_they_are(
    all: Seq<String>,
    some: Seq<Option<String>>,
    lists: Seq<Vec<char>>,
    i: int,
    j: int,
    k: int,
)
    requires
        0 <= i < all.len(),
        0 <= j < some.len(),
        0 <= k < lists.len(),
    ensures
        char_views(lists).len() == lists.len() && char_views(lists)[k] == lists[k]@,
        texts(all).len() == all.len() && texts(all)[i] == all[i]@,
        optional_texts(some).len() == some.len(),
        some[j] is None ==> optional_texts(some)[j] is None && optional_text(some[j]) is None,
        some[j] is Some ==> optional_texts(some)[j] == Some(some[j]->0@) && optional_text(some[j])
            == Some(some[j]->0@),
{
}

} // verus!
