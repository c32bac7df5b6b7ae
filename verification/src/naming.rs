//! What a torrent is called.

use crate::app::App;
use crate::text::{
    char_position, chars_between, chars_of, find_chars, first_occurrence,
    law_a_character_is_found_where_it_is_first, law_a_missing_character_is_past_the_end,
    lemma_first_occurrence, occurs_at, occurs_first_at, optional_text, position_of, string_of,
};
use crate::trusted::{alphanumeric, ascii_lower, hex_value, percent_decode, percent_decoded};
use vstd::prelude::*;
use vstd::utf8::{
    decode_utf8, encode_utf8, encode_utf8_decode_utf8, encode_utf8_valid_utf8, is_ascii_chars,
    is_ascii_chars_encode_utf8, valid_utf8,
};

verus! {

/// The value of the link's first `dn=`, up to the next `&`, as it stands in the link.
pub open spec fn dn_value(link: Seq<char>) -> Option<Seq<char>> {
    match first_occurrence(link, "dn="@) {
        Some(p) => {
            let rest = link.skip(p + 3);
            Some(rest.take(char_position(rest, '&')))
        },
        None => None,
    }
}

/// The name that the link's `dn=` gives once percent-decoded; none where that is no text.
pub open spec fn dn_name(link: Seq<char>) -> Option<Seq<char>> {
    match dn_value(link) {
        Some(value) => {
            let bytes = percent_decoded(encode_utf8(value));
            if valid_utf8(bytes) {
                Some(decode_utf8(bytes))
            } else {
                None
            }
        },
        None => None,
    }
}

/// `s` with each ASCII capital replaced by its small letter.
pub open spec fn ascii_lowered(s: Seq<char>) -> Seq<char> {
    s.map_values(|c: char| ascii_lower(c))
}

/// Where the hash of a link begins: after its first `btih:`, in whatever case of its letters.
pub open spec fn hash_start(link: Seq<char>) -> Option<int> {
    match first_occurrence(ascii_lowered(link), "btih:"@) {
        Some(p) => Some(p + 5),
        None => None,
    }
}

/// The leading letters and digits of `s`, at most `limit` of them.
pub open spec fn leading_alphanumeric(s: Seq<char>, limit: nat) -> Seq<char>
    decreases limit,
{
    if limit == 0 || s.len() == 0 || !alphanumeric(s.first()) {
        seq![]
    } else {
        seq![s.first()] + leading_alphanumeric(s.drop_first(), (limit - 1) as nat)
    }
}

/// The name that a link has by its hash: `torrent_` and the beginning of the hash, or `unknown`
/// where there is none.
pub open spec fn hash_name(link: Seq<char>) -> Seq<char> {
    match hash_start(link) {
        Some(start) => "torrent_"@ + leading_alphanumeric(link.skip(start), 8),
        None => "unknown"@,
    }
}

/// The name of a link: the one that its `dn=` gives, or else the one by its hash.
pub open spec fn name_of(link: Seq<char>) -> Seq<char> {
    match dn_name(link) {
        Some(name) => name,
        None => hash_name(link),
    }
}

/// The name that the link's `dn=` gives.
pub fn name_from_dn(link: &str) -> (r: Option<String>)
    ensures
        optional_text(r) == dn_name(link@),
{
    let v = chars_of(link);
    let n: usize = v.len();
    let needle = chars_of("dn=");
    proof {
        reveal_strlit("dn=");
    }
    match find_chars(&v, &needle) {
        Some(p) => {
            let rest = chars_between(&v, p + 3, n);
            assert(rest@ == link@.skip(p + 3));
            let end: usize = position_of(&rest, '&');
            let value = string_of(&rest, 0, end);
            assert(value@ == rest@.take(end as int));
            let r = percent_decode(value.as_str());
            proof {
                if r is Some {
                    encode_utf8_decode_utf8(r->0@);
                }
            }
            r
        },
        None => None,
    }
}

/// What a small letter can come from.
proof fn lemma_ascii_lower(c: char, small: char, capital: char)
    requires
        capital as u32 + 32 == small as u32,
        ascii_lower(c) == small,
    ensures
        c == small || c == capital,
{
    if c != small {
        assert(c as u32 + 32 == small as u32);
    }
}

/// Where the hash in `v` begins.
fn find_hash(v: &Vec<char>) -> (r: Option<usize>)
    ensures
        match r {
            Some(start) => hash_start(v@) == Some(start as int) && start <= v@.len(),
            None => hash_start(v@) is None,
        },
{
    let ghost lower = ascii_lowered(v@);
    let n: usize = v.len();
    let mut i: usize = 0;
    proof {
        reveal_strlit("btih:");
    }
    while i < n && n - i >= 5
        invariant
            n == v@.len(),
            i <= n,
            lower == ascii_lowered(v@),
            "btih:"@ == seq!['b', 't', 'i', 'h', ':'],
            forall|j: int| j < i ==> !#[trigger] occurs_at(lower, "btih:"@, j),
        decreases n - i,
    {
        let ghost here = lower.subrange(i as int, i + 5);
        if (v[i] == 'b' || v[i] == 'B') && (v[i + 1] == 't' || v[i + 1] == 'T') && (v[i + 2] == 'i'
            || v[i + 2] == 'I') && (v[i + 3] == 'h' || v[i + 3] == 'H') && v[i + 4] == ':' {
            proof {
                assert(here =~= "btih:"@);
                lemma_first_occurrence(lower, "btih:"@, i as int);
            }
            return Some(i + 5);
        }
        assert(!occurs_at(lower, "btih:"@, i as int)) by {
            if here == "btih:"@ {
                assert(here[0] == ascii_lower(v@[i as int]) && here[1] == ascii_lower(v@[i + 1])
                    && here[2] == ascii_lower(v@[i + 2]) && here[3] == ascii_lower(v@[i + 3])
                    && here[4] == ascii_lower(v@[i + 4]));
                assert(here[0] == 'b' && here[1] == 't' && here[2] == 'i' && here[3] == 'h' && here[4]
                    == ':');
                lemma_ascii_lower(v@[i as int], 'b', 'B');
                lemma_ascii_lower(v@[i + 1], 't', 'T');
                lemma_ascii_lower(v@[i + 2], 'i', 'I');
                lemma_ascii_lower(v@[i + 3], 'h', 'H');
            }
        }
        i += 1;
    }
    assert(forall|j: int| !occurs_first_at(lower, "btih:"@, j));
    None
}

/// The leading letters and digits of `v` from `start` on, at most `limit` of them.
fn take_alphanumeric(v: &Vec<char>, start: usize, limit: usize) -> (r: String)
    requires
        start <= v@.len(),
    ensures
        r@ == leading_alphanumeric(v@.skip(start as int), limit as nat),
{
    let n: usize = v.len();
    let ghost all = v@.skip(start as int);
    let mut r = String::new();
    let mut i: usize = 0;
    assert(all.skip(0) == all);
    assert(r@ + leading_alphanumeric(all, limit as nat) == leading_alphanumeric(all, limit as nat));
    while i < limit && i < n - start
        invariant
            n == v@.len(),
            start <= n,
            i <= limit,
            i <= all.len(),
            all == v@.skip(start as int),
            r@ + leading_alphanumeric(all.skip(i as int), (limit - i) as nat) == leading_alphanumeric(
                all,
                limit as nat,
            ),
        decreases limit - i,
    {
        let c: char = v[start + i];
        let ghost rest = all.skip(i as int);
        assert(rest.first() == c);
        assert(rest.drop_first() == all.skip(i + 1));
        if !c.is_alphanumeric() {
            assert(r@ + leading_alphanumeric(rest, (limit - i) as nat) == r@);
            return r;
        }
        let ghost before = r@;
        r.push(c);
        assert(before + (seq![c] + leading_alphanumeric(rest.drop_first(), (limit - i - 1) as nat))
            == r@ + leading_alphanumeric(all.skip(i + 1), (limit - (i + 1)) as nat));
        i += 1;
    }
    assert(r@ + leading_alphanumeric(all.skip(i as int), (limit - i) as nat) == r@);
    r
}

/// The name that a link has by its hash.
pub fn name_from_hash(link: &str) -> (name: String)
    ensures
        name@ == hash_name(link@),
{
    let v = chars_of(link);
    match find_hash(&v) {
        Some(start) => {
            let hash = take_alphanumeric(&v, start, 8);
            let mut name = "torrent_".to_owned();
            name.append(hash.as_str());
            name
        },
        None => "unknown".to_owned(),
    }
}

impl App {
    /// The name of a link.
    pub fn extract_name(link: &str) -> (name: String)
        ensures
            name@ == name_of(link@),
    {
        match name_from_dn(link) {
            Some(name) => name,
            None => name_from_hash(link),
        }
    }
}

proof fn lemma_nothing_to_decode(bytes: Seq<u8>)
    requires
        forall|i: int| 0 <= i < bytes.len() ==> #[trigger] bytes[i] != 37,
    ensures
        percent_decoded(bytes) == bytes,
    decreases bytes.len(),
{
    if bytes.len() > 0 {
        lemma_nothing_to_decode(bytes.skip(1));
        assert(seq![bytes[0]] + bytes.skip(1) == bytes);
    }
}

/// A `dn=` value in ASCII without a percent sign is the name as it stands.
pub proof fn law_plain_value_is_the_name(link: Seq<char>, value: Seq<char>)
    requires
        dn_value(link) == Some(value),
        is_ascii_chars(value),
        !value.contains('%'),
    ensures
        name_of(link) == value,
{
    is_ascii_chars_encode_utf8(value);
    encode_utf8_valid_utf8(value);
    encode_utf8_decode_utf8(value);
    assert forall|i: int| 0 <= i < encode_utf8(value).len() implies #[trigger] encode_utf8(value)[i]
        != 37 by {
        assert(value[i] as u8 == encode_utf8(value)[i]);
        assert(value[i] != '%');
    }
    lemma_nothing_to_decode(encode_utf8(value));
}

proof fn lemma_leading_alphanumeric(s: Seq<char>, limit: nat)
    ensures
        leading_alphanumeric(s, limit).len() <= limit,
        leading_alphanumeric(s, limit).is_prefix_of(s),
        forall|i: int|
            0 <= i < leading_alphanumeric(s, limit).len() ==> alphanumeric(
                #[trigger] leading_alphanumeric(s, limit)[i],
            ),
    decreases limit,
{
    if limit > 0 && s.len() > 0 && alphanumeric(s.first()) {
        lemma_leading_alphanumeric(s.drop_first(), (limit - 1) as nat);
        let rest = leading_alphanumeric(s.drop_first(), (limit - 1) as nat);
        assert(s == seq![s.first()] + s.drop_first());
        assert(seq![s.first()] + rest =~= s.take(rest.len() as int + 1)) by {
            assert(rest == s.drop_first().take(rest.len() as int));
        }
    }
}

/// A link whose `dn=` gives no name is called `torrent_` and at most eight letters and digits,
/// which stand in the link right after its first `btih:`, or `unknown`.
pub proof fn law_fallback_names_are_short(link: Seq<char>)
    requires
        dn_name(link) is None,
    ensures
        match hash_start(link) {
            Some(start) => exists|hash: Seq<char>|
                {
                    &&& #[trigger] ("torrent_"@ + hash) == name_of(link)
                    &&& hash.len() <= 8
                    &&& hash.is_prefix_of(link.skip(start))
                    &&& forall|i: int| 0 <= i < hash.len() ==> alphanumeric(#[trigger] hash[i])
                },
            None => name_of(link) == "unknown"@,
        },
{
    if let Some(start) = hash_start(link) {
        let hash = leading_alphanumeric(link.skip(start), 8);
        lemma_leading_alphanumeric(link.skip(start), 8);
        assert("torrent_"@ + hash == name_of(link));
    }
}

/// The hash counts from the marker in the link itself: what stands before the marker, in whatever
/// script, does not shift it.
pub proof fn law_the_hash_follows_the_marker(before: Seq<char>, marker: Seq<char>, after: Seq<char>)
    requires
        ascii_lowered(marker) == "btih:"@,
        dn_name(before + marker + after) is None,
        forall|p: int|
            p < before.len() ==> !#[trigger] occurs_at(
                ascii_lowered(before + marker + after),
                "btih:"@,
                p,
            ),
    ensures
        name_of(before + marker + after) == "torrent_"@ + leading_alphanumeric(after, 8),
{
    reveal_strlit("btih:");
    let link = before + marker + after;
    let lower = ascii_lowered(link);
    let p = before.len() as int;
    assert(marker.len() == ascii_lowered(marker).len());
    assert(lower.subrange(p, p + 5) =~= ascii_lowered(marker));
    assert(occurs_first_at(lower, "btih:"@, p));
    lemma_first_occurrence(lower, "btih:"@, p);
    assert(link.skip(p + 5) =~= after);
}

/// `dn=` stands nowhere in `link` before the place `p`.
pub open spec fn no_dn_before(link: Seq<char>, p: int) -> bool {
    forall|j: int|
        0 <= j < p && j + 3 <= link.len() ==> !(link[j] == 'd' && #[trigger] link[j + 1] == 'n' && link[j
            + 2] == '=')
}

proof fn lemma_dn_value(link: Seq<char>, before: Seq<char>, value: Seq<char>, rest: Seq<char>)
    requires
        link == before + "dn="@ + value + rest,
        no_dn_before(link, before.len() as int),
        !value.contains('&'),
        rest.len() > 0 ==> rest[0] == '&',
    ensures
        dn_value(link) == Some(value),
{
    reveal_strlit("dn=");
    let p = before.len() as int;
    assert(link.subrange(p, p + 3) =~= "dn="@);
    assert forall|j: int| j < p implies !#[trigger] occurs_at(link, "dn="@, j) by {
        if occurs_at(link, "dn="@, j) {
            let here = link.subrange(j, j + 3);
            assert(here[0] == 'd' && here[1] == 'n' && here[2] == '=');
            assert(link[j + 1] == 'n');
        }
    }
    assert(occurs_first_at(link, "dn="@, p));
    lemma_first_occurrence(link, "dn="@, p);
    let tail = link.skip(p + 3);
    assert(tail =~= value + rest);
    if rest.len() > 0 {
        assert(tail =~= value + seq!['&'] + rest.skip(1));
        law_a_character_is_found_where_it_is_first(value, '&', rest.skip(1));
    } else {
        assert(tail =~= value);
        law_a_missing_character_is_past_the_end(value, '&');
    }
    assert(tail.take(value.len() as int) =~= value);
}

/// The name is the value of the link's first `dn=`, from there up to the next `&` or the end,
/// percent-decoded, whatever else the link holds. Where that is no text the hash gives the name.
pub proof fn law_the_name_is_the_value_of_the_first_dn(
    before: Seq<char>,
    value: Seq<char>,
    rest: Seq<char>,
)
    requires
        no_dn_before(before + "dn="@ + value + rest, before.len() as int),
        !value.contains('&'),
        rest.len() > 0 ==> rest[0] == '&',
    ensures
        valid_utf8(percent_decoded(encode_utf8(value))) ==> name_of(
            before + "dn="@ + value + rest,
        ) == decode_utf8(percent_decoded(encode_utf8(value))),
        !valid_utf8(percent_decoded(encode_utf8(value))) ==> name_of(
            before + "dn="@ + value + rest,
        ) == hash_name(before + "dn="@ + value + rest),
{
    lemma_dn_value(before + "dn="@ + value + rest, before, value, rest);
}

/// A value in ASCII without a percent sign is the name as it stands, up to the next `&` and no
/// further.
pub proof fn law_a_plain_dn_is_the_name(before: Seq<char>, value: Seq<char>, rest: Seq<char>)
    requires
        no_dn_before(before + "dn="@ + value + "&"@ + rest, before.len() as int),
        no_dn_before(before + "dn="@ + value, before.len() as int),
        is_ascii_chars(value),
        !value.contains('&'),
        !value.contains('%'),
    ensures
        name_of(before + "dn="@ + value + "&"@ + rest) == value,
        name_of(before + "dn="@ + value) == value,
{
    reveal_strlit("&");
    let link = before + "dn="@ + value + "&"@ + rest;
    assert(link =~= before + "dn="@ + value + ("&"@ + rest));
    lemma_dn_value(link, before, value, "&"@ + rest);
    law_plain_value_is_the_name(link, value);
    let short = before + "dn="@ + value;
    assert(short =~= before + "dn="@ + value + seq![]);
    lemma_dn_value(short, before, value, seq![]);
    law_plain_value_is_the_name(short, value);
}

/// The byte that is written for the hexadecimal digit `x`.
pub open spec fn writes_hex(b: u8, x: nat) -> bool {
    (x < 10 && b == 48 + x) || (10 <= x < 16 && (b == 55 + x || b == 87 + x))
}

/// Percent decoding leaves bytes alone, but for a percent sign with two hexadecimal digits behind
/// it: these three stand for the byte whose value the digits give. What follows is decoded in the
/// same way.
pub proof fn law_an_escape_stands_for_its_byte(
    before: Seq<u8>,
    high: u8,
    low: u8,
    x: nat,
    y: nat,
    after: Seq<u8>,
)
    requires
        !before.contains(37u8),
        writes_hex(high, x),
        writes_hex(low, y),
    ensures
        percent_decoded(before + seq![37u8, high, low] + after) == before.push((16 * x + y) as u8)
            + percent_decoded(after),
        percent_decoded(before) == before,
{
    let tail = seq![37u8, high, low] + after;
    assert(before + seq![37u8, high, low] + after =~= before + tail);
    lemma_decoding_skips(before, tail);
    assert(tail.skip(3) =~= after);
    assert(before + (seq![(16 * x + y) as u8] + percent_decoded(after)) =~= before.push(
        (16 * x + y) as u8,
    ) + percent_decoded(after));
    assert forall|i: int| 0 <= i < before.len() implies #[trigger] before[i] != 37 by {
        assert(before.contains(before[i]));
    }
    lemma_nothing_to_decode(before);
}

/// A percent sign without two hexadecimal digits behind it stays.
pub proof fn law_a_lone_percent_sign_stays(after: Seq<u8>)
    requires
        after.len() >= 2 ==> (forall|x: nat| !#[trigger] writes_hex(after[0], x)) || (forall|x: nat|
            !#[trigger] writes_hex(after[1], x)),
    ensures
        percent_decoded(seq![37u8] + after) == seq![37u8] + percent_decoded(after),
{
    let s = seq![37u8] + after;
    assert(s.skip(1) =~= after);
    if after.len() >= 2 {
        assert(s[1] == after[0] && s[2] == after[1]);
        if hex_value(after[0]) is Some && hex_value(after[1]) is Some {
            assert(writes_hex(after[0], hex_value(after[0])->0));
            assert(writes_hex(after[1], hex_value(after[1])->0));
        }
    }
}

proof fn lemma_decoding_skips(before: Seq<u8>, tail: Seq<u8>)
    requires
        !before.contains(37u8),
    ensures
        percent_decoded(before + tail) == before + percent_decoded(tail),
    decreases before.len(),
{
    if before.len() > 0 {
        let rest = before.skip(1);
        assert(before.contains(before[0]));
        assert(!rest.contains(37u8)) by {
            if rest.contains(37u8) {
                let k = choose|k: int| 0 <= k < rest.len() && rest[k] == 37u8;
                assert(before[k + 1] == 37u8);
            }
        }
        lemma_decoding_skips(rest, tail);
        assert((before + tail)[0] == before[0]);
        assert((before + tail).skip(1) =~= rest + tail);
        assert(seq![before[0]] + (rest + percent_decoded(tail)) =~= before + percent_decoded(tail));
    } else {
        assert(before + tail =~= tail);
        assert(before + percent_decoded(tail) =~= percent_decoded(tail));
    }
}

/// An escape in a value stands for its character in the name, as `%20` for a space.
pub proof fn law_an_escape_is_read_in_the_name(
    before: Seq<char>,
    a: Seq<char>,
    high: char,
    low: char,
    x: nat,
    y: nat,
    b: Seq<char>,
    rest: Seq<char>,
)
    requires
        no_dn_before(before + "dn="@ + (a + seq!['%', high, low] + b) + rest, before.len() as int),
        rest.len() > 0 ==> rest[0] == '&',
        is_ascii_chars(a),
        is_ascii_chars(b),
        !a.contains('&') && !a.contains('%'),
        !b.contains('&') && !b.contains('%'),
        (high as u32) < 128 && (low as u32) < 128,
        writes_hex(high as u8, x),
        writes_hex(low as u8, y),
        x < 8,
    ensures
        name_of(before + "dn="@ + (a + seq!['%', high, low] + b) + rest) == a + seq![
            (16 * x + y) as u8 as char,
        ] + b,
{
    let value = a + seq!['%', high, low] + b;
    let v = (16 * x + y) as u8;
    let name = a + seq![v as char] + b;
    assert(16 * x + y < 128);
    assert(is_ascii_chars(value));
    assert(is_ascii_chars(name));
    is_ascii_chars_encode_utf8(a);
    is_ascii_chars_encode_utf8(b);
    is_ascii_chars_encode_utf8(value);
    is_ascii_chars_encode_utf8(name);
    let ea = encode_utf8(a);
    let eb = encode_utf8(b);
    assert(encode_utf8(value) =~= ea + seq![37u8, high as u8, low as u8] + eb) by {
        let e = encode_utf8(value);
        assert forall|i: int| 0 <= i < e.len() implies e[i] == (ea + seq![
            37u8,
            high as u8,
            low as u8,
        ] + eb)[i] by {
            assert(value[i] as u8 == e[i]);
            if i < a.len() {
                assert(a[i] as u8 == ea[i]);
            } else if i >= a.len() + 3 {
                assert(b[i - a.len() - 3] as u8 == eb[i - a.len() - 3]);
            }
        }
    }
    assert(encode_utf8(name) =~= ea.push(v) + eb) by {
        let e = encode_utf8(name);
        assert forall|i: int| 0 <= i < e.len() implies e[i] == (ea.push(v) + eb)[i] by {
            assert(name[i] as u8 == e[i]);
            if i < a.len() {
                assert(a[i] as u8 == ea[i]);
            } else if i > a.len() {
                assert(b[i - a.len() - 1] as u8 == eb[i - a.len() - 1]);
            }
        }
    }
    lemma_no_percent(a);
    lemma_no_percent(b);
    law_an_escape_stands_for_its_byte(ea, high as u8, low as u8, x, y, eb);
    law_an_escape_stands_for_its_byte(eb, high as u8, low as u8, x, y, eb);
    assert(!value.contains('&')) by {
        if value.contains('&') {
            let k = choose|k: int| 0 <= k < value.len() && value[k] == '&';
            if k < a.len() {
                assert(a[k] == '&');
            } else if k >= a.len() + 3 {
                assert(b[k - a.len() - 3] == '&');
            }
        }
    }
    law_the_name_is_the_value_of_the_first_dn(before, value, rest);
    encode_utf8_valid_utf8(name);
    encode_utf8_decode_utf8(name);
}

proof fn lemma_no_percent(s: Seq<char>)
    requires
        is_ascii_chars(s),
        !s.contains('%'),
    ensures
        !encode_utf8(s).contains(37u8),
{
    is_ascii_chars_encode_utf8(s);
    let e = encode_utf8(s);
    if e.contains(37u8) {
        let k = choose|k: int| 0 <= k < e.len() && e[k] == 37u8;
        assert(s[k] as u8 == e[k]);
        assert(s[k] == '%');
    }
}

/// A link in which `dn=` stands nowhere has the name that its hash gives.
pub proof fn law_without_dn_the_hash_gives_the_name(link: Seq<char>)
    requires
        no_dn_before(link, link.len() as int),
    ensures
        name_of(link) == hash_name(link),
{
    reveal_strlit("dn=");
    assert forall|j: int| !#[trigger] occurs_first_at(link, "dn="@, j) by {
        if occurs_at(link, "dn="@, j) {
            let here = link.subrange(j, j + 3);
            assert(here[0] == 'd' && here[1] == 'n' && here[2] == '=');
            assert(link[j + 1] == 'n');
        }
    }
}

/// `btih:` stands in `s` at `p`, its letters in whatever case.
pub open spec fn is_marker_at(s: Seq<char>, p: int) -> bool {
    &&& 0 <= p
    &&& p + 5 <= s.len()
    &&& (s[p] == 'b' || s[p] == 'B')
    &&& (s[p + 1] == 't' || s[p + 1] == 'T')
    &&& (s[p + 2] == 'i' || s[p + 2] == 'I')
    &&& (s[p + 3] == 'h' || s[p + 3] == 'H')
    &&& s[p + 4] == ':'
}

proof fn lemma_marker(s: Seq<char>, p: int)
    ensures
        is_marker_at(s, p) <==> occurs_at(ascii_lowered(s), "btih:"@, p),
{
    reveal_strlit("btih:");
    let lower = ascii_lowered(s);
    if is_marker_at(s, p) {
        assert(lower.subrange(p, p + 5) =~= "btih:"@);
    }
    if occurs_at(lower, "btih:"@, p) {
        let here = lower.subrange(p, p + 5);
        assert(here[0] == ascii_lower(s[p]) && here[1] == ascii_lower(s[p + 1]) && here[2]
            == ascii_lower(s[p + 2]) && here[3] == ascii_lower(s[p + 3]) && here[4] == ascii_lower(
            s[p + 4],
        ));
        assert(here[0] == 'b' && here[1] == 't' && here[2] == 'i' && here[3] == 'h' && here[4]
            == ':');
        lemma_ascii_lower(s[p], 'b', 'B');
        lemma_ascii_lower(s[p + 1], 't', 'T');
        lemma_ascii_lower(s[p + 2], 'i', 'I');
        lemma_ascii_lower(s[p + 3], 'h', 'H');
    }
}

proof fn lemma_leading(hash: Seq<char>, after: Seq<char>, limit: nat)
    requires
        hash.len() <= limit,
        forall|i: int| 0 <= i < hash.len() ==> alphanumeric(#[trigger] hash[i]),
        hash.len() < limit && after.len() > 0 ==> !alphanumeric(after[0]),
    ensures
        leading_alphanumeric(hash + after, limit) == hash,
    decreases limit,
{
    let s = hash + after;
    if hash.len() > 0 {
        let rest = hash.drop_first();
        assert forall|i: int| 0 <= i < rest.len() implies alphanumeric(#[trigger] rest[i]) by {
            assert(rest[i] == hash[i + 1]);
        }
        assert(s.first() == hash[0]);
        assert(s.drop_first() =~= rest + after);
        lemma_leading(rest, after, (limit - 1) as nat);
        assert(seq![hash[0]] + rest =~= hash);
    } else {
        assert(s =~= after);
    }
}

/// Where the hash gives the name, the name is `torrent_` and the letters and digits that follow the
/// link's first `btih:`, in whatever case of its letters, up to eight of them.
pub proof fn law_the_hash_gives_a_name(
    before: Seq<char>,
    marker: Seq<char>,
    hash: Seq<char>,
    after: Seq<char>,
)
    requires
        marker.len() == 5,
        is_marker_at(marker, 0),
        forall|p: int|
            p < before.len() ==> !#[trigger] is_marker_at(before + marker + (hash + after), p),
        forall|i: int| 0 <= i < hash.len() ==> alphanumeric(#[trigger] hash[i]),
        hash.len() <= 8,
        hash.len() < 8 && after.len() > 0 ==> !alphanumeric(after[0]),
    ensures
        hash_name(before + marker + (hash + after)) == "torrent_"@ + hash,
{
    reveal_strlit("btih:");
    let link = before + marker + (hash + after);
    let lower = ascii_lowered(link);
    let p = before.len() as int;
    assert(is_marker_at(link, p)) by {
        assert(link[p] == marker[0] && link[p + 1] == marker[1] && link[p + 2] == marker[2] && link[p
            + 3] == marker[3] && link[p + 4] == marker[4]);
    }
    lemma_marker(link, p);
    assert forall|j: int| j < p implies !#[trigger] occurs_at(lower, "btih:"@, j) by {
        assert(!is_marker_at(link, j));
        lemma_marker(link, j);
    }
    assert(occurs_first_at(lower, "btih:"@, p));
    lemma_first_occurrence(lower, "btih:"@, p);
    assert(link.skip(p + 5) =~= hash + after);
    lemma_leading(hash, after, 8);
}

/// Where neither a `dn=` nor a `btih:` stands in a link, its name is `unknown`.
pub proof fn law_a_link_without_either_is_unknown(link: Seq<char>)
    requires
        forall|p: int| !#[trigger] is_marker_at(link, p),
    ensures
        hash_name(link) == "unknown"@,
        no_dn_before(link, link.len() as int) ==> name_of(link) == "unknown"@,
{
    assert forall|j: int| !#[trigger] occurs_first_at(ascii_lowered(link), "btih:"@, j) by {
        assert(!is_marker_at(link, j));
        lemma_marker(link, j);
    }
    if no_dn_before(link, link.len() as int) {
        law_without_dn_the_hash_gives_the_name(link);
    }
}

/// Lower case turns the 26 capitals of ASCII into their small letters and leaves every other
/// character alone.
pub proof fn law_lower_case_concerns_capitals_alone(c: char)
    ensures
        65 <= c as u32 <= 90 ==> ascii_lower(c) as u32 == c as u32 + 32,
        !(65 <= c as u32 <= 90) ==> ascii_lower(c) == c,
{
}

} // verus!
