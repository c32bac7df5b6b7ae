//! The functions of other crates that the library calls, with what it takes for granted of each.

use crate::crawl::{optional_parts, ResolvedUrl};
use crate::magnet::{magnets_in, ANCHOR_SELECTOR, MAGNET_PATTERN};
use crate::text::{optional_texts, texts};
use crate::torrent::TorrentStatus;
use dashmap::{DashMap, DashSet};
use vstd::prelude::*;
use vstd::utf8::{encode_utf8, is_ascii_chars, valid_utf8};

verus! {

// Text, from std.

/// `String::push`: the string grows by the one character given.
pub assume_specification[ String::push ](s: &mut String, c: char)
    ensures
        final(s)@ == old(s)@.push(c),
;

/// The lower-case form of a text.
pub uninterp spec fn lowercase(s: Seq<char>) -> Seq<char>;

/// The lower-case form of an ASCII character.
pub open spec fn ascii_lower(c: char) -> char {
    if 'A' as u32 <= c as u32 <= 'Z' as u32 {
        (c as u32 + 32) as char
    } else {
        c
    }
}

/// `str::to_lowercase`: a function of the text alone. Of a text that is all ASCII it replaces
/// each of `A` to `Z` by its small letter and keeps the rest; what it makes of other characters
/// is left to Unicode.
pub assume_specification[ str::to_lowercase ](s: &str) -> (r: String)
    ensures
        r@ == lowercase(s@),
        is_ascii_chars(s@) ==> r@ == s@.map_values(|c: char| ascii_lower(c)),
;

/// Whether Unicode counts a character as alphabetic or numeric.
pub uninterp spec fn alphanumeric(c: char) -> bool;

/// `char::is_alphanumeric`: a function of the character alone. The ASCII characters for which it
/// holds are the letters and the digits; of the others Unicode decides.
pub assume_specification[ char::is_alphanumeric ](c: char) -> (r: bool)
    ensures
        r == alphanumeric(c),
        (c as u32) < 128 ==> r == ('0' as u32 <= c as u32 <= '9' as u32 || 'A' as u32 <= c as u32
            <= 'Z' as u32 || 'a' as u32 <= c as u32 <= 'z' as u32),
;

// Percent encoding, from urlencoding.

/// The value of a hexadecimal digit.
pub open spec fn hex_value(b: u8) -> Option<nat> {
    if 48 <= b <= 57 {
        Some((b - 48) as nat)
    } else if 65 <= b <= 70 {
        Some((b - 55) as nat)
    } else if 97 <= b <= 102 {
        Some((b - 87) as nat)
    } else {
        None
    }
}

/// `bytes` with each `%` and the two hexadecimal digits after it replaced by the byte that they
/// stand for. A `%` that no two such digits follow stays.
pub open spec fn percent_decoded(bytes: Seq<u8>) -> Seq<u8>
    decreases bytes.len(),
{
    if bytes.len() == 0 {
        bytes
    } else if bytes.len() >= 3 && bytes[0] == 37 && hex_value(bytes[1]) is Some && hex_value(
        bytes[2],
    ) is Some {
        seq![(hex_value(bytes[1])->0 * 16 + hex_value(bytes[2])->0) as u8] + percent_decoded(
            bytes.skip(3),
        )
    } else {
        seq![bytes[0]] + percent_decoded(bytes.skip(1))
    }
}

/// `urlencoding::decode`: percent-decodes the bytes of the text. It fails exactly where the
/// outcome is not UTF-8; otherwise the outcome's bytes are the decoded ones.
#[verifier::external_body]
pub(crate) fn percent_decode(data: &str) -> (r: Option<String>)
    ensures
        r is Some <==> valid_utf8(percent_decoded(encode_utf8(data@))),
        r is Some ==> encode_utf8(r->0@) == percent_decoded(encode_utf8(data@)),
{
    urlencoding::decode(data).ok().map(|text| text.into_owned())
}

// URLs, from url.

/// The host and the text of the URL that `href` stands for on the page `base`; none where `base`
/// is not a URL or `href` makes none with it.
pub uninterp spec fn resolution(base: Seq<char>, href: Seq<char>) -> Option<
    (Option<Seq<char>>, Seq<char>),
>;

/// `Url::parse` on `base`, `Url::join` with `href`, and of what comes out `Url::host_str` and the
/// text that `Display` writes: a function of the two texts alone.
#[verifier::external_body]
pub(crate) fn resolve_url(base: &str, href: &str) -> (r: Option<ResolvedUrl>)
    ensures
        optional_parts(r) == resolution(base@, href@),
{
    let base_url = url::Url::parse(base).ok()?;
    let resolved = base_url.join(href).ok()?;
    Some(ResolvedUrl { host: resolved.host_str().map(|h| h.to_string()), text: resolved.to_string() })
}

// HTML, from scraper.

/// For each element of the document `html` that `selector` selects, the value of its attribute
/// `attribute`.
pub uninterp spec fn selected_attributes(
    html: Seq<char>,
    selector: Seq<char>,
    attribute: Seq<char>,
) -> Seq<Option<Seq<char>>>;

/// The most bytes that a document to be parsed may have. The parser's buffers count in 32 bits and
/// grow to the next power of two, so that one of more than 2^31 bytes cannot be made, and of one
/// byte of the document it makes three at most, where it replaces a NUL.
pub const HTML_LIMIT: usize = 0x2aaa_aaaa;

/// `Html::parse_document`, `Selector::parse`, `Html::select` and `Element::attr`: a function of
/// the three texts alone. The selector asked for is one that `Selector::parse` accepts, and the
/// document is one that the parser's buffers have room for: `Html::parse_document` panics on longer
/// ones.
#[verifier::external_body]
pub(crate) fn select_attributes(html: &str, selector: &str, attribute: &str) -> (r: Vec<Option<String>>)
    requires
        selector@ == ANCHOR_SELECTOR@,
        encode_utf8(html@).len() <= HTML_LIMIT,
    ensures
        optional_texts(r@) == selected_attributes(html@, selector@, attribute@),
{
    let document = scraper::Html::parse_document(html);
    let selector = scraper::Selector::parse(selector).unwrap();
    document.select(&selector).map(|e| e.value().attr(attribute).map(|v| v.to_string())).collect()
}

// Regular expressions, from regex.

/// `Regex::new` and `Regex::find_iter` with the pattern for magnet links: successive matches,
/// none overlapping another, each the leftmost and, `+` being greedy, the longest from there.
/// `\s` is Unicode's White_Space. Both alternatives of the pattern match the same texts.
#[verifier::external_body]
pub(crate) fn find_matches(pattern: &str, text: &str) -> (r: Vec<String>)
    requires
        pattern@ == MAGNET_PATTERN@,
    ensures
        texts(r@) == magnets_in(text@),
{
    let regex = regex::Regex::new(pattern).unwrap();
    regex.find_iter(text).map(|m| m.as_str().to_string()).collect()
}

// Sets and maps, from dashmap. The library holds each of them by itself and changes it through a
// unique reference, so no other thread changes one between two calls.

/// `dashmap::DashSet`, with nothing known of its insides.
#[verifier::external_type_specification]
#[verifier::external_body]
#[verifier::reject_recursive_types(K)]
#[verifier::reject_recursive_types(S)]
pub struct ExDashSet<K, S>(DashSet<K, S>);

/// `dashmap::DashMap`, with nothing known of its insides.
#[verifier::external_type_specification]
#[verifier::external_body]
#[verifier::reject_recursive_types(K)]
#[verifier::reject_recursive_types(V)]
#[verifier::reject_recursive_types(S)]
pub struct ExDashMap<K, V, S>(DashMap<K, V, S>);

/// The texts that a set holds.
pub uninterp spec fn set_contents(set: DashSet<String>) -> Set<Seq<char>>;

/// `DashSet::new`: nothing is in it.
#[verifier::external_body]
pub(crate) fn set_new() -> (set: DashSet<String>)
    ensures
        set_contents(set) == Set::<Seq<char>>::empty(),
{
    DashSet::new()
}

/// `DashSet::insert`: the text is in the set afterwards, which holds finitely many; the result says
/// whether it is new there.
#[verifier::external_body]
pub(crate) fn set_insert(set: &mut DashSet<String>, key: String) -> (fresh: bool)
    ensures
        fresh == !set_contents(*old(set)).contains(key@),
        set_contents(*final(set)) == set_contents(*old(set)).insert(key@),
        set_contents(*final(set)).finite(),
{
    set.insert(key)
}

/// `DashSet::len`: how many texts the set holds.
#[verifier::external_body]
pub(crate) fn set_len(set: &DashSet<String>) -> (n: usize)
    ensures
        n == set_contents(*set).len(),
{
    set.len()
}

/// `DashSet::iter`: each text of the set once, in an order that is left open.
#[verifier::external_body]
pub(crate) fn set_items(set: &DashSet<String>) -> (items: Vec<String>)
    ensures
        texts(items@).no_duplicates(),
        texts(items@).to_set() == set_contents(*set),
{
    set.iter().map(|item| item.key().clone()).collect()
}

/// The status that a map holds for each link.
pub uninterp spec fn status_contents(map: DashMap<String, TorrentStatus>) -> Map<
    Seq<char>,
    TorrentStatus,
>;

/// `DashMap::new`: no link has a status.
#[verifier::external_body]
pub(crate) fn statuses_new() -> (map: DashMap<String, TorrentStatus>)
    ensures
        status_contents(map).dom() == Set::<Seq<char>>::empty(),
{
    DashMap::new()
}

/// `DashMap::insert`: the link has the given status afterwards, the others keep theirs.
#[verifier::external_body]
pub(crate) fn statuses_insert(
    map: &mut DashMap<String, TorrentStatus>,
    link: String,
    status: TorrentStatus,
)
    ensures
        status_contents(*final(map)) == status_contents(*old(map)).insert(link@, status),
{
    map.insert(link, status);
}

/// `DashMap::get`: the status that the map holds for the link, if any.
#[verifier::external_body]
pub(crate) fn statuses_get(map: &DashMap<String, TorrentStatus>, link: &str) -> (r: Option<
    TorrentStatus,
>)
    ensures
        r == (if status_contents(*map).dom().contains(link@) {
            Some(status_contents(*map)[link@])
        } else {
            None
        }),
{
    map.get(link).map(|entry| *entry.value())
}

/// The number of bytes that a map holds for each link.
pub uninterp spec fn byte_contents(map: DashMap<String, u64>) -> Map<Seq<char>, u64>;

/// `DashMap::new`: no link has a number.
#[verifier::external_body]
pub(crate) fn bytes_new() -> (map: DashMap<String, u64>)
    ensures
        byte_contents(map).dom() == Set::<Seq<char>>::empty(),
{
    DashMap::new()
}

/// `DashMap::insert`: the link has the given number afterwards, the others keep theirs.
#[verifier::external_body]
pub(crate) fn bytes_insert(map: &mut DashMap<String, u64>, link: String, bytes: u64)
    ensures
        byte_contents(*final(map)) == byte_contents(*old(map)).insert(link@, bytes),
{
    map.insert(link, bytes);
}

/// `DashMap::get`: the number that the map holds for the link, if any.
#[verifier::external_body]
pub(crate) fn bytes_get(map: &DashMap<String, u64>, link: &str) -> (r: Option<u64>)
    ensures
        r == (if byte_contents(*map).dom().contains(link@) {
            Some(byte_contents(*map)[link@])
        } else {
            None
        }),
{
    map.get(link).map(|entry| *entry.value())
}

/// `DashMap::remove`: the link has no number afterwards, the others keep theirs.
#[verifier::external_body]
pub(crate) fn bytes_remove(map: &mut DashMap<String, u64>, link: &str)
    ensures
        byte_contents(*final(map)) == byte_contents(*old(map)).remove(link@),
{
    map.remove(link);
}

/// `DashMap::iter`: each link of the map with its number, once, in an order that is left open.
#[verifier::external_body]
pub(crate) fn bytes_entries(map: &DashMap<String, u64>) -> (entries: Vec<(String, u64)>)
    ensures
        entries@.map_values(|e: (String, u64)| e.0@).no_duplicates(),
        entries@.map_values(|e: (String, u64)| e.0@).to_set() == byte_contents(*map).dom(),
        forall|i: int|
            #![trigger entries@[i]]
            0 <= i < entries@.len() ==> byte_contents(*map)[entries@[i].0@] == entries@[i].1,
{
    map.iter().map(|entry| (entry.key().clone(), *entry.value())).collect()
}

} // verus!
