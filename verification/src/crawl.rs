//! The crawler: which pages it fetches, and what it takes from them.

use crate::magnet::{magnets_in, ANCHOR_ATTRIBUTE, ANCHOR_SELECTOR, MAGNET_PATTERN};
use crate::text::{
    begins_with, chars_of, ends_with, optional_text, optional_texts, same_text, texts,
};
use crate::trusted::{
    find_matches, resolution, resolve_url, select_attributes, selected_attributes, set_contents,
    set_insert, set_items, set_len, set_new, HTML_LIMIT,
};
use dashmap::DashSet;
use vstd::prelude::*;
use vstd::utf8::encode_utf8;

verus! {

/// A torrent as it is handed on: its magnet link, and what else is known of it.
#[derive(Debug)]
pub struct TorrentEntry {
    pub magnet: String,
    pub name: Option<String>,
    pub size: Option<u64>,
    pub seeders: Option<u64>,
    pub leechers: Option<u64>,
}

/// A torrent as it is handed on, as a mathematical value.
pub struct EntryView {
    pub magnet: Seq<char>,
    pub name: Option<Seq<char>>,
    pub size: Option<u64>,
    pub seeders: Option<u64>,
    pub leechers: Option<u64>,
}

impl View for TorrentEntry {
    type V = EntryView;

    open spec fn view(&self) -> EntryView {
        EntryView {
            magnet: self.magnet@,
            name: optional_text(self.name),
            size: self.size,
            seeders: self.seeders,
            leechers: self.leechers,
        }
    }
}

/// A sequence of torrents, as mathematical values.
pub open spec fn entry_views(entries: Seq<TorrentEntry>) -> Seq<EntryView> {
    entries.map_values(|e: TorrentEntry| e@)
}

/// The magnet links of a sequence of torrents.
pub open spec fn magnets_of(entries: Seq<EntryView>) -> Seq<Seq<char>> {
    entries.map_values(|e: EntryView| e.magnet)
}

/// Everything that a crawl has found.
#[derive(Debug)]
pub struct TorrentData {
    pub torrents: Vec<TorrentEntry>,
}

/// A torrent as an API lists it: by its info hash.
#[derive(Debug)]
pub struct ApiRecord {
    pub info_hash: String,
    pub name: Option<String>,
    pub size: Option<u64>,
    pub seeders: Option<u64>,
    pub leechers: Option<u64>,
}

/// The magnet link for an info hash.
pub open spec fn magnet_for(info_hash: Seq<char>) -> Seq<char> {
    "magnet:?xt=urn:btih:"@ + info_hash
}

impl View for ApiRecord {
    type V = EntryView;

    open spec fn view(&self) -> EntryView {
        EntryView {
            magnet: magnet_for(self.info_hash@),
            name: optional_text(self.name),
            size: self.size,
            seeders: self.seeders,
            leechers: self.leechers,
        }
    }
}

/// A sequence of records, each as the torrent that it stands for.
pub open spec fn record_views(records: Seq<ApiRecord>) -> Seq<EntryView> {
    records.map_values(|r: ApiRecord| r@)
}

/// A torrent of which only the magnet link is known.
pub open spec fn bare_entry(magnet: Seq<char>) -> EntryView {
    EntryView { magnet, name: None, size: None, seeders: None, leechers: None }
}

/// What the library reads of a URL: its host, where it has one, and the URL as text.
#[derive(Debug)]
pub struct ResolvedUrl {
    pub host: Option<String>,
    pub text: String,
}

impl ResolvedUrl {
    /// The host and the text, as sequences of characters.
    pub open spec fn parts(self) -> (Option<Seq<char>>, Seq<char>) {
        (optional_text(self.host), self.text@)
    }
}

/// The parts of an optional URL.
pub open spec fn optional_parts(url: Option<ResolvedUrl>) -> Option<(Option<Seq<char>>, Seq<char>)> {
    match url {
        Some(u) => Some(u.parts()),
        None => None,
    }
}

/// What a page holds: its source, and the torrents that it lists as an API does.
pub struct PageView {
    pub html: Seq<char>,
    pub records: Seq<EntryView>,
}

/// What came of a page; none where it could not be fetched.
pub open spec fn page_view(page: Option<String>, records: Seq<ApiRecord>) -> Option<PageView> {
    match page {
        Some(html) => Some(PageView { html: html@, records: record_views(records) }),
        None => None,
    }
}

/// What a page has given: the links to go on with, and the magnet links that are new.
#[derive(Debug)]
pub struct PageYield {
    pub links: Vec<String>,
    pub magnets: Vec<String>,
}

/// The page's source is one that can be parsed: it is not too long.
pub open spec fn is_parsable(html: Seq<char>) -> bool {
    encode_utf8(html).len() <= HTML_LIMIT
}

/// The crawler. Links are to lead to `host`, which is the host of the domain as it was given.
pub struct Scraper {
    pub domain: String,
    pub host: Option<String>,
    pub visited: DashSet<String>,
    pub magnets: DashSet<String>,
    pub details: Vec<TorrentEntry>,
    pub max_links: usize,
    pub max_depth: usize,
}

impl Scraper {
    /// The host that links are to lead to.
    pub open spec fn scope(self) -> Option<Seq<char>> {
        optional_text(self.host)
    }

    /// The pages that have been visited.
    pub open spec fn pages(self) -> Set<Seq<char>> {
        set_contents(self.visited)
    }

    /// The magnet links that have been found.
    pub open spec fn found(self) -> Set<Seq<char>> {
        set_contents(self.magnets)
    }

    /// What is known in detail of magnet links that have been found.
    pub open spec fn known(self) -> Seq<EntryView> {
        entry_views(self.details@)
    }

    /// The host is that of the domain. Details are known only of magnet links that have been found,
    /// and once of each. Both sets are finite.
    pub open spec fn wf(self) -> bool {
        &&& self.scope() == scope_of(self.domain@)
        &&& self.pages().finite()
        &&& self.found().finite()
        &&& magnets_of(self.known()).no_duplicates()
        &&& magnets_of(self.known()).to_set().subset_of(self.found())
    }

    /// As many magnet links have been found as were asked for.
    pub open spec fn is_full(self) -> bool {
        self.found().len() >= self.max_links
    }

    /// The scope and the limits are the same.
    pub open spec fn same_limits(self, other: Scraper) -> bool {
        &&& self.domain == other.domain
        &&& self.host == other.host
        &&& self.max_links == other.max_links
        &&& self.max_depth == other.max_depth
    }

    /// What has been found is the same.
    pub open spec fn same_finds(self, other: Scraper) -> bool {
        self.found() == other.found() && self.known() == other.known()
    }
}

/// The page is marked as visited: it is not too deep.
pub open spec fn is_within_depth(max_depth: nat, depth: nat) -> bool {
    depth <= max_depth
}

/// The page is fetched: it is not too deep, it is new, and more magnet links are wanted.
pub open spec fn is_fetched(
    pages: Set<Seq<char>>,
    found: nat,
    max_links: nat,
    max_depth: nat,
    url: Seq<char>,
    depth: nat,
) -> bool {
    is_within_depth(max_depth, depth) && !pages.contains(url) && found < max_links
}

/// The pages that are visited once the page has come up.
pub open spec fn pages_after(
    pages: Set<Seq<char>>,
    max_depth: nat,
    url: Seq<char>,
    depth: nat,
) -> Set<Seq<char>> {
    if is_within_depth(max_depth, depth) {
        pages.insert(url)
    } else {
        pages
    }
}

/// The address that a domain stands for: the domain itself where it is a URL, or else its secure
/// site.
pub open spec fn typed_address(domain: Seq<char>) -> Seq<char> {
    if "http://"@.is_prefix_of(domain) || "https://"@.is_prefix_of(domain) {
        domain
    } else {
        "https://"@ + domain
    }
}

/// The text of a resolved URL; where there is none, the address as it was typed.
pub open spec fn address_with(
    typed: Seq<char>,
    url: Option<(Option<Seq<char>>, Seq<char>)>,
) -> Seq<char> {
    match url {
        Some((_, text)) => text,
        None => typed,
    }
}

/// The host of a resolved URL.
pub open spec fn host_with(url: Option<(Option<Seq<char>>, Seq<char>)>) -> Option<Seq<char>> {
    match url {
        Some((host, _)) => host,
        None => None,
    }
}

/// The address that a crawl of the domain begins with, in the form in which links come.
pub open spec fn start_address(domain: Seq<char>) -> Seq<char> {
    address_with(typed_address(domain), resolution(typed_address(domain), ""@))
}

/// The host that links are to lead to in a crawl of the domain.
pub open spec fn scope_of(domain: Seq<char>) -> Option<Seq<char>> {
    host_with(resolution(typed_address(domain), ""@))
}

/// `host` is the domain, or a subdomain of it.
pub open spec fn is_within(host: Seq<char>, domain: Seq<char>) -> bool {
    host == domain || ("."@ + domain).is_suffix_of(host)
}

/// The text of a resolved URL, where its host is within the scope.
pub open spec fn in_domain(
    scope: Option<Seq<char>>,
    url: Option<(Option<Seq<char>>, Seq<char>)>,
) -> Option<Seq<char>> {
    match (scope, url) {
        (Some(domain), Some((Some(host), text))) => if is_within(host, domain) {
            Some(text)
        } else {
            None
        },
        _ => None,
    }
}

/// Where an anchor on the page `base` leads, if it leads into the scope.
pub open spec fn anchor_target(
    scope: Option<Seq<char>>,
    base: Seq<char>,
    href: Option<Seq<char>>,
) -> Option<Seq<char>> {
    match href {
        Some(h) => in_domain(scope, resolution(base, h)),
        None => None,
    }
}

/// Where the anchors of a page lead, in order, as far as they lead into the scope.
pub open spec fn targets(
    scope: Option<Seq<char>>,
    base: Seq<char>,
    hrefs: Seq<Option<Seq<char>>>,
) -> Seq<Seq<char>> {
    hrefs.filter_map(|h: Option<Seq<char>>| anchor_target(scope, base, h))
}

/// Where the anchors in a page's source refer to.
pub open spec fn anchors_in(html: Seq<char>) -> Seq<Option<Seq<char>>> {
    selected_attributes(html, ANCHOR_SELECTOR@, ANCHOR_ATTRIBUTE@)
}

/// Those of `magnets` that are not in `found`, each once, in order.
pub open spec fn fresh(found: Set<Seq<char>>, magnets: Seq<Seq<char>>) -> Seq<Seq<char>>
    decreases magnets.len(),
{
    if magnets.len() == 0 {
        seq![]
    } else {
        let before = fresh(found, magnets.drop_last());
        if found.contains(magnets.last()) || magnets.drop_last().contains(magnets.last()) {
            before
        } else {
            before.push(magnets.last())
        }
    }
}

/// Those of `entries` whose magnet link is not in `found`, one for each link, in order.
pub open spec fn fresh_entries(found: Set<Seq<char>>, entries: Seq<EntryView>) -> Seq<EntryView>
    decreases entries.len(),
{
    if entries.len() == 0 {
        seq![]
    } else {
        let rest = entries.drop_last();
        let before = fresh_entries(found, rest);
        if found.contains(entries.last().magnet) || magnets_of(rest).contains(entries.last().magnet) {
            before
        } else {
            before.push(entries.last())
        }
    }
}

/// How many more magnet links are wanted.
pub open spec fn room(found: nat, max_links: nat) -> nat {
    if found < max_links {
        (max_links - found) as nat
    } else {
        0
    }
}

/// The first `n` items of `s`, or all of them where there are fewer.
pub open spec fn at_most<A>(s: Seq<A>, n: nat) -> Seq<A> {
    if n < s.len() {
        s.take(n as int)
    } else {
        s
    }
}

/// Those of `magnets` that are added to `found`: the new ones, in order, as many as are wanted.
pub open spec fn kept(found: Set<Seq<char>>, max_links: nat, magnets: Seq<Seq<char>>) -> Seq<
    Seq<char>,
> {
    at_most(fresh(found, magnets), room(found.len(), max_links))
}

/// What is found once `magnets` are taken in.
pub open spec fn found_after(
    found: Set<Seq<char>>,
    max_links: nat,
    magnets: Seq<Seq<char>>,
) -> Set<Seq<char>> {
    found.union(kept(found, max_links, magnets).to_set())
}

/// What is known in detail once `entries` are taken in: those that are new are added, in order, as
/// many as are wanted.
pub open spec fn known_after(
    found: Set<Seq<char>>,
    known: Seq<EntryView>,
    max_links: nat,
    entries: Seq<EntryView>,
) -> Seq<EntryView> {
    known + at_most(fresh_entries(found, entries), room(found.len(), max_links))
}

/// A page has come up, and it is fetched or not.
pub open spec fn page_admitted(a: Scraper, b: Scraper, url: Seq<char>, depth: nat, fetch: bool) -> bool {
    &&& fetch == is_fetched(
        a.pages(),
        a.found().len(),
        a.max_links as nat,
        a.max_depth as nat,
        url,
        depth,
    )
    &&& b.pages() == pages_after(a.pages(), a.max_depth as nat, url, depth)
    &&& b.same_finds(a)
    &&& b.same_limits(a)
}

/// What a page holds has been taken in, as much as was wanted: first the magnet links in its source,
/// and then the torrents that it lists. It has given the links and the new magnet links. A page that
/// could not be fetched gives nothing.
pub open spec fn page_taken(
    a: Scraper,
    b: Scraper,
    url: Seq<char>,
    page: Option<PageView>,
    links: Seq<Seq<char>>,
    magnets: Seq<Seq<char>>,
) -> bool {
    &&& match page {
        Some(p) => {
            let max_links = a.max_links as nat;
            let first = found_after(a.found(), max_links, magnets_in(p.html));
            &&& links == targets(a.scope(), url, anchors_in(p.html))
            &&& magnets == kept(a.found(), max_links, magnets_in(p.html)) + kept(
                first,
                max_links,
                magnets_of(p.records),
            )
            &&& b.found() == found_after(first, max_links, magnets_of(p.records))
            &&& b.known() == known_after(first, a.known(), max_links, p.records)
        },
        None => {
            &&& links.len() == 0
            &&& magnets.len() == 0
            &&& b.same_finds(a)
        },
    }
    &&& b.pages() == a.pages()
    &&& b.same_limits(a)
}

/// What is reported of a page that came with this status; nothing where it is used.
pub open spec fn status_report(code: u16, status: Seq<char>, url: Seq<char>) -> Option<Seq<char>> {
    if 200 <= code < 300 {
        None
    } else {
        Some("HTTP "@ + status + ": "@ + url)
    }
}

/// The entries are everything that has been found, each once, with what is known of it.
pub open spec fn are_results(
    found: Set<Seq<char>>,
    known: Seq<EntryView>,
    entries: Seq<EntryView>,
) -> bool {
    &&& magnets_of(entries).no_duplicates()
    &&& magnets_of(entries).to_set() == found
    &&& forall|i: int| 0 <= i < entries.len() ==> is_entry_for(known, #[trigger] entries[i])
}

/// `entry` is what is handed on for its magnet link: the details, where they are known, or else
/// the link alone.
pub open spec fn is_entry_for(known: Seq<EntryView>, entry: EntryView) -> bool {
    if magnets_of(known).contains(entry.magnet) {
        known.contains(entry)
    } else {
        entry == bare_entry(entry.magnet)
    }
}

/// A copy of an optional text.
fn copy_text(t: &Option<String>) -> (r: Option<String>)
    ensures
        optional_text(r) == optional_text(*t),
{
    match t {
        Some(s) => Some(s.clone()),
        None => None,
    }
}

/// What one more magnet link does to the set.
proof fn lemma_to_set_step(magnets: Seq<Seq<char>>, i: int)
    requires
        0 <= i < magnets.len(),
    ensures
        magnets.take(i + 1).to_set() == magnets.take(i).to_set().insert(magnets[i]),
        magnets.take(i + 1).drop_last() == magnets.take(i),
        magnets.take(i + 1).last() == magnets[i],
{
    let next = magnets.take(i + 1);
    assert(next == magnets.take(i).push(magnets[i]));
    assert forall|m: Seq<char>| next.to_set().contains(m) == magnets.take(i).to_set().insert(
        magnets[i],
    ).contains(m) by {
        if magnets.take(i).contains(m) {
            let k = choose|k: int| 0 <= k < i && magnets.take(i)[k] == m;
            assert(next[k] == m);
        }
        if m == magnets[i] {
            assert(next[i] == m);
        }
        if next.contains(m) {
            let k = choose|k: int| 0 <= k < next.len() && next[k] == m;
            if k < i {
                assert(magnets.take(i)[k] == m);
            }
        }
    }
    assert(next.to_set() =~= magnets.take(i).to_set().insert(magnets[i]));
}

/// The links that are new are those that were not found yet, each once.
pub proof fn lemma_fresh(found: Set<Seq<char>>, magnets: Seq<Seq<char>>)
    ensures
        fresh(found, magnets).no_duplicates(),
        forall|m: Seq<char>|
            fresh(found, magnets).contains(m) <==> magnets.contains(m) && !found.contains(m),
    decreases magnets.len(),
{
    if magnets.len() > 0 {
        let rest = magnets.drop_last();
        let last = magnets.last();
        let before = fresh(found, rest);
        let after = fresh(found, magnets);
        lemma_fresh(found, rest);
        assert forall|m: Seq<char>| magnets.contains(m) == (rest.contains(m) || m == last) by {
            if rest.contains(m) {
                let k = choose|k: int| 0 <= k < rest.len() && rest[k] == m;
                assert(magnets[k] == m);
            }
            if m == last {
                assert(magnets[magnets.len() - 1] == m);
            }
            if magnets.contains(m) && m != last {
                let k = choose|k: int| 0 <= k < magnets.len() && magnets[k] == m;
                assert(rest[k] == m);
            }
        }
        if after != before {
            assert(after == before.push(last));
            assert(!before.contains(last));
            assert forall|i: int, j: int| 0 <= i < after.len() && 0 <= j < after.len() && i != j implies after[i]
                != after[j] by {
                if i < before.len() {
                    assert(before.contains(before[i]));
                }
                if j < before.len() {
                    assert(before.contains(before[j]));
                }
            }
            assert forall|m: Seq<char>| after.contains(m) == (before.contains(m) || m == last) by {
                if before.contains(m) {
                    let k = choose|k: int| 0 <= k < before.len() && before[k] == m;
                    assert(after[k] == m);
                }
                if m == last {
                    assert(after[before.len() as int] == m);
                }
                if after.contains(m) && m != last {
                    let k = choose|k: int| 0 <= k < after.len() && after[k] == m;
                    assert(before[k] == m);
                }
            }
        }
    }
}

/// What is new among the first of the magnet links comes first among what is new.
proof fn lemma_fresh_prefix(found: Set<Seq<char>>, magnets: Seq<Seq<char>>, i: int)
    requires
        0 <= i <= magnets.len(),
    ensures
        fresh(found, magnets.take(i)).is_prefix_of(fresh(found, magnets)),
    decreases magnets.len(),
{
    if i == magnets.len() {
        assert(magnets.take(i) == magnets);
    } else {
        assert(magnets.drop_last().take(i) == magnets.take(i));
        lemma_fresh_prefix(found, magnets.drop_last(), i);
    }
}

/// The magnet links of the entries that are new are the new ones of the entries' magnet links.
pub proof fn lemma_fresh_entries(found: Set<Seq<char>>, entries: Seq<EntryView>)
    ensures
        magnets_of(fresh_entries(found, entries)) == fresh(found, magnets_of(entries)),
    decreases entries.len(),
{
    if entries.len() > 0 {
        let rest = entries.drop_last();
        lemma_fresh_entries(found, rest);
        assert(magnets_of(entries).drop_last() =~= magnets_of(rest));
        assert(magnets_of(entries).last() == entries.last().magnet);
        assert(magnets_of(fresh_entries(found, rest).push(entries.last())) =~= magnets_of(
            fresh_entries(found, rest),
        ).push(entries.last().magnet));
    } else {
        assert(magnets_of(fresh_entries(found, entries)) =~= fresh(found, magnets_of(entries)));
    }
}

/// What is new among the first of the entries comes first among what is new.
proof fn lemma_fresh_entries_prefix(found: Set<Seq<char>>, entries: Seq<EntryView>, i: int)
    requires
        0 <= i <= entries.len(),
    ensures
        fresh_entries(found, entries.take(i)).is_prefix_of(fresh_entries(found, entries)),
    decreases entries.len(),
{
    if i == entries.len() {
        assert(entries.take(i) == entries);
    } else {
        assert(entries.drop_last().take(i) == entries.take(i));
        lemma_fresh_entries_prefix(found, entries.drop_last(), i);
    }
}

/// Taking magnet links in keeps what is found, adds as many as are kept, and stays within the
/// limit.
pub proof fn lemma_found_after(found: Set<Seq<char>>, max_links: nat, magnets: Seq<Seq<char>>)
    requires
        found.finite(),
    ensures
        found.subset_of(found_after(found, max_links, magnets)),
        found_after(found, max_links, magnets).finite(),
        found_after(found, max_links, magnets).len() == found.len() + kept(
            found,
            max_links,
            magnets,
        ).len(),
        found.len() <= max_links ==> found_after(found, max_links, magnets).len() <= max_links,
{
    let new = kept(found, max_links, magnets);
    let all = fresh(found, magnets);
    lemma_fresh(found, magnets);
    assert forall|i: int| 0 <= i < new.len() implies new[i] == all[i] by {}
    assert(new.no_duplicates());
    vstd::seq_lib::seq_to_set_is_finite(new);
    new.unique_seq_to_set();
    assert(found.disjoint(new.to_set())) by {
        assert forall|m: Seq<char>| new.to_set().contains(m) implies !found.contains(m) by {
            let k = choose|k: int| 0 <= k < new.len() && new[k] == m;
            assert(all.contains(all[k]));
        }
    }
    vstd::set_lib::lemma_set_disjoint_lens(found, new.to_set());
}

/// A crawler for a domain that has seen nothing yet.
pub open spec fn is_new(scraper: Scraper, domain: Seq<char>, max_links: nat, max_depth: nat) -> bool {
    &&& scraper.domain@ == domain
    &&& scraper.scope() == scope_of(domain)
    &&& scraper.max_links == max_links
    &&& scraper.max_depth == max_depth
    &&& scraper.pages() == Set::<Seq<char>>::empty()
    &&& scraper.found() == Set::<Seq<char>>::empty()
    &&& scraper.known() == Seq::<EntryView>::empty()
}

impl Scraper {
    /// A crawler for a domain that has seen nothing yet.
    pub fn new(domain: String, max_links: usize, max_depth: usize) -> (scraper: Scraper)
        ensures
            scraper.wf(),
            scraper.domain == domain,
            is_new(scraper, domain@, max_links as nat, max_depth as nat),
    {
        let typed = Self::address_of(domain.as_str());
        let host = Self::host_from(resolve_url(typed.as_str(), ""));
        let scraper = Scraper {
            domain,
            host,
            visited: set_new(),
            magnets: set_new(),
            details: Vec::new(),
            max_links,
            max_depth,
        };
        assert(scraper.known() =~= Seq::<EntryView>::empty());
        scraper
    }

    /// The address that a domain stands for: the domain itself where it is a URL, or else its
    /// secure site.
    pub fn address_of(domain: &str) -> (url: String)
        ensures
            url@ == typed_address(domain@),
    {
        let v = chars_of(domain);
        if begins_with(&v, "http://") || begins_with(&v, "https://") {
            domain.to_owned()
        } else {
            let mut url = "https://".to_owned();
            url.append(domain);
            url
        }
    }

    /// The text of a resolved URL; where there is none, the address as it was typed.
    pub fn address_from(typed: String, url: Option<ResolvedUrl>) -> (r: String)
        ensures
            r@ == address_with(typed@, optional_parts(url)),
    {
        match url {
            Some(u) => u.text,
            None => typed,
        }
    }

    /// The host of a resolved URL.
    pub fn host_from(url: Option<ResolvedUrl>) -> (r: Option<String>)
        ensures
            optional_text(r) == host_with(optional_parts(url)),
    {
        match url {
            Some(u) => u.host,
            None => None,
        }
    }

    /// The address that a crawl of the domain begins with, in the form in which links come.
    pub fn start_url(domain: &str) -> (url: String)
        ensures
            url@ == start_address(domain@),
    {
        let typed = Self::address_of(domain);
        let url = resolve_url(typed.as_str(), "");
        Self::address_from(typed, url)
    }

    /// Whether `host` is the domain, or a subdomain of it.
    fn within(host: &str, domain: &str) -> (r: bool)
        ensures
            r == is_within(host@, domain@),
    {
        let mut dotted = ".".to_owned();
        dotted.append(domain);
        let v = chars_of(host);
        same_text(host, domain) || ends_with(&v, dotted.as_str())
    }

    /// The text of a resolved URL, where its host is within the scope.
    pub fn keep_in_domain(&self, url: Option<ResolvedUrl>) -> (r: Option<String>)
        ensures
            optional_text(r) == in_domain(self.scope(), optional_parts(url)),
    {
        match url {
            Some(u) => {
                match (&self.host, &u.host) {
                    (Some(domain), Some(host)) => {
                        if Self::within(host.as_str(), domain.as_str()) {
                            return Some(u.text);
                        }
                    },
                    _ => {},
                }
                None
            },
            None => None,
        }
    }

    /// Where the link `href` on the page `base` leads, if it leads into the scope.
    pub fn normalize_url(&self, base: &str, href: &str) -> (r: Option<String>)
        ensures
            optional_text(r) == in_domain(self.scope(), resolution(base@, href@)),
    {
        self.keep_in_domain(resolve_url(base, href))
    }

    /// How many more magnet links are wanted.
    fn wanted(&self) -> (n: usize)
        ensures
            n == room(self.found().len(), self.max_links as nat),
    {
        let found: usize = set_len(&self.magnets);
        if found < self.max_links {
            self.max_links - found
        } else {
            0
        }
    }

    /// Takes the magnet links in a page's source, as many as are wanted, and gives those that are
    /// new.
    pub fn extract_magnets(&mut self, html: &str) -> (new: Vec<String>)
        ensures
            texts(new@) == kept(old(self).found(), old(self).max_links as nat, magnets_in(html@)),
            final(self).found() == found_after(
                old(self).found(),
                old(self).max_links as nat,
                magnets_in(html@),
            ),
            old(self).found().len() <= old(self).max_links ==> final(self).found().len()
                <= final(self).max_links,
            final(self).pages() == old(self).pages(),
            final(self).known() == old(self).known(),
            final(self).same_limits(*old(self)),
            old(self).wf() ==> final(self).wf(),
    {
        let matches = find_matches(MAGNET_PATTERN, html);
        self.take_magnets(matches)
    }

    /// Takes the magnet links given, as many as are wanted, and gives those that are new.
    pub fn take_magnets(&mut self, matches: Vec<String>) -> (new: Vec<String>)
        ensures
            texts(new@) == kept(old(self).found(), old(self).max_links as nat, texts(matches@)),
            final(self).found() == found_after(
                old(self).found(),
                old(self).max_links as nat,
                texts(matches@),
            ),
            old(self).found().len() <= old(self).max_links ==> final(self).found().len()
                <= final(self).max_links,
            final(self).pages() == old(self).pages(),
            final(self).known() == old(self).known(),
            final(self).same_limits(*old(self)),
            old(self).wf() ==> final(self).wf(),
    {
        let ghost all = texts(matches@);
        let ghost found = self.found();
        let mut left: usize = self.wanted();
        let ghost limit = left as nat;
        let mut new: Vec<String> = Vec::new();
        let mut i: usize = 0;
        assert(all.take(0) == Seq::<Seq<char>>::empty());
        assert(texts(new@) =~= Seq::<Seq<char>>::empty());
        assert(found.union(all.take(0).to_set()) =~= found);
        while i < matches.len() && left > 0
            invariant
                i <= matches@.len(),
                all == texts(matches@),
                found == old(self).found(),
                new@.len() + left == limit,
                texts(new@) == fresh(found, all.take(i as int)),
                self.found() == found.union(all.take(i as int).to_set()),
                i > 0 ==> self.found().finite(),
                self.pages() == old(self).pages(),
                self.known() == old(self).known(),
                self.same_limits(*old(self)),
            decreases matches.len() - i,
        {
            let magnet = matches[i].clone();
            proof {
                lemma_to_set_step(all, i as int);
                assert(all[i as int] == magnet@);
            }
            if set_insert(&mut self.magnets, magnet) {
                let ghost listed = new@;
                new.push(matches[i].clone());
                left -= 1;
                assert(texts(new@) =~= texts(listed).push(all[i as int]));
            }
            assert(self.found() =~= found.union(all.take(i + 1).to_set()));
            i += 1;
        }
        proof {
            assert(all.take(all.len() as int) == all);
            lemma_enough_taken(found, self.max_links as nat, all, i as int);
            if i > 0 {
                vstd::set_lib::lemma_len_subset(found, self.found());
                lemma_found_after(found, self.max_links as nat, all);
            } else {
                assert(self.found() =~= found);
            }
        }
        new
    }

    /// Takes the torrents that an API lists, as many as are wanted, and gives the magnet links that
    /// are new.
    pub fn take_records(&mut self, records: &Vec<ApiRecord>) -> (new: Vec<String>)
        ensures
            texts(new@) == kept(
                old(self).found(),
                old(self).max_links as nat,
                magnets_of(record_views(records@)),
            ),
            final(self).found() == found_after(
                old(self).found(),
                old(self).max_links as nat,
                magnets_of(record_views(records@)),
            ),
            final(self).known() == known_after(
                old(self).found(),
                old(self).known(),
                old(self).max_links as nat,
                record_views(records@),
            ),
            old(self).found().len() <= old(self).max_links ==> final(self).found().len()
                <= final(self).max_links,
            final(self).pages() == old(self).pages(),
            final(self).same_limits(*old(self)),
            old(self).wf() ==> final(self).wf(),
    {
        let ghost views = record_views(records@);
        let ghost all = magnets_of(views);
        let ghost found = self.found();
        let ghost known = self.known();
        let mut left: usize = self.wanted();
        let ghost limit = left as nat;
        let mut new: Vec<String> = Vec::new();
        let mut i: usize = 0;
        assert(texts(new@) =~= Seq::<Seq<char>>::empty());
        assert(all.take(0) == Seq::<Seq<char>>::empty());
        assert(views.take(0) == Seq::<EntryView>::empty());
        assert(found.union(all.take(0).to_set()) =~= found);
        assert(known + fresh_entries(found, views.take(0)) =~= known);
        while i < records.len() && left > 0
            invariant
                i <= records@.len(),
                views == record_views(records@),
                all == magnets_of(views),
                found == old(self).found(),
                known == old(self).known(),
                new@.len() + left == limit,
                texts(new@) == fresh(found, all.take(i as int)),
                self.known() == known + fresh_entries(found, views.take(i as int)),
                self.found() == found.union(all.take(i as int).to_set()),
                i > 0 ==> self.found().finite(),
                self.pages() == old(self).pages(),
                self.same_limits(*old(self)),
                old(self).wf() ==> self.wf(),
            decreases records.len() - i,
        {
            let record = &records[i];
            let mut magnet = "magnet:?xt=urn:btih:".to_owned();
            magnet.append(record.info_hash.as_str());
            let entry = TorrentEntry {
                magnet: magnet.clone(),
                name: copy_text(&record.name),
                size: record.size,
                seeders: record.seeders,
                leechers: record.leechers,
            };
            proof {
                lemma_to_set_step(all, i as int);
                assert(views[i as int] == record@);
                assert(all[i as int] == magnet@);
                assert(entry@ == record@);
                assert(views.take(i + 1).drop_last() == views.take(i as int));
                assert(views.take(i + 1).last() == record@);
                assert(magnets_of(views.take(i as int)) =~= all.take(i as int));
            }
            let added = magnet.clone();
            let ghost listed = new@;
            let ghost set_before = self.found();
            let ghost known_before = self.known();
            if set_insert(&mut self.magnets, magnet) {
                self.details.push(entry);
                new.push(added);
                left -= 1;
                assert(texts(new@) =~= texts(listed).push(all[i as int]));
                assert(self.known() =~= known_before.push(entry@));
                proof {
                    lemma_details_stay_sound(set_before, known_before, entry@);
                    assert(known + fresh_entries(found, views.take(i as int)).push(entry@)
                        =~= known_before.push(entry@));
                }
            } else {
                assert(set_before.insert(entry@.magnet) =~= set_before);
            }
            assert(self.found() =~= found.union(all.take(i + 1).to_set()));
            i += 1;
        }
        proof {
            assert(all.take(all.len() as int) == all);
            assert(views.take(views.len() as int) == views);
            assert(magnets_of(views.take(i as int)) =~= all.take(i as int));
            lemma_fresh_entries(found, views.take(i as int));
            lemma_fresh_entries(found, views);
            assert(magnets_of(fresh_entries(found, views.take(i as int))).len() == fresh_entries(
                found,
                views.take(i as int),
            ).len());
            assert(magnets_of(fresh_entries(found, views)).len() == fresh_entries(found, views).len());
            lemma_enough_taken(found, self.max_links as nat, all, i as int);
            lemma_fresh_entries_prefix(found, views, i as int);
            if i > 0 {
                vstd::set_lib::lemma_len_subset(found, self.found());
                lemma_found_after(found, self.max_links as nat, all);
            } else {
                assert(self.found() =~= found);
            }
        }
        new
    }

    /// Whether a page's source can be parsed.
    pub fn can_parse(html: &str) -> (r: bool)
        ensures
            r == is_parsable(html@),
    {
        html.as_bytes().len() <= HTML_LIMIT
    }

    /// Where the anchors of a page lead, as far as they lead into the scope.
    pub fn extract_links(&self, html: &str, base_url: &str) -> (links: Vec<String>)
        requires
            is_parsable(html@),
        ensures
            texts(links@) == targets(self.scope(), base_url@, anchors_in(html@)),
    {
        let hrefs = select_attributes(html, ANCHOR_SELECTOR, ANCHOR_ATTRIBUTE);
        self.collect_links(&hrefs, base_url)
    }

    /// Where anchors with the given references lead, as far as they lead into the scope.
    pub fn collect_links(&self, hrefs: &Vec<Option<String>>, base_url: &str) -> (links: Vec<String>)
        ensures
            texts(links@) == targets(self.scope(), base_url@, optional_texts(hrefs@)),
    {
        let ghost all = optional_texts(hrefs@);
        let ghost f = |h: Option<Seq<char>>| anchor_target(self.scope(), base_url@, h);
        let mut links: Vec<String> = Vec::new();
        let mut i: usize = 0;
        assert(texts(links@) =~= all.take(0).filter_map(f));
        while i < hrefs.len()
            invariant
                i <= hrefs@.len(),
                all == optional_texts(hrefs@),
                f == (|h: Option<Seq<char>>| anchor_target(self.scope(), base_url@, h)),
                texts(links@) == all.take(i as int).filter_map(f),
            decreases hrefs.len() - i,
        {
            proof {
                all.lemma_filter_map_take_succ(f, i as int);
                assert(all[i as int] == optional_text(hrefs@[i as int]));
            }
            let ghost before = links@;
            match &hrefs[i] {
                Some(href) => match self.normalize_url(base_url, href.as_str()) {
                    Some(link) => {
                        links.push(link);
                        assert(texts(links@) =~= texts(before).push(link@));
                    },
                    None => {},
                },
                None => {},
            }
            i += 1;
        }
        assert(all.take(all.len() as int) == all);
        links
    }

    /// Decides whether a page is fetched, and marks it as visited.
    pub fn admit_page(&mut self, url: &str, depth: usize) -> (fetch: bool)
        ensures
            page_admitted(*old(self), *final(self), url@, depth as nat, fetch),
            old(self).wf() ==> final(self).wf(),
    {
        if depth > self.max_depth {
            return false;
        }
        if !set_insert(&mut self.visited, url.to_owned()) {
            return false;
        }
        set_len(&self.magnets) < self.max_links
    }

    /// Whether a page that came with this status is used; if not, the message to report.
    pub fn check_status(code: u16, status: &str, url: &str) -> (r: Result<(), String>)
        ensures
            match r {
                Ok(_) => status_report(code, status@, url@) is None,
                Err(message) => status_report(code, status@, url@) == Some(message@),
            },
    {
        if 200 <= code && code < 300 {
            Ok(())
        } else {
            let mut message = "HTTP ".to_owned();
            message.append(status);
            message.append(": ");
            message.append(url);
            Err(message)
        }
    }

    /// Takes what a fetched page holds, as much as is wanted, and gives the links to go on with and
    /// the magnet links that are new. A page that could not be fetched gives nothing.
    pub fn take_page(&mut self, url: &str, page: Option<String>, records: &Vec<ApiRecord>) -> (r:
        PageYield)
        requires
            page is Some ==> is_parsable(page->0@),
        ensures
            page_taken(
                *old(self),
                *final(self),
                url@,
                page_view(page, records@),
                texts(r.links@),
                texts(r.magnets@),
            ),
            old(self).found().len() <= old(self).max_links ==> final(self).found().len()
                <= final(self).max_links,
            old(self).wf() ==> final(self).wf(),
    {
        match page {
            Some(html) => {
                let mut magnets = self.extract_magnets(html.as_str());
                let mut listed = self.take_records(records);
                let ghost first = magnets@;
                let ghost second = listed@;
                magnets.append(&mut listed);
                assert(texts(magnets@) =~= texts(first) + texts(second));
                let links = self.extract_links(html.as_str(), url);
                PageYield { links, magnets }
            },
            None => PageYield { links: Vec::new(), magnets: Vec::new() },
        }
    }

    /// The details that are known of a magnet link, if any.
    fn details_of(&self, magnet: &str) -> (r: Option<usize>)
        ensures
            match r {
                Some(i) => i < self.details@.len() && self.details@[i as int]@.magnet == magnet@,
                None => !magnets_of(self.known()).contains(magnet@),
            },
    {
        let mut i: usize = 0;
        while i < self.details.len()
            invariant
                i <= self.details@.len(),
                forall|j: int| 0 <= j < i ==> #[trigger] magnets_of(self.known())[j] != magnet@,
            decreases self.details.len() - i,
        {
            assert(magnets_of(self.known())[i as int] == self.details@[i as int].magnet@);
            if same_text(self.details[i].magnet.as_str(), magnet) {
                return Some(i);
            }
            i += 1;
        }
        None
    }

    /// Everything that has been found: each magnet link once, in an order that is left open, with
    /// what is known of it.
    pub fn results(&self) -> (data: TorrentData)
        ensures
            are_results(self.found(), self.known(), entry_views(data.torrents@)),
    {
        let items = set_items(&self.magnets);
        let mut torrents: Vec<TorrentEntry> = Vec::new();
        let mut i: usize = 0;
        while i < items.len()
            invariant
                i <= items@.len(),
                torrents@.len() == i,
                forall|j: int| 0 <= j < i ==> (#[trigger] torrents@[j])@.magnet == items@[j]@,
                forall|j: int| 0 <= j < i ==> is_entry_for(self.known(), #[trigger] torrents@[j]@),
            decreases items.len() - i,
        {
            let entry = match self.details_of(items[i].as_str()) {
                Some(k) => {
                    let d = &self.details[k];
                    let entry = TorrentEntry {
                        magnet: items[i].clone(),
                        name: copy_text(&d.name),
                        size: d.size,
                        seeders: d.seeders,
                        leechers: d.leechers,
                    };
                    assert(entry@ == d@);
                    assert(self.known()[k as int] == d@);
                    assert(magnets_of(self.known())[k as int] == entry@.magnet);
                    entry
                },
                None => TorrentEntry {
                    magnet: items[i].clone(),
                    name: None,
                    size: None,
                    seeders: None,
                    leechers: None,
                },
            };
            assert(is_entry_for(self.known(), entry@));
            torrents.push(entry);
            i += 1;
        }
        assert(magnets_of(entry_views(torrents@)) =~= texts(items@));
        assert forall|j: int| 0 <= j < entry_views(torrents@).len() implies is_entry_for(
            self.known(),
            #[trigger] entry_views(torrents@)[j],
        ) by {
            assert(entry_views(torrents@)[j] == torrents@[j]@);
        }
        TorrentData { torrents }
    }
}

/// Where the first `i` magnet links are taken in and these are all, or as many are new among them
/// as are wanted, what is kept of them is what is kept of all.
proof fn lemma_enough_taken(
    found: Set<Seq<char>>,
    max_links: nat,
    magnets: Seq<Seq<char>>,
    i: int,
)
    requires
        0 <= i <= magnets.len(),
        fresh(found, magnets.take(i)).len() <= room(found.len(), max_links),
        i == magnets.len() || fresh(found, magnets.take(i)).len() == room(found.len(), max_links),
    ensures
        kept(found, max_links, magnets) == fresh(found, magnets.take(i)),
        found_after(found, max_links, magnets) == found.union(magnets.take(i).to_set()),
{
    let part = magnets.take(i);
    let new = fresh(found, part);
    if i == magnets.len() {
        assert(part == magnets);
    }
    lemma_fresh_prefix(found, magnets, i);
    assert(kept(found, max_links, magnets) =~= new);
    lemma_fresh(found, part);
    assert forall|m: Seq<char>| found.union(new.to_set()).contains(m) == found.union(
        part.to_set(),
    ).contains(m) by {
        assert(new.to_set().contains(m) == new.contains(m));
        assert(part.to_set().contains(m) == part.contains(m));
    }
    assert(found.union(new.to_set()) =~= found.union(part.to_set()));
}

/// Details of a magnet link that is new may be added.
proof fn lemma_details_stay_sound(found: Set<Seq<char>>, known: Seq<EntryView>, entry: EntryView)
    requires
        !found.contains(entry.magnet),
    ensures
        found.finite() ==> found.insert(entry.magnet).finite(),
        magnets_of(known).no_duplicates() && magnets_of(known).to_set().subset_of(found) ==> {
            &&& magnets_of(known.push(entry)).no_duplicates()
            &&& magnets_of(known.push(entry)).to_set().subset_of(found.insert(entry.magnet))
        },
{
    let before = magnets_of(known);
    let after = magnets_of(known.push(entry));
    assert(after =~= before.push(entry.magnet));
    if before.no_duplicates() && before.to_set().subset_of(found) {
        assert forall|i: int, j: int| 0 <= i < after.len() && 0 <= j < after.len() && i != j implies after[i]
            != after[j] by {
            if i < before.len() {
                assert(before.contains(before[i]));
                assert(before.to_set().contains(before[i]));
            }
            if j < before.len() {
                assert(before.contains(before[j]));
                assert(before.to_set().contains(before[j]));
            }
        }
        assert forall|m: Seq<char>| after.to_set().contains(m) implies found.insert(
            entry.magnet,
        ).contains(m) by {
            let k = choose|k: int| 0 <= k < after.len() && after[k] == m;
            if k < before.len() {
                assert(before[k] == m);
                assert(before.to_set().contains(m));
            }
        }
    }
}

/// The pages that are still to be crawled, each with its depth.
pub struct CrawlQueue {
    pub pending: Vec<(String, usize)>,
}

/// Pages with their depths, as mathematical values.
pub open spec fn page_views(pages: Seq<(String, usize)>) -> Seq<(Seq<char>, nat)> {
    pages.map_values(|p: (String, usize)| (p.0@, p.1 as nat))
}

/// The links of pages with the pages' depths, as mathematical values.
pub open spec fn yield_views(yields: Seq<(Vec<String>, usize)>) -> Seq<(Seq<Seq<char>>, nat)> {
    yields.map_values(|y: (Vec<String>, usize)| (texts(y.0@), y.1 as nat))
}

/// The links that pages of known depths have given, each one level deeper than its page.
pub open spec fn one_deeper(yields: Seq<(Seq<Seq<char>>, nat)>) -> Seq<(Seq<char>, nat)>
    decreases yields.len(),
{
    if yields.len() == 0 {
        seq![]
    } else {
        let (links, depth) = yields.last();
        one_deeper(yields.drop_last()) + links.map_values(|link: Seq<char>| (link, depth + 1))
    }
}

/// The crawl is at its end: no page waits, or enough has been found.
pub open spec fn is_at_end(waiting: Seq<(Seq<char>, nat)>, full: bool) -> bool {
    waiting.len() == 0 || full
}

/// The pages that wait once pages have given links: the links are added, one level deeper than their
/// pages, unless enough has been found.
pub open spec fn waiting_after(
    waiting: Seq<(Seq<char>, nat)>,
    full: bool,
    yields: Seq<(Seq<Seq<char>>, nat)>,
) -> Seq<(Seq<char>, nat)> {
    if full {
        waiting
    } else {
        waiting + one_deeper(yields)
    }
}

/// Every page that has given links has a depth below the largest that can be counted.
pub open spec fn can_go_deeper(yields: Seq<(Vec<String>, usize)>) -> bool {
    forall|i: int|
        0 <= i < yields.len() && (#[trigger] yields[i]).0@.len() > 0 ==> yields[i].1 < usize::MAX
}

/// The links that pages have given can be put on the queue, or need not be.
pub open spec fn is_absorbable(full: bool, yields: Seq<(Vec<String>, usize)>) -> bool {
    full || can_go_deeper(yields)
}

/// The pages that wait at first: the start, at depth zero.
pub open spec fn first_waiting(start: Seq<char>) -> Seq<(Seq<char>, nat)> {
    seq![(start, 0nat)]
}

/// All pages have been taken to be crawled, or none where the crawl is at its end.
pub open spec fn batch_taken(
    before: Seq<(Seq<char>, nat)>,
    after: Seq<(Seq<char>, nat)>,
    full: bool,
    batch: Option<Seq<(Seq<char>, nat)>>,
) -> bool {
    &&& batch is None <==> is_at_end(before, full)
    &&& match batch {
        Some(pages) => pages == before && after == Seq::<(Seq<char>, nat)>::empty(),
        None => after == before,
    }
}

impl CrawlQueue {
    /// The pages with their depths.
    pub open spec fn pages(self) -> Seq<(Seq<char>, nat)> {
        page_views(self.pending@)
    }

    /// A queue that holds the first page, at depth zero.
    pub fn new(start_url: String) -> (queue: CrawlQueue)
        ensures
            queue.pages() == first_waiting(start_url@),
    {
        let mut pending: Vec<(String, usize)> = Vec::new();
        pending.push((start_url, 0));
        let queue = CrawlQueue { pending };
        assert(queue.pages() =~= seq![(start_url@, 0nat)]);
        queue
    }

    /// Takes all pages off the queue, to be crawled together. None is taken, and the crawl is at
    /// its end, where there is none or enough has been found.
    pub fn next_batch(&mut self, scraper: &Scraper) -> (batch: Option<Vec<(String, usize)>>)
        ensures
            batch_taken(
                old(self).pages(),
                final(self).pages(),
                scraper.is_full(),
                match batch {
                    Some(pages) => Some(page_views(pages@)),
                    None => None,
                },
            ),
    {
        if self.pending.len() == 0 || set_len(&scraper.magnets) >= scraper.max_links {
            return None;
        }
        let mut batch: Vec<(String, usize)> = Vec::new();
        std::mem::swap(&mut batch, &mut self.pending);
        assert(self.pages() =~= Seq::<(Seq<char>, nat)>::empty());
        Some(batch)
    }

    /// Whether the links of crawled pages can be put on the queue: enough has been found, so that none
    /// is, or every depth can be counted.
    pub fn can_absorb(yields: &Vec<(Vec<String>, usize)>, scraper: &Scraper) -> (r: bool)
        ensures
            r == is_absorbable(scraper.is_full(), yields@),
    {
        if set_len(&scraper.magnets) >= scraper.max_links {
            return true;
        }
        let mut i: usize = 0;
        while i < yields.len()
            invariant
                i <= yields@.len(),
                !scraper.is_full(),
                forall|j: int|
                    0 <= j < i && (#[trigger] yields@[j]).0@.len() > 0 ==> yields@[j].1 < usize::MAX,
            decreases yields.len() - i,
        {
            if yields[i].0.len() > 0 && yields[i].1 == usize::MAX {
                assert(yields@[i as int].0@.len() > 0);
                return false;
            }
            i += 1;
        }
        true
    }

    /// Puts the links of crawled pages on the queue, one level deeper than their pages, unless
    /// enough has been found.
    pub fn absorb(&mut self, yields: Vec<(Vec<String>, usize)>, scraper: &Scraper)
        requires
            is_absorbable(scraper.is_full(), yields@),
        ensures
            final(self).pages() == waiting_after(
                old(self).pages(),
                scraper.is_full(),
                yield_views(yields@),
            ),
    {
        if set_len(&scraper.magnets) >= scraper.max_links {
            return ;
        }
        let ghost all = yield_views(yields@);
        let ghost start = self.pages();
        let mut i: usize = 0;
        assert(all.take(0) == Seq::<(Seq<Seq<char>>, nat)>::empty());
        assert(start + one_deeper(all.take(0)) =~= start);
        while i < yields.len()
            invariant
                i <= yields@.len(),
                all == yield_views(yields@),
                self.pages() == start + one_deeper(all.take(i as int)),
                can_go_deeper(yields@),
            decreases yields.len() - i,
        {
            let links = &yields[i].0;
            let depth: usize = yields[i].1;
            let ghost before = self.pages();
            let ghost here = texts(links@);
            let ghost deeper = here.map_values(|link: Seq<char>| (link, depth as nat + 1));
            let mut k: usize = 0;
            assert(before + deeper.take(0) =~= before);
            while k < links.len()
                invariant
                    k <= links@.len(),
                    here == texts(links@),
                    deeper == here.map_values(|link: Seq<char>| (link, depth as nat + 1)),
                    links@.len() > 0 ==> depth < usize::MAX,
                    self.pages() == before + deeper.take(k as int),
                decreases links.len() - k,
            {
                let ghost now = self.pages();
                self.pending.push((links[k].clone(), depth + 1));
                assert(self.pages() =~= now.push((links@[k as int]@, depth as nat + 1)));
                assert(deeper.take(k + 1) =~= deeper.take(k as int).push(
                    (links@[k as int]@, depth as nat + 1),
                ));
                assert(self.pages() =~= before + deeper.take(k + 1));
                k += 1;
            }
            proof {
                assert(deeper.take(deeper.len() as int) =~= deeper);
                assert(all.take(i + 1).drop_last() =~= all.take(i as int));
                assert(all.take(i + 1).last() == (here, depth as nat));
                assert(self.pages() =~= start + one_deeper(all.take(i + 1)));
            }
            i += 1;
        }
        assert(all.take(all.len() as int) =~= all);
    }
}

} // verus!
