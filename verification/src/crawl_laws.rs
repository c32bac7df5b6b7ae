//! What holds of a crawl, however it goes.

use crate::crawl::{
    anchor_target, anchors_in, entry_views, found_after, fresh, fresh_entries, in_domain,
    is_fetched, is_within, kept, known_after, lemma_found_after, lemma_fresh, lemma_fresh_entries,
    magnet_for, magnets_of, one_deeper, page_admitted, page_taken, pages_after, room,
    start_address, targets, typed_address, EntryView, PageView, Scraper, TorrentEntry,
};
use crate::magnet::{
    is_magnet_char, is_magnet_link, law_found_magnets_are_magnet_links, magnet_prefix, magnets_in,
};
use crate::torrent::{links_of, DetailedTorrent, TorrentItem};
use crate::trusted::resolution;
use vstd::prelude::*;

verus! {

/// What a crawl is set to do, and what it meets: where it starts, the host that links are to lead
/// to, its limits, and what each address answers.
pub struct Setting {
    pub start: Seq<char>,
    pub scope: Option<Seq<char>>,
    pub max_links: nat,
    pub max_depth: nat,
    pub site: spec_fn(Seq<char>) -> Option<PageView>,
}

/// What is found once the answer of an address is taken in.
pub open spec fn finds_after(s: Setting, found: Set<Seq<char>>, url: Seq<char>) -> Set<Seq<char>> {
    match (s.site)(url) {
        Some(page) => found_after(
            found_after(found, s.max_links, magnets_in(page.html)),
            s.max_links,
            magnets_of(page.records),
        ),
        None => found,
    }
}

/// The links that the answer of an address gives.
pub open spec fn links_from(s: Setting, url: Seq<char>) -> Seq<Seq<char>> {
    match (s.site)(url) {
        Some(page) => targets(s.scope, url, anchors_in(page.html)),
        None => seq![],
    }
}

/// The answer of an address holds the magnet link.
pub open spec fn offers(s: Setting, url: Seq<char>, magnet: Seq<char>) -> bool {
    match (s.site)(url) {
        Some(page) => magnets_in(page.html).contains(magnet) || magnets_of(page.records).contains(
            magnet,
        ),
        None => false,
    }
}

/// What can happen in a crawl: a page comes up, or the answer to one that was fetched is taken in.
pub enum CrawlEvent {
    Page(Seq<char>, nat),
    Taken(Seq<char>, nat),
}

/// How far a crawl has come: the pages that are visited, the magnet links that are found, the pages
/// that were fetched, in order and with their depths, and the links that the pages of this round
/// have given.
pub struct Crawl {
    pub pages: Set<Seq<char>>,
    pub found: Set<Seq<char>>,
    pub fetched: Seq<(Seq<char>, nat)>,
    pub yields: Seq<(Seq<Seq<char>>, nat)>,
}

/// A crawl before anything has happened.
pub open spec fn crawl_start() -> Crawl {
    Crawl { pages: Set::empty(), found: Set::empty(), fetched: seq![], yields: seq![] }
}

/// The page is fetched when it comes up.
pub open spec fn is_admitted(s: Setting, c: Crawl, url: Seq<char>, depth: nat) -> bool {
    is_fetched(c.pages, c.found.len(), s.max_links, s.max_depth, url, depth)
}

/// A crawl after one more event. A page that is not fetched gives no links.
pub open spec fn crawl_step(s: Setting, c: Crawl, event: CrawlEvent) -> Crawl {
    match event {
        CrawlEvent::Page(url, depth) => if is_admitted(s, c, url, depth) {
            Crawl {
                pages: pages_after(c.pages, s.max_depth, url, depth),
                fetched: c.fetched.push((url, depth)),
                ..c
            }
        } else {
            Crawl {
                pages: pages_after(c.pages, s.max_depth, url, depth),
                yields: c.yields.push((seq![], depth)),
                ..c
            }
        },
        CrawlEvent::Taken(url, depth) => Crawl {
            found: finds_after(s, c.found, url),
            yields: c.yields.push((links_from(s, url), depth)),
            ..c
        },
    }
}

/// A crawl after the events.
pub open spec fn crawl_after(s: Setting, c: Crawl, events: Seq<CrawlEvent>) -> Crawl
    decreases events.len(),
{
    if events.len() == 0 {
        c
    } else {
        crawl_step(s, crawl_after(s, c, events.drop_last()), events.last())
    }
}

/// The crawler stands where the crawl does: it is set alike, and it has visited the same pages and
/// found the same magnet links.
pub open spec fn stands_at(s: Setting, scraper: Scraper, c: Crawl) -> bool {
    &&& scraper.scope() == s.scope
    &&& scraper.max_links == s.max_links
    &&& scraper.max_depth == s.max_depth
    &&& scraper.pages() == c.pages
    &&& scraper.found() == c.found
}

/// A crawler that has seen nothing stands where a crawl starts.
pub proof fn law_a_new_crawler_stands_at_the_start(s: Setting, scraper: Scraper)
    requires
        scraper.scope() == s.scope,
        scraper.max_links == s.max_links,
        scraper.max_depth == s.max_depth,
        scraper.pages() == Set::<Seq<char>>::empty(),
        scraper.found() == Set::<Seq<char>>::empty(),
    ensures
        stands_at(s, scraper, crawl_start()),
{
}

/// Admitting a page is a step of the crawl: the page is fetched exactly where the crawl admits it,
/// and where it is not it gives no links.
pub proof fn law_admitting_a_page_is_a_step(
    s: Setting,
    c: Crawl,
    a: Scraper,
    b: Scraper,
    url: Seq<char>,
    depth: nat,
    fetch: bool,
)
    requires
        stands_at(s, a, c),
        page_admitted(a, b, url, depth, fetch),
    ensures
        stands_at(s, b, crawl_step(s, c, CrawlEvent::Page(url, depth))),
        fetch == is_admitted(s, c, url, depth),
        crawl_step(s, c, CrawlEvent::Page(url, depth)).fetched == (if fetch {
            c.fetched.push((url, depth))
        } else {
            c.fetched
        }),
        crawl_step(s, c, CrawlEvent::Page(url, depth)).yields == (if fetch {
            c.yields
        } else {
            c.yields.push((seq![], depth))
        }),
{
}

/// Taking a page is a step of the crawl: what the address answers is found as the crawl finds it, and
/// the links that the page gives are those that the crawl goes on with.
pub proof fn law_taking_a_page_is_a_step(
    s: Setting,
    c: Crawl,
    a: Scraper,
    b: Scraper,
    url: Seq<char>,
    depth: nat,
    links: Seq<Seq<char>>,
    magnets: Seq<Seq<char>>,
)
    requires
        stands_at(s, a, c),
        page_taken(a, b, url, (s.site)(url), links, magnets),
    ensures
        stands_at(s, b, crawl_step(s, c, CrawlEvent::Taken(url, depth))),
        crawl_step(s, c, CrawlEvent::Taken(url, depth)).fetched == c.fetched,
        crawl_step(s, c, CrawlEvent::Taken(url, depth)).yields == c.yields.push((links, depth)),
{
    assert(links =~= links_from(s, url));
}

/// The crawler has gone from `a` to `b` as the event says.
pub open spec fn has_stepped(s: Setting, a: Scraper, b: Scraper, event: CrawlEvent) -> bool {
    match event {
        CrawlEvent::Page(url, depth) => exists|fetch: bool| #[trigger]
            page_admitted(a, b, url, depth, fetch),
        CrawlEvent::Taken(url, _) => exists|links: Seq<Seq<char>>, magnets: Seq<Seq<char>>|
            #[trigger] page_taken(a, b, url, (s.site)(url), links, magnets),
    }
}

/// A crawler that goes through the events, one after another, stands where the crawl does in the
/// end.
pub proof fn law_a_crawler_follows_its_crawl(
    s: Setting,
    c: Crawl,
    crawlers: Seq<Scraper>,
    events: Seq<CrawlEvent>,
)
    requires
        crawlers.len() == events.len() + 1,
        stands_at(s, crawlers[0], c),
        forall|i: int|
            0 <= i < events.len() ==> has_stepped(
                s,
                crawlers[i],
                crawlers[i + 1],
                #[trigger] events[i],
            ),
    ensures
        stands_at(s, crawlers.last(), crawl_after(s, c, events)),
    decreases events.len(),
{
    if events.len() > 0 {
        let n = events.len() - 1;
        let rest = events.drop_last();
        let before = crawlers.drop_last();
        assert forall|i: int| 0 <= i < rest.len() implies has_stepped(
            s,
            before[i],
            before[i + 1],
            #[trigger] rest[i],
        ) by {
            assert(rest[i] == events[i]);
        }
        law_a_crawler_follows_its_crawl(s, c, before, rest);
        let a = crawlers[n];
        let b = crawlers[n + 1];
        let mid = crawl_after(s, c, rest);
        assert(before.last() == a);
        assert(has_stepped(s, a, b, events[n]));
        match events[n] {
            CrawlEvent::Page(url, depth) => {
                let fetch = choose|fetch: bool| #[trigger] page_admitted(a, b, url, depth, fetch);
                law_admitting_a_page_is_a_step(s, mid, a, b, url, depth, fetch);
            },
            CrawlEvent::Taken(url, depth) => {
                let (links, magnets) = choose|links: Seq<Seq<char>>, magnets: Seq<Seq<char>>|
                    #[trigger] page_taken(a, b, url, (s.site)(url), links, magnets);
                law_taking_a_page_is_a_step(s, mid, a, b, url, depth, links, magnets);
            },
        }
    }
}

/// The addresses of pages.
pub open spec fn urls(pages: Seq<(Seq<char>, nat)>) -> Seq<Seq<char>> {
    pages.map_values(|p: (Seq<char>, nat)| p.0)
}

/// However a crawl goes, it fetches no page twice, and none that is deeper than the limit.
pub proof fn law_pages_are_fetched_once_and_within_depth(s: Setting, events: Seq<CrawlEvent>)
    ensures
        urls(crawl_after(s, crawl_start(), events).fetched).no_duplicates(),
        forall|i: int|
            0 <= i < crawl_after(s, crawl_start(), events).fetched.len() ==> (
            #[trigger] crawl_after(s, crawl_start(), events).fetched[i]).1 <= s.max_depth,
        urls(crawl_after(s, crawl_start(), events).fetched).to_set().subset_of(
            crawl_after(s, crawl_start(), events).pages,
        ),
    decreases events.len(),
{
    if events.len() > 0 {
        let before = crawl_after(s, crawl_start(), events.drop_last());
        let after = crawl_after(s, crawl_start(), events);
        law_pages_are_fetched_once_and_within_depth(s, events.drop_last());
        let old_urls = urls(before.fetched);
        match events.last() {
            CrawlEvent::Page(url, depth) => {
                if is_admitted(s, before, url, depth) {
                    assert(urls(after.fetched) =~= old_urls.push(url));
                    assert forall|i: int| 0 <= i < old_urls.len() implies #[trigger] old_urls[i] != url by {
                        assert(old_urls.to_set().contains(old_urls[i]));
                    }
                    assert forall|u: Seq<char>| urls(after.fetched).to_set().contains(
                        u,
                    ) implies after.pages.contains(u) by {
                        let k = choose|k: int|
                            0 <= k < urls(after.fetched).len() && urls(after.fetched)[k] == u;
                        if k < old_urls.len() {
                            assert(old_urls[k] == u);
                            assert(old_urls.to_set().contains(u));
                        }
                    }
                    assert forall|i: int| 0 <= i < after.fetched.len() implies (
                    #[trigger] after.fetched[i]).1 <= s.max_depth by {
                        if i < before.fetched.len() {
                            assert(after.fetched[i] == before.fetched[i]);
                        }
                    }
                }
            },
            CrawlEvent::Taken(_, _) => {},
        }
    } else {
        assert(urls(crawl_start().fetched) =~= Seq::<Seq<char>>::empty());
        assert(urls(crawl_start().fetched).to_set() =~= Set::<Seq<char>>::empty());
    }
}

pub proof fn lemma_finds_after(s: Setting, found: Set<Seq<char>>, url: Seq<char>)
    requires
        found.finite(),
    ensures
        finds_after(s, found, url).finite(),
        found.subset_of(finds_after(s, found, url)),
        found.len() <= s.max_links ==> finds_after(s, found, url).len() <= s.max_links,
{
    if let Some(page) = (s.site)(url) {
        let first = found_after(found, s.max_links, magnets_in(page.html));
        lemma_found_after(found, s.max_links, magnets_in(page.html));
        lemma_found_after(first, s.max_links, magnets_of(page.records));
    }
}

/// Finds are kept, and stay finite in number and within the limit.
pub proof fn lemma_finds_grow(s: Setting, c: Crawl, events: Seq<CrawlEvent>)
    requires
        c.found.finite(),
    ensures
        crawl_after(s, c, events).found.finite(),
        c.found.subset_of(crawl_after(s, c, events).found),
        c.found.len() <= s.max_links ==> crawl_after(s, c, events).found.len() <= s.max_links,
    decreases events.len(),
{
    if events.len() > 0 {
        let before = crawl_after(s, c, events.drop_last());
        lemma_finds_grow(s, c, events.drop_last());
        if let CrawlEvent::Taken(url, _) = events.last() {
            lemma_finds_after(s, before.found, url);
        }
    }
}

/// However a crawl goes, it collects no more magnet links than were asked for.
pub proof fn law_no_more_is_collected_than_asked_for(s: Setting, events: Seq<CrawlEvent>)
    ensures
        crawl_after(s, crawl_start(), events).found.finite(),
        crawl_after(s, crawl_start(), events).found.len() <= s.max_links,
{
    lemma_finds_grow(s, crawl_start(), events);
}

/// A page that has come up within the depth limit is not fetched when it comes up again, at
/// whatever depth.
pub proof fn law_visited_pages_are_not_fetched(
    pages: Set<Seq<char>>,
    found: nat,
    max_links: nat,
    max_depth: nat,
    url: Seq<char>,
    depth: nat,
    again: nat,
)
    requires
        depth <= max_depth,
    ensures
        !is_fetched(
            pages_after(pages, max_depth, url, depth),
            found,
            max_links,
            max_depth,
            url,
            again,
        ),
{
}

/// Once enough magnet links are found, no page is fetched any more.
pub proof fn law_enough_finds_end_the_crawl(
    pages: Set<Seq<char>>,
    found: nat,
    max_links: nat,
    max_depth: nat,
    url: Seq<char>,
    depth: nat,
)
    requires
        found >= max_links,
    ensures
        !is_fetched(pages, found, max_links, max_depth, url, depth),
{
}

/// With a depth limit of zero only pages at depth zero are fetched, and the first page of a crawl
/// is, if any magnet link is wanted.
pub proof fn law_depth_zero_is_the_first_page_alone(
    pages: Set<Seq<char>>,
    found: nat,
    max_links: nat,
    url: Seq<char>,
    depth: nat,
)
    ensures
        is_fetched(pages, found, max_links, 0, url, depth) ==> depth == 0,
        max_links > 0 ==> is_fetched(Set::empty(), 0, max_links, 0, url, 0),
{
}

/// The first page of a crawl is not fetched again when a link leads back to it: the crawl begins
/// with the address in the form in which links come.
pub proof fn law_the_first_page_is_not_fetched_again(
    domain: Seq<char>,
    host: Option<Seq<char>>,
    link: Seq<char>,
    found: nat,
    max_links: nat,
    max_depth: nat,
    depth: nat,
)
    requires
        resolution(typed_address(domain), ""@) == Some((host, link)),
    ensures
        start_address(domain) == link,
        !is_fetched(
            pages_after(Set::empty(), max_depth, start_address(domain), 0),
            found,
            max_links,
            max_depth,
            link,
            depth,
        ),
{
}

/// Every link that is followed is the text of a URL whose host is the scope, or a subdomain of it.
pub proof fn law_followed_links_are_in_the_domain(
    scope: Option<Seq<char>>,
    base: Seq<char>,
    hrefs: Seq<Option<Seq<char>>>,
    k: int,
)
    requires
        0 <= k < targets(scope, base, hrefs).len(),
    ensures
        scope is Some,
        exists|href: Seq<char>|
            hrefs.contains(Some(href)) && match #[trigger] resolution(base, href) {
                Some((Some(host), text)) => is_within(host, scope->0) && text == targets(
                    scope,
                    base,
                    hrefs,
                )[k],
                _ => false,
            },
{
    let f = |h: Option<Seq<char>>| anchor_target(scope, base, h);
    let link = targets(scope, base, hrefs)[k];
    assert(hrefs.filter_map(f).contains(link));
    hrefs.lemma_filter_map_contains(f, link);
    let h = choose|h: Option<Seq<char>>| hrefs.contains(h) && f(h) == Some(link);
    assert(hrefs.contains(h) && f(h) == Some(link));
    let href = h->0;
    assert(h == Some(href));
    assert(in_domain(scope, resolution(base, href)) == Some(link));
}

/// What a function keeps of an item is among what it keeps of the whole sequence.
proof fn lemma_kept<A, B>(s: Seq<A>, f: spec_fn(A) -> Option<B>, i: int)
    requires
        0 <= i < s.len(),
        f(s[i]) is Some,
    ensures
        s.filter_map(f).contains(f(s[i])->0),
    decreases s.len(),
{
    let n = s.len() - 1;
    s.lemma_filter_map_take_succ(f, n);
    assert(s.take(n + 1) == s);
    let before = s.take(n).filter_map(f);
    let after = s.filter_map(f);
    if i < n {
        lemma_kept(s.take(n), f, i);
        let k = choose|k: int| 0 <= k < before.len() && before[k] == f(s[i])->0;
        assert(after[k] == before[k]);
    } else {
        assert(after[before.len() as int] == f(s[i])->0);
    }
}

/// Every link into the domain, or into a subdomain of it, is followed.
pub proof fn law_links_within_the_domain_are_followed(
    domain: Seq<char>,
    base: Seq<char>,
    hrefs: Seq<Option<Seq<char>>>,
    href: Seq<char>,
    host: Seq<char>,
    text: Seq<char>,
)
    requires
        hrefs.contains(Some(href)),
        resolution(base, href) == Some((Some(host), text)),
        is_within(host, domain),
    ensures
        targets(Some(domain), base, hrefs).contains(text),
{
    let f = |h: Option<Seq<char>>| anchor_target(Some(domain), base, h);
    let i = choose|i: int| 0 <= i < hrefs.len() && hrefs[i] == Some(href);
    assert(f(hrefs[i]) == Some(text));
    lemma_kept(hrefs, f, i);
}

/// A host whose name merely ends in the same letters is not within the domain.
pub proof fn law_a_longer_name_is_not_within_the_domain(host: Seq<char>, domain: Seq<char>, c: char)
    requires
        host == seq![c] + domain,
        c != '.',
    ensures
        !is_within(host, domain),
{
    reveal_strlit(".");
    assert(host.len() == domain.len() + 1);
    if ("."@ + domain).is_suffix_of(host) {
        assert(("."@ + domain)[0] == '.');
        assert(host[0] == c);
        assert(host.subrange(0, host.len() as int) == host);
    }
}

proof fn lemma_one_deeper(yields: Seq<(Seq<Seq<char>>, nat)>, depth: nat)
    requires
        forall|i: int| 0 <= i < yields.len() ==> (#[trigger] yields[i]).1 == depth,
    ensures
        forall|i: int|
            0 <= i < one_deeper(yields).len() ==> (#[trigger] one_deeper(yields)[i]).1 == depth + 1,
    decreases yields.len(),
{
    if yields.len() > 0 {
        let rest = yields.drop_last();
        assert forall|i: int| 0 <= i < rest.len() implies (#[trigger] rest[i]).1 == depth by {
            assert(rest[i] == yields[i]);
        }
        lemma_one_deeper(rest, depth);
        assert(yields[yields.len() - 1].1 == depth);
        let (links, d) = yields.last();
        let before = one_deeper(rest);
        let here = links.map_values(|link: Seq<char>| (link, d + 1));
        assert forall|i: int| 0 <= i < one_deeper(yields).len() implies (
        #[trigger] one_deeper(yields)[i]).1 == depth + 1 by {
            if i < before.len() {
                assert(one_deeper(yields)[i] == before[i]);
            } else {
                assert(one_deeper(yields)[i] == here[i - before.len()]);
            }
        }
    }
}

/// The crawl goes level by level: what pages of one depth give is all one level deeper.
pub proof fn law_crawl_goes_level_by_level(yields: Seq<(Seq<Seq<char>>, nat)>, depth: nat, i: int)
    requires
        forall|k: int| 0 <= k < yields.len() ==> (#[trigger] yields[k]).1 == depth,
        0 <= i < one_deeper(yields).len(),
    ensures
        one_deeper(yields)[i].1 == depth + 1,
{
    lemma_one_deeper(yields, depth);
}

/// The links that come out as new are those that were not there yet, each once.
pub proof fn law_new_links_are_new_and_unique(found: Set<Seq<char>>, magnets: Seq<Seq<char>>)
    ensures
        fresh(found, magnets).no_duplicates(),
        forall|m: Seq<char>|
            fresh(found, magnets).contains(m) <==> magnets.contains(m) && !found.contains(m),
{
    lemma_fresh(found, magnets);
}

/// Where fewer than the limit are found in the end, nothing was left out.
pub proof fn lemma_nothing_left_out(found: Set<Seq<char>>, max_links: nat, magnets: Seq<Seq<char>>)
    requires
        found.finite(),
        found_after(found, max_links, magnets).len() < max_links,
    ensures
        kept(found, max_links, magnets) == fresh(found, magnets),
        found_after(found, max_links, magnets) == found.union(magnets.to_set()),
{
    lemma_found_after(found, max_links, magnets);
    lemma_fresh(found, magnets);
    let new = fresh(found, magnets);
    assert(kept(found, max_links, magnets).len() < room(found.len(), max_links));
    assert forall|m: Seq<char>| found.union(new.to_set()).contains(m) == found.union(
        magnets.to_set(),
    ).contains(m) by {
        assert(new.to_set().contains(m) == new.contains(m));
        assert(magnets.to_set().contains(m) == magnets.contains(m));
    }
    assert(found.union(new.to_set()) =~= found.union(magnets.to_set()));
}

/// The same page a second time brings nothing new.
pub proof fn law_same_page_brings_nothing_new(
    found: Set<Seq<char>>,
    max_links: nat,
    magnets: Seq<Seq<char>>,
)
    requires
        found.finite(),
    ensures
        kept(found_after(found, max_links, magnets), max_links, magnets).len() == 0,
        found_after(found_after(found, max_links, magnets), max_links, magnets) == found_after(
            found,
            max_links,
            magnets,
        ),
{
    let all = found_after(found, max_links, magnets);
    lemma_found_after(found, max_links, magnets);
    let new = kept(all, max_links, magnets);
    if all.len() < max_links {
        lemma_nothing_left_out(found, max_links, magnets);
        lemma_fresh(all, magnets);
        if fresh(all, magnets).len() > 0 {
            let m = fresh(all, magnets)[0];
            assert(fresh(all, magnets).contains(m));
            assert(magnets.to_set().contains(m));
        }
    }
    assert(new.len() == 0);
    assert(new.to_set() =~= Set::<Seq<char>>::empty());
    assert(all.union(new.to_set()) =~= all);
}

/// Whatever pages' sources add has the form of a magnet link.
pub proof fn law_finds_have_the_form_of_magnet_links(
    found: Set<Seq<char>>,
    max_links: nat,
    html: Seq<char>,
)
    requires
        forall|m: Seq<char>| found.contains(m) ==> is_magnet_link(m),
    ensures
        forall|m: Seq<char>|
            found_after(found, max_links, magnets_in(html)).contains(m) ==> is_magnet_link(m),
{
    let new = kept(found, max_links, magnets_in(html));
    lemma_fresh(found, magnets_in(html));
    assert forall|m: Seq<char>| found_after(found, max_links, magnets_in(html)).contains(
        m,
    ) implies is_magnet_link(m) by {
        if !found.contains(m) {
            let i = choose|i: int| 0 <= i < new.len() && new[i] == m;
            assert(fresh(found, magnets_in(html))[i] == m);
            assert(fresh(found, magnets_in(html)).contains(m));
            let k = choose|k: int| 0 <= k < magnets_in(html).len() && magnets_in(html)[k] == m;
            law_found_magnets_are_magnet_links(html, k);
        }
    }
}

/// The magnet link for an info hash has the form of a magnet link, where the hash holds no white
/// space, bracket or quote.
pub proof fn law_hashes_make_magnet_links(info_hash: Seq<char>)
    requires
        forall|i: int| 0 <= i < info_hash.len() ==> is_magnet_char(#[trigger] info_hash[i]),
    ensures
        is_magnet_link(magnet_for(info_hash)),
{
    reveal_strlit("magnet:?xt=urn:btih:");
    let m = magnet_for(info_hash);
    assert(m.take(8) =~= magnet_prefix());
    assert forall|j: int| 8 <= j < m.len() implies is_magnet_char(#[trigger] m[j]) by {
        if j >= 20 {
            assert(m[j] == info_hash[j - 20]);
        }
    }
}

/// Taking in records keeps the details that are known, in their place, and adds details for the
/// magnet links that are added, in the same order.
pub proof fn law_details_are_kept(
    found: Set<Seq<char>>,
    known: Seq<EntryView>,
    max_links: nat,
    records: Seq<EntryView>,
)
    ensures
        known.is_prefix_of(known_after(found, known, max_links, records)),
        magnets_of(known_after(found, known, max_links, records)) == magnets_of(known) + kept(
            found,
            max_links,
            magnets_of(records),
        ),
{
    let after = known_after(found, known, max_links, records);
    lemma_fresh_entries(found, records);
    let new = fresh_entries(found, records);
    assert(magnets_of(new).len() == new.len());
    assert(after.take(known.len() as int) =~= known);
    assert(magnets_of(after) =~= magnets_of(known) + kept(found, max_links, magnets_of(records)));
}

/// What a crawl hands on can be downloaded: read as a list of detailed torrents, it gives its
/// magnet links back, in order.
pub proof fn law_finds_can_be_downloaded(entries: Seq<TorrentEntry>)
    ensures
        links_of(
            entries.map_values(
                |e: TorrentEntry|
                    TorrentItem::Detailed(DetailedTorrent { magnet: e.magnet, name: e.name }),
            ),
        ) == magnets_of(entry_views(entries)),
{
    let items = entries.map_values(
        |e: TorrentEntry|
            TorrentItem::Detailed(DetailedTorrent { magnet: e.magnet, name: e.name }),
    );
    assert(links_of(items) =~= magnets_of(entry_views(entries)));
}

} // verus!
