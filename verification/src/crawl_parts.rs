//! What each part of the crawler does, by itself.

use crate::crawl::{
    anchor_target, anchors_in, are_results, batch_taken, entry_views, first_waiting, found_after,
    fresh, fresh_entries, in_domain, is_absorbable, is_at_end, is_entry_for, is_fetched, is_new,
    is_parsable, is_within, kept, known_after, lemma_found_after, lemma_fresh, lemma_fresh_entries,
    magnet_for, magnets_of, one_deeper, optional_parts, page_admitted, page_taken, page_view,
    page_views, pages_after, record_views, room, scope_of, start_address, status_report, targets,
    typed_address, waiting_after, yield_views, ApiRecord, CrawlQueue, EntryView, PageView,
    ResolvedUrl, Scraper, TorrentEntry,
};
use crate::magnet::magnets_in;
use crate::text::texts;
use crate::trusted::{resolution, selected_attributes, set_contents};
use vstd::prelude::*;
use vstd::utf8::encode_utf8;

verus! {

/// A domain that begins with the scheme of a web address is an address itself, and any other one
/// stands for its secure site.
pub proof fn law_a_scheme_is_added_where_there_is_none(domain: Seq<char>, rest: Seq<char>)
    ensures
        typed_address("http://"@ + rest) == "http://"@ + rest,
        typed_address("https://"@ + rest) == "https://"@ + rest,
        (forall|r: Seq<char>|
            domain != #[trigger] ("http://"@ + r) && domain != "https://"@ + r) ==> typed_address(domain)
            == "https://"@ + domain,
{
    reveal_strlit("http://");
    reveal_strlit("https://");
    let plain = "http://"@ + rest;
    let secure = "https://"@ + rest;
    assert(plain.take(7) =~= "http://"@);
    assert(secure.take(8) =~= "https://"@);
    if forall|r: Seq<char>| domain != #[trigger] ("http://"@ + r) && domain != "https://"@ + r {
        if "http://"@.is_prefix_of(domain) {
            assert(domain =~= "http://"@ + domain.skip(7));
        }
        if "https://"@.is_prefix_of(domain) {
            assert(domain =~= "https://"@ + domain.skip(8));
            let r = domain.skip(8);
            assert(domain != "http://"@ + r);
        }
    }
}

/// A crawl begins with the address that the domain's resolves to, and its scope is that address's
/// host; where it resolves to nothing, with the address as it was typed, and with no scope.
pub proof fn law_a_crawl_starts_where_the_domain_leads(
    domain: Seq<char>,
    host: Option<Seq<char>>,
    text: Seq<char>,
)
    ensures
        resolution(typed_address(domain), Seq::empty()) == Some((host, text)) ==> start_address(
            domain,
        ) == text && scope_of(domain) == host,
        resolution(typed_address(domain), Seq::empty()) is None ==> start_address(domain)
            == typed_address(domain) && scope_of(domain) is None,
{
    reveal_strlit("");
    assert(""@ =~= Seq::<char>::empty());
}

/// The domain is within itself, and so is every host that is the domain with a label and a dot before
/// it, whatever the label; no other host is.
pub proof fn law_subdomains_are_within_the_domain(
    label: Seq<char>,
    domain: Seq<char>,
    host: Seq<char>,
)
    ensures
        is_within(domain, domain),
        is_within(label + seq!['.'] + domain, domain),
        is_within(host, domain) ==> host == domain || exists|l: Seq<char>|
            host == #[trigger] (l + "."@ + domain),
{
    reveal_strlit(".");
    let dotted = "."@ + domain;
    let sub = label + seq!['.'] + domain;
    assert(sub.subrange(label.len() as int, sub.len() as int) =~= dotted);
    if is_within(host, domain) && host != domain {
        let l = host.take(host.len() - dotted.len());
        let tail = host.subrange(host.len() - dotted.len(), host.len() as int);
        assert(tail == dotted);
        assert(host =~= l + tail);
        assert(host =~= l + "."@ + domain);
    }
}

/// A link that resolves to the domain, or to a subdomain of it, whatever its label, is kept, as it
/// resolves; one that resolves to anything else, or to nothing, is not.
pub proof fn law_links_into_the_domain_are_kept(
    label: Seq<char>,
    domain: Seq<char>,
    host: Seq<char>,
    text: Seq<char>,
    url: Option<(Option<Seq<char>>, Seq<char>)>,
)
    ensures
        in_domain(Some(domain), Some((Some(domain), text))) == Some(text),
        in_domain(Some(domain), Some((Some(label + seq!['.'] + domain), text))) == Some(text),
        host != domain && (forall|l: Seq<char>| host != #[trigger] (l + "."@ + domain)) ==> in_domain(
            Some(domain),
            Some((Some(host), text)),
        ) is None,
        in_domain(Some(domain), Some((None, text))) is None,
        in_domain(Some(domain), None) is None,
        in_domain(None, url) is None,
{
    law_subdomains_are_within_the_domain(label, domain, host);
}

/// The links of a page are taken one by one, in the order of its anchors: an anchor adds where it
/// leads, if that is in the scope, and nothing otherwise.
pub proof fn law_links_are_taken_anchor_by_anchor(
    scope: Option<Seq<char>>,
    base: Seq<char>,
    hrefs: Seq<Option<Seq<char>>>,
    href: Seq<char>,
)
    ensures
        targets(scope, base, seq![]) == Seq::<Seq<char>>::empty(),
        targets(scope, base, hrefs.push(None)) == targets(scope, base, hrefs),
        targets(scope, base, hrefs.push(Some(href))) == (match in_domain(
            scope,
            resolution(base, href),
        ) {
            Some(link) => targets(scope, base, hrefs).push(link),
            None => targets(scope, base, hrefs),
        }),
{
    let f = |h: Option<Seq<char>>| anchor_target(scope, base, h);
    let n = hrefs.len() as int;
    let a = hrefs.push(None);
    let b = hrefs.push(Some(href));
    a.lemma_filter_map_take_succ(f, n);
    b.lemma_filter_map_take_succ(f, n);
    assert(a.take(n) =~= hrefs);
    assert(b.take(n) =~= hrefs);
    assert(a.take(n + 1) =~= a);
    assert(b.take(n + 1) =~= b);
    assert(f(a[n]) is None);
    assert(f(b[n]) == in_domain(scope, resolution(base, href)));
    assert(Seq::<Option<Seq<char>>>::empty().filter_map(f) =~= Seq::<Seq<char>>::empty());
    assert(targets(scope, base, a) =~= targets(scope, base, hrefs));
}

/// A link to a subdomain, whatever its label, is among those that a page gives.
pub proof fn law_links_to_subdomains_are_followed(
    label: Seq<char>,
    domain: Seq<char>,
    base: Seq<char>,
    hrefs: Seq<Option<Seq<char>>>,
    href: Seq<char>,
    text: Seq<char>,
)
    requires
        hrefs.contains(Some(href)),
        resolution(base, href) == Some((Some(label + seq!['.'] + domain), text)) || resolution(
            base,
            href,
        ) == Some((Some(domain), text)),
    ensures
        targets(Some(domain), base, hrefs).contains(text),
    decreases hrefs.len(),
{
    let rest = hrefs.drop_last();
    let last = hrefs.last();
    assert(hrefs =~= rest.push(last));
    law_links_into_the_domain_are_kept(label, domain, domain, text, None);
    match last {
        Some(h) => law_links_are_taken_anchor_by_anchor(Some(domain), base, rest, h),
        None => law_links_are_taken_anchor_by_anchor(Some(domain), base, rest, href),
    }
    let before = targets(Some(domain), base, rest);
    let all = targets(Some(domain), base, hrefs);
    if last == Some(href) {
        assert(all == before.push(text));
        assert(all[before.len() as int] == text);
    } else {
        let k = choose|k: int| 0 <= k < hrefs.len() && hrefs[k] == Some(href);
        assert(rest[k] == Some(href));
        law_links_to_subdomains_are_followed(label, domain, base, rest, href, text);
        let j = choose|j: int| 0 <= j < before.len() && before[j] == text;
        assert(all[j] == text);
    }
}

/// The anchors of a page are its `a` elements with an `href`, and what counts of each is that
/// `href`.
pub proof fn law_anchors_are_looked_up_by_href(html: Seq<char>)
    ensures
        anchors_in(html) == selected_attributes(html, "a[href]"@, "href"@),
{
}

/// A page is fetched exactly where it is no deeper than the limit, has not been visited, and fewer
/// magnet links have been found than were asked for; and it counts as visited from then on exactly
/// where it is no deeper than the limit.
pub proof fn law_pages_are_fetched_unless_deep_visited_or_unwanted(
    pages: Set<Seq<char>>,
    found: nat,
    max_links: nat,
    max_depth: nat,
    url: Seq<char>,
    depth: nat,
    other: Seq<char>,
)
    ensures
        depth <= max_depth && !pages.contains(url) && found < max_links ==> is_fetched(
            pages,
            found,
            max_links,
            max_depth,
            url,
            depth,
        ),
        depth > max_depth || pages.contains(url) || found >= max_links ==> !is_fetched(
            pages,
            found,
            max_links,
            max_depth,
            url,
            depth,
        ),
        depth <= max_depth ==> pages_after(pages, max_depth, url, depth).contains(url),
        depth > max_depth ==> pages_after(pages, max_depth, url, depth) == pages,
        other != url ==> pages_after(pages, max_depth, url, depth).contains(other) == pages.contains(
            other,
        ),
{
}

/// New magnet links are listed one by one, in order: one adds itself unless it was found before or
/// stands earlier among them.
pub proof fn law_new_links_are_listed_in_order(
    found: Set<Seq<char>>,
    magnets: Seq<Seq<char>>,
    magnet: Seq<char>,
)
    ensures
        fresh(found, seq![]) == Seq::<Seq<char>>::empty(),
        found.contains(magnet) || magnets.contains(magnet) ==> fresh(found, magnets.push(magnet))
            == fresh(found, magnets),
        !found.contains(magnet) && !magnets.contains(magnet) ==> fresh(found, magnets.push(magnet))
            == fresh(found, magnets).push(magnet),
{
    assert(magnets.push(magnet).drop_last() =~= magnets);
    assert(magnets.push(magnet).last() == magnet);
}

/// Of the new magnet links the first are kept, and as many as are wanted: all, where that stays within
/// the limit, and otherwise up to the limit. What is found afterwards is what was found and what is
/// kept.
pub proof fn law_the_first_new_links_are_kept(
    found: Set<Seq<char>>,
    max_links: nat,
    magnets: Seq<Seq<char>>,
    magnet: Seq<char>,
)
    ensures
        kept(found, max_links, magnets).is_prefix_of(fresh(found, magnets)),
        found.len() + fresh(found, magnets).len() <= max_links ==> kept(found, max_links, magnets)
            == fresh(found, magnets),
        found.len() <= max_links < found.len() + fresh(found, magnets).len() ==> found.len() + kept(
            found,
            max_links,
            magnets,
        ).len() == max_links,
        found.len() > max_links ==> kept(found, max_links, magnets).len() == 0,
        found_after(found, max_links, magnets).contains(magnet) <==> found.contains(magnet) || kept(
            found,
            max_links,
            magnets,
        ).contains(magnet),
{
    let all = fresh(found, magnets);
    let part = kept(found, max_links, magnets);
    assert(part =~= all.take(part.len() as int));
    assert(part.to_set().contains(magnet) == part.contains(magnet));
}

/// Details of new magnet links are listed one by one, in order: an entry adds itself unless its magnet
/// link was found before or stands in an earlier one.
pub proof fn law_new_details_are_listed_in_order(
    found: Set<Seq<char>>,
    entries: Seq<EntryView>,
    entry: EntryView,
)
    ensures
        fresh_entries(found, seq![]) == Seq::<EntryView>::empty(),
        ({
            let seen = found.contains(entry.magnet) || exists|i: int|
                0 <= i < entries.len() && (#[trigger] entries[i]).magnet == entry.magnet;
            &&& seen ==> fresh_entries(found, entries.push(entry)) == fresh_entries(found, entries)
            &&& !seen ==> fresh_entries(found, entries.push(entry)) == fresh_entries(
                found,
                entries,
            ).push(entry)
        }),
{
    let more = entries.push(entry);
    assert(more.drop_last() =~= entries);
    assert(more.last() == entry);
    let m = magnets_of(entries);
    if m.contains(entry.magnet) {
        let i = choose|i: int| 0 <= i < m.len() && m[i] == entry.magnet;
        assert(entries[i].magnet == entry.magnet);
    }
    if exists|i: int| 0 <= i < entries.len() && (#[trigger] entries[i]).magnet == entry.magnet {
        let i = choose|i: int| 0 <= i < entries.len() && (#[trigger] entries[i]).magnet == entry.magnet;
        assert(m[i] == entry.magnet);
    }
}

/// The details that are kept are those of the magnet links that are kept, added behind the ones that
/// are known.
pub proof fn law_details_go_with_their_links(
    found: Set<Seq<char>>,
    known: Seq<EntryView>,
    max_links: nat,
    entries: Seq<EntryView>,
)
    ensures
        known_after(found, known, max_links, entries).len() == known.len() + kept(
            found,
            max_links,
            magnets_of(entries),
        ).len(),
        known_after(found, known, max_links, entries).take(known.len() as int) == known,
        known_after(found, known, max_links, entries).skip(known.len() as int).is_prefix_of(
            fresh_entries(found, entries),
        ),
{
    let after = known_after(found, known, max_links, entries);
    let new = fresh_entries(found, entries);
    lemma_fresh_entries(found, entries);
    assert(magnets_of(new).len() == new.len());
    assert(after.take(known.len() as int) =~= known);
    let part = after.skip(known.len() as int);
    assert(part =~= new.take(part.len() as int));
}

/// The links that a page gives wait behind those of the pages before it, in their order, each one
/// level deeper than the page.
pub proof fn law_links_wait_one_level_deeper(
    yields: Seq<(Seq<Seq<char>>, nat)>,
    links: Seq<Seq<char>>,
    depth: nat,
    i: int,
)
    requires
        0 <= i < links.len(),
    ensures
        one_deeper(seq![]).len() == 0,
        one_deeper(yields.push((links, depth))).len() == one_deeper(yields).len() + links.len(),
        one_deeper(yields.push((links, depth))).take(one_deeper(yields).len() as int) == one_deeper(
            yields,
        ),
        one_deeper(yields.push((links, depth)))[one_deeper(yields).len() + i].0 == links[i],
        one_deeper(yields.push((links, depth)))[one_deeper(yields).len() + i].1 == depth + 1,
{
    let more = yields.push((links, depth));
    assert(more.drop_last() =~= yields);
    let before = one_deeper(yields);
    let here = links.map_values(|link: Seq<char>| (link, depth + 1));
    assert(one_deeper(more) == before + here);
    assert(one_deeper(more).take(before.len() as int) =~= before);
    assert(here[i] == (links[i], depth + 1));
}

/// A page that gives no links adds none to those that wait.
pub proof fn law_a_page_without_links_adds_none(yields: Seq<(Seq<Seq<char>>, nat)>, depth: nat)
    ensures
        one_deeper(yields.push((seq![], depth))) == one_deeper(yields),
{
    let more = yields.push((Seq::<Seq<char>>::empty(), depth));
    assert(more.drop_last() =~= yields);
    assert(one_deeper(more) =~= one_deeper(yields));
}

/// A crawl goes on exactly while pages wait and more magnet links are wanted; new pages wait behind the
/// others, and none is added once enough has been found.
pub proof fn law_a_crawl_goes_on_while_pages_wait(
    waiting: Seq<(Seq<char>, nat)>,
    yields: Seq<(Seq<Seq<char>>, nat)>,
    full: bool,
)
    ensures
        is_at_end(seq![], full),
        is_at_end(waiting, true),
        waiting.len() > 0 ==> !is_at_end(waiting, false),
        waiting_after(waiting, true, yields) == waiting,
        waiting_after(waiting, false, yields).take(waiting.len() as int) == waiting,
        waiting_after(waiting, false, yields).skip(waiting.len() as int) == one_deeper(yields),
{
    let after = waiting_after(waiting, false, yields);
    assert(after.take(waiting.len() as int) =~= waiting);
    assert(after.skip(waiting.len() as int) =~= one_deeper(yields));
}

/// A torrent that an API lists is taken in whole: under the magnet link with its info hash, and with
/// its name, its size and its numbers of seeders and leechers.
pub proof fn law_api_torrents_are_taken_in_whole(records: Seq<ApiRecord>, i: int)
    requires
        0 <= i < records.len(),
    ensures
        record_views(records).len() == records.len(),
        record_views(records)[i].magnet == "magnet:?xt=urn:btih:"@ + records[i].info_hash@,
        record_views(records)[i].magnet == magnet_for(records[i].info_hash@),
        record_views(records)[i].name is Some <==> records[i].name is Some,
        records[i].name is Some ==> record_views(records)[i].name->0 == records[i].name->0@,
        record_views(records)[i].size == records[i].size,
        record_views(records)[i].seeders == records[i].seeders,
        record_views(records)[i].leechers == records[i].leechers,
{
}

/// A torrent is handed on whole: with its magnet link and all that is known of it.
pub proof fn law_torrents_are_handed_on_whole(entries: Seq<TorrentEntry>, i: int)
    requires
        0 <= i < entries.len(),
    ensures
        entry_views(entries).len() == entries.len(),
        entry_views(entries)[i].magnet == entries[i].magnet@,
        entry_views(entries)[i].name is Some <==> entries[i].name is Some,
        entries[i].name is Some ==> entry_views(entries)[i].name->0 == entries[i].name->0@,
        entry_views(entries)[i].size == entries[i].size,
        entry_views(entries)[i].seeders == entries[i].seeders,
        entry_views(entries)[i].leechers == entries[i].leechers,
        magnets_of(entry_views(entries))[i] == entries[i].magnet@,
{
}

/// What is handed on for a magnet link is its details, where some are known, and the link alone where
/// none are.
pub proof fn law_known_details_are_handed_on(known: Seq<EntryView>, entry: EntryView)
    requires
        is_entry_for(known, entry),
    ensures
        (exists|i: int| 0 <= i < known.len() && (#[trigger] known[i]).magnet == entry.magnet) ==> exists|
            i: int,
        |
            0 <= i < known.len() && #[trigger] known[i] == entry,
        (forall|i: int| 0 <= i < known.len() ==> (#[trigger] known[i]).magnet != entry.magnet)
            ==> entry.name is None && entry.size is None && entry.seeders is None && entry.leechers is None,
{
    let m = magnets_of(known);
    if exists|i: int| 0 <= i < known.len() && (#[trigger] known[i]).magnet == entry.magnet {
        let i = choose|i: int| 0 <= i < known.len() && (#[trigger] known[i]).magnet == entry.magnet;
        assert(m[i] == entry.magnet);
    } else if m.contains(entry.magnet) {
        let i = choose|i: int| 0 <= i < m.len() && m[i] == entry.magnet;
        assert(known[i].magnet == entry.magnet);
    }
}

/// A page that comes up changes nothing but that it is visited, if it is not too deep. It is fetched
/// exactly where it is not too deep, was not visited and more magnet links are wanted.
pub proof fn law_a_page_comes_up(a: Scraper, b: Scraper, url: Seq<char>, depth: nat, fetch: bool)
    requires
        page_admitted(a, b, url, depth, fetch),
    ensures
        fetch <==> depth <= a.max_depth && !a.pages().contains(url) && a.found().len() < a.max_links,
        depth <= a.max_depth ==> b.pages() == a.pages().insert(url),
        depth > a.max_depth ==> b.pages() == a.pages(),
        b.found() == a.found(),
        b.known() == a.known(),
        b.scope() == a.scope() && b.domain == a.domain,
        b.max_links == a.max_links && b.max_depth == a.max_depth,
{
}

/// Taking a page in adds to the finds what is new on it, and nothing else: the new magnet links are on
/// the page, none was found before, none is there twice, and they are what the finds grow by. Those in
/// its source count before those that it lists. Nothing on the page is left out unless the limit is
/// reached. The pages visited and the limits stay. A page
/// that could not be fetched changes nothing and gives nothing.
pub proof fn law_a_page_is_taken_in(
    a: Scraper,
    b: Scraper,
    url: Seq<char>,
    page: PageView,
    links: Seq<Seq<char>>,
    magnets: Seq<Seq<char>>,
)
    requires
        page_taken(a, b, url, Some(page), links, magnets),
        a.found().finite(),
    ensures
        links == targets(a.scope(), url, anchors_in(page.html)),
        magnets == kept(
            a.found(),
            a.max_links as nat,
            magnets_in(page.html) + magnets_of(page.records),
        ),
        magnets.no_duplicates(),
        forall|m: Seq<char>| #[trigger]
            magnets.contains(m) ==> !a.found().contains(m) && (magnets_in(page.html).contains(m)
                || magnets_of(page.records).contains(m)),
        forall|m: Seq<char>| #[trigger]
            b.found().contains(m) <==> a.found().contains(m) || magnets.contains(m),
        b.found().finite() && b.found().len() == a.found().len() + magnets.len(),
        a.found().len() <= a.max_links ==> b.found().len() <= a.max_links,
        b.found().len() < a.max_links ==> forall|m: Seq<char>|
            magnets_in(page.html).contains(m) || magnets_of(page.records).contains(m)
                ==> #[trigger] b.found().contains(m),
        a.known().is_prefix_of(b.known()),
        forall|i: int|
            a.known().len() <= i < b.known().len() ==> page.records.contains(
                #[trigger] b.known()[i],
            ) && magnets.contains(b.known()[i].magnet),
        b.pages() == a.pages(),
        b.scope() == a.scope() && b.domain == a.domain,
        b.max_links == a.max_links && b.max_depth == a.max_depth,
{
    let max_links = a.max_links as nat;
    let html = magnets_in(page.html);
    let listed = magnets_of(page.records);
    let first = found_after(a.found(), max_links, html);
    let one = kept(a.found(), max_links, html);
    let two = kept(first, max_links, listed);
    lemma_found_after(a.found(), max_links, html);
    lemma_found_after(first, max_links, listed);
    lemma_kept_links(a.found(), max_links, html);
    lemma_kept_links(first, max_links, listed);
    assert(magnets == one + two);
    law_two_lists_are_taken_in_as_one(a.found(), max_links, html, listed);
    assert forall|m: Seq<char>| #[trigger] magnets.contains(m) <==> one.contains(m) || two.contains(
        m,
    ) by {
        if one.contains(m) {
            let k = choose|k: int| 0 <= k < one.len() && one[k] == m;
            assert(magnets[k] == m);
        }
        if two.contains(m) {
            let k = choose|k: int| 0 <= k < two.len() && two[k] == m;
            assert(magnets[one.len() + k] == m);
        }
        if magnets.contains(m) {
            let k = choose|k: int| 0 <= k < magnets.len() && magnets[k] == m;
            if k < one.len() {
                assert(one[k] == m);
            } else {
                assert(two[k - one.len()] == m);
            }
        }
    }
    assert forall|i: int, j: int|
        0 <= i < magnets.len() && 0 <= j < magnets.len() && i != j implies magnets[i] != magnets[j] by {
        if i < one.len() && j >= one.len() {
            assert(one.contains(one[i]) && two.contains(two[j - one.len()]));
            assert(first.contains(one[i]));
        } else if j < one.len() && i >= one.len() {
            assert(one.contains(one[j]) && two.contains(two[i - one.len()]));
            assert(first.contains(one[j]));
        } else if i < one.len() {
            assert(one[i] != one[j]);
        } else {
            assert(two[i - one.len()] != two[j - one.len()]);
        }
    }
    if b.found().len() < a.max_links {
        assert forall|m: Seq<char>|
            magnets_in(page.html).contains(m) || magnets_of(page.records).contains(m) implies #[trigger] b.found().contains(
            m,
        ) by {
            assert(one.len() < room(a.found().len(), max_links));
            assert(two.len() < room(first.len(), max_links));
            lemma_fresh(a.found(), html);
            lemma_fresh(first, listed);
        }
    }
    law_details_go_with_their_links(first, a.known(), max_links, page.records);
    lemma_fresh_entries(first, page.records);
    let new = fresh_entries(first, page.records);
    assert(a.known() =~= b.known().take(a.known().len() as int));
    assert forall|i: int| a.known().len() <= i < b.known().len() implies page.records.contains(
        #[trigger] b.known()[i],
    ) && magnets.contains(b.known()[i].magnet) by {
        let k = i - a.known().len();
        assert(b.known()[i] == new[k]);
        lemma_new_entry(first, page.records, k);
        assert(magnets_of(new)[k] == new[k].magnet);
        assert(two[k] == new[k].magnet);
        assert(two.contains(new[k].magnet));
    }
}

proof fn lemma_kept_links(found: Set<Seq<char>>, max_links: nat, magnets: Seq<Seq<char>>)
    ensures
        kept(found, max_links, magnets).no_duplicates(),
        forall|m: Seq<char>| #[trigger]
            kept(found, max_links, magnets).contains(m) ==> magnets.contains(m) && !found.contains(m),
        forall|m: Seq<char>| #[trigger]
            found_after(found, max_links, magnets).contains(m) <==> found.contains(m) || kept(
                found,
                max_links,
                magnets,
            ).contains(m),
{
    lemma_fresh(found, magnets);
    let all = fresh(found, magnets);
    let part = kept(found, max_links, magnets);
    assert forall|i: int| 0 <= i < part.len() implies part[i] == all[i] by {}
    assert forall|m: Seq<char>| #[trigger] part.contains(m) implies magnets.contains(m)
        && !found.contains(m) by {
        let k = choose|k: int| 0 <= k < part.len() && part[k] == m;
        assert(all[k] == m);
        assert(all.contains(m));
    }
    assert forall|m: Seq<char>| #[trigger] found_after(found, max_links, magnets).contains(m)
        <==> found.contains(m) || part.contains(m) by {
        assert(part.to_set().contains(m) == part.contains(m));
    }
}

proof fn lemma_new_entry(found: Set<Seq<char>>, entries: Seq<EntryView>, k: int)
    requires
        0 <= k < fresh_entries(found, entries).len(),
    ensures
        entries.contains(fresh_entries(found, entries)[k]),
    decreases entries.len(),
{
    let rest = entries.drop_last();
    let before = fresh_entries(found, rest);
    if k < before.len() {
        lemma_new_entry(found, rest, k);
        let i = choose|i: int| 0 <= i < rest.len() && rest[i] == before[k];
        assert(entries[i] == before[k]);
    } else {
        assert(entries[entries.len() - 1] == fresh_entries(found, entries)[k]);
    }
}

/// A page that could not be fetched changes nothing and gives nothing.
pub proof fn law_a_page_that_fails_changes_nothing(
    a: Scraper,
    b: Scraper,
    url: Seq<char>,
    links: Seq<Seq<char>>,
    magnets: Seq<Seq<char>>,
)
    requires
        page_taken(a, b, url, None, links, magnets),
    ensures
        links.len() == 0,
        magnets.len() == 0,
        b.found() == a.found(),
        b.known() == a.known(),
        b.pages() == a.pages(),
        b.scope() == a.scope() && b.domain == a.domain,
        b.max_links == a.max_links && b.max_depth == a.max_depth,
{
}

/// A page is used exactly where its status is one of the two hundreds, and otherwise the status and the
/// address are reported.
pub proof fn law_pages_are_used_on_success(code: u16, status: Seq<char>, url: Seq<char>)
    ensures
        code / 100 == 2 ==> status_report(code, status, url) is None,
        code / 100 != 2 ==> status_report(code, status, url) == Some(
            "HTTP "@ + status + ": "@ + url,
        ),
{
}

/// What is handed on is what was found, no more, no less and nothing twice, each with the details that
/// are known of it, or alone where none are.
pub proof fn law_what_was_found_is_handed_on(
    found: Set<Seq<char>>,
    known: Seq<EntryView>,
    entries: Seq<EntryView>,
    magnet: Seq<char>,
)
    requires
        are_results(found, known, entries),
    ensures
        found.contains(magnet) <==> exists|i: int|
            0 <= i < entries.len() && (#[trigger] entries[i]).magnet == magnet,
        forall|i: int, j: int|
            0 <= i < j < entries.len() ==> (#[trigger] entries[i]).magnet != (
            #[trigger] entries[j]).magnet,
        forall|i: int|
            0 <= i < entries.len() && (exists|k: int|
                0 <= k < known.len() && (#[trigger] known[k]).magnet == entries[i].magnet)
                ==> known.contains(#[trigger] entries[i]),
        forall|i: int|
            0 <= i < entries.len() && (forall|k: int|
                0 <= k < known.len() ==> (#[trigger] known[k]).magnet != entries[i].magnet) ==> {
                &&& (#[trigger] entries[i]).name is None
                &&& entries[i].size is None
                &&& entries[i].seeders is None
                &&& entries[i].leechers is None
            },
{
    let m = magnets_of(entries);
    assert(m.to_set().contains(magnet) == m.contains(magnet));
    if m.contains(magnet) {
        let i = choose|i: int| 0 <= i < m.len() && m[i] == magnet;
        assert(entries[i].magnet == magnet);
    }
    if exists|i: int| 0 <= i < entries.len() && (#[trigger] entries[i]).magnet == magnet {
        let i = choose|i: int| 0 <= i < entries.len() && (#[trigger] entries[i]).magnet == magnet;
        assert(m[i] == magnet);
    }
    assert forall|i: int, j: int| 0 <= i < j < entries.len() implies (#[trigger] entries[i]).magnet != (
    #[trigger] entries[j]).magnet by {
        assert(m[i] != m[j]);
    }
    assert forall|i: int|
        0 <= i < entries.len() && (exists|k: int|
            0 <= k < known.len() && (#[trigger] known[k]).magnet == entries[i].magnet) implies known.contains(
    #[trigger] entries[i]) by {
        law_known_details_are_handed_on(known, entries[i]);
    }
    assert forall|i: int|
        0 <= i < entries.len() && (forall|k: int|
            0 <= k < known.len() ==> (#[trigger] known[k]).magnet != entries[i].magnet) implies {
        &&& (#[trigger] entries[i]).name is None
        &&& entries[i].size is None
        &&& entries[i].seeders is None
        &&& entries[i].leechers is None
    } by {
        law_known_details_are_handed_on(known, entries[i]);
    }
}

/// Enough has been found exactly where no fewer magnet links are found than were asked for; and the
/// pages that wait, and what pages have given, are seen as they are.
pub proof fn law_the_crawler_is_seen_as_it_is(
    scraper: Scraper,
    queue: CrawlQueue,
    yields: Seq<(Vec<String>, usize)>,
    i: int,
    j: int,
)
    requires
        0 <= i < queue.pending@.len(),
        0 <= j < yields.len(),
    ensures
        scraper.is_full() <==> scraper.max_links <= scraper.found().len(),
        queue.pages().len() == queue.pending@.len(),
        queue.pages()[i].0 == queue.pending@[i].0@,
        queue.pages()[i].1 == queue.pending@[i].1,
        page_views(queue.pending@) == queue.pages(),
        yield_views(yields).len() == yields.len(),
        yield_views(yields)[j].0 == texts(yields[j].0@),
        yield_views(yields)[j].1 == yields[j].1,
{
}

proof fn lemma_fresh_adds(found: Set<Seq<char>>, x: Seq<Seq<char>>, y: Seq<Seq<char>>)
    ensures
        fresh(found, x + y) == fresh(found, x) + fresh(found.union(x.to_set()), y),
    decreases y.len(),
{
    let both = found.union(x.to_set());
    if y.len() == 0 {
        assert(x + y =~= x);
        assert(fresh(found, x) + fresh(both, y) =~= fresh(found, x));
    } else {
        let rest = y.drop_last();
        let m = y.last();
        let all = x + y;
        lemma_fresh_adds(found, x, rest);
        assert(all.drop_last() =~= x + rest);
        assert(all.last() == m);
        assert((x + rest).contains(m) <==> x.contains(m) || rest.contains(m)) by {
            if x.contains(m) {
                let k = choose|k: int| 0 <= k < x.len() && x[k] == m;
                assert((x + rest)[k] == m);
            }
            if rest.contains(m) {
                let k = choose|k: int| 0 <= k < rest.len() && rest[k] == m;
                assert((x + rest)[x.len() + k] == m);
            }
            if (x + rest).contains(m) {
                let k = choose|k: int| 0 <= k < (x + rest).len() && (x + rest)[k] == m;
                if k < x.len() {
                    assert(x[k] == m);
                } else {
                    assert(rest[k - x.len()] == m);
                }
            }
        }
        assert(x.to_set().contains(m) == x.contains(m));
        assert(fresh(found, x) + fresh(both, rest).push(m) =~= (fresh(found, x) + fresh(both, rest)).push(
            m,
        ));
    }
}

/// Taking magnet links in by two lists is taking them in by the one list made of both.
pub proof fn law_two_lists_are_taken_in_as_one(
    found: Set<Seq<char>>,
    max_links: nat,
    x: Seq<Seq<char>>,
    y: Seq<Seq<char>>,
)
    requires
        found.finite(),
    ensures
        kept(found, max_links, x + y) == kept(found, max_links, x) + kept(
            found_after(found, max_links, x),
            max_links,
            y,
        ),
{
    let fx = fresh(found, x);
    let r = room(found.len(), max_links);
    let next = found_after(found, max_links, x);
    lemma_fresh_adds(found, x, y);
    lemma_fresh(found, x);
    lemma_found_after(found, max_links, x);
    if fx.len() <= r {
        assert(kept(found, max_links, x) == fx);
        assert forall|m: Seq<char>| next.contains(m) == found.union(x.to_set()).contains(m) by {
            assert(fx.to_set().contains(m) == fx.contains(m));
            assert(x.to_set().contains(m) == x.contains(m));
        }
        assert(next =~= found.union(x.to_set()));
        let fy = fresh(next, y);
        assert(kept(found, max_links, x + y) =~= fx + kept(next, max_links, y));
    } else {
        let fy = fresh(found.union(x.to_set()), y);
        assert(kept(found, max_links, x).len() == r);
        assert(room(next.len(), max_links) == 0);
        assert(kept(next, max_links, y).len() == 0);
        assert(kept(found, max_links, x + y) =~= fx.take(r as int));
        assert(fx.take(r as int) =~= kept(found, max_links, x) + kept(next, max_links, y));
    }
}

/// Of each torrent that is added because the page lists it, the details are known that the page lists
/// first.
pub proof fn law_listed_details_are_known(
    a: Scraper,
    b: Scraper,
    url: Seq<char>,
    page: PageView,
    links: Seq<Seq<char>>,
    magnets: Seq<Seq<char>>,
    i: int,
)
    requires
        page_taken(a, b, url, Some(page), links, magnets),
        a.found().finite(),
        0 <= i < page.records.len(),
        forall|j: int|
            0 <= j < i ==> (#[trigger] page.records[j]).magnet != page.records[i].magnet,
        !magnets_in(page.html).contains(page.records[i].magnet),
        magnets.contains(page.records[i].magnet),
    ensures
        b.known().contains(page.records[i]),
{
    let max_links = a.max_links as nat;
    let html = magnets_in(page.html);
    let listed = magnets_of(page.records);
    let first = found_after(a.found(), max_links, html);
    let one = kept(a.found(), max_links, html);
    let two = kept(first, max_links, listed);
    let m = page.records[i].magnet;
    lemma_kept_links(a.found(), max_links, html);
    let p = choose|p: int| 0 <= p < magnets.len() && magnets[p] == m;
    assert(magnets == one + two);
    assert(p >= one.len()) by {
        if p < one.len() {
            assert(one[p] == m);
            assert(one.contains(m));
        }
    }
    let k = p - one.len();
    assert(two[k] == m);
    let new = fresh_entries(first, page.records);
    lemma_fresh_entries(first, page.records);
    law_details_go_with_their_links(first, a.known(), max_links, page.records);
    assert(magnets_of(new)[k] == new[k].magnet);
    assert(new[k].magnet == m);
    lemma_new_entry_is_first(first, page.records, k, i);
    let part = b.known().skip(a.known().len() as int);
    assert(part[k] == new[k]);
    assert(b.known()[a.known().len() + k] == page.records[i]);
}

proof fn lemma_new_entry_is_first(found: Set<Seq<char>>, entries: Seq<EntryView>, k: int, i: int)
    requires
        0 <= k < fresh_entries(found, entries).len(),
        0 <= i < entries.len(),
        entries[i].magnet == fresh_entries(found, entries)[k].magnet,
        forall|j: int| 0 <= j < i ==> (#[trigger] entries[j]).magnet != entries[i].magnet,
    ensures
        fresh_entries(found, entries)[k] == entries[i],
    decreases entries.len(),
{
    let rest = entries.drop_last();
    let before = fresh_entries(found, rest);
    if k < before.len() {
        lemma_new_entry(found, rest, k);
        let h = choose|h: int| 0 <= h < rest.len() && rest[h] == before[k];
        assert(entries[h].magnet == entries[i].magnet);
        assert(i <= h);
        assert(rest[i] == entries[i]);
        lemma_new_entry_is_first(found, rest, k, i);
    } else {
        assert(fresh_entries(found, entries)[k] == entries.last());
        if i < entries.len() - 1 {
            assert(magnets_of(rest)[i] == entries[i].magnet);
            assert(magnets_of(rest).contains(entries.last().magnet));
        }
    }
}

/// A new crawler has the limits that it is given and the scope of its domain, and has visited and found
/// nothing; and the scope of a sound crawler is always that of its domain.
pub proof fn law_a_new_crawler_has_seen_nothing(
    scraper: Scraper,
    domain: Seq<char>,
    max_links: nat,
    max_depth: nat,
)
    ensures
        is_new(scraper, domain, max_links, max_depth) ==> {
            &&& scraper.domain@ == domain
            &&& scraper.scope() == scope_of(domain)
            &&& scraper.max_links == max_links
            &&& scraper.max_depth == max_depth
            &&& scraper.pages().len() == 0
            &&& scraper.found().len() == 0
            &&& scraper.known().len() == 0
        },
        scraper.wf() ==> scraper.scope() == scope_of(scraper.domain@),
        scraper.wf() ==> scraper.pages().finite() && scraper.found().finite(),
        scraper.wf() ==> forall|i: int|
            0 <= i < scraper.known().len() ==> scraper.found().contains(
                (#[trigger] scraper.known()[i]).magnet,
            ),
{
    if scraper.wf() {
        let m = magnets_of(scraper.known());
        assert forall|i: int| 0 <= i < scraper.known().len() implies scraper.found().contains(
            (#[trigger] scraper.known()[i]).magnet,
        ) by {
            assert(m[i] == scraper.known()[i].magnet);
            assert(m.contains(m[i]));
            assert(m.to_set().contains(m[i]));
        }
    }
}

/// At first the start alone waits, at depth zero. All pages that wait are taken at once, each with its
/// depth, and none waits afterwards; none is taken, and all go on waiting, exactly where none waits or
/// enough has been found.
pub proof fn law_pages_are_taken_all_at_once(
    start: Seq<char>,
    before: Seq<(Seq<char>, nat)>,
    after: Seq<(Seq<char>, nat)>,
    full: bool,
    batch: Option<Seq<(Seq<char>, nat)>>,
)
    ensures
        first_waiting(start).len() == 1,
        first_waiting(start)[0].0 == start && first_waiting(start)[0].1 == 0,
        batch_taken(before, after, full, batch) && before.len() > 0 && !full ==> batch == Some(before)
            && after.len() == 0,
        batch_taken(before, after, full, batch) && (before.len() == 0 || full) ==> batch is None
            && after == before,
{
}

/// The links of pages can be put on the queue unless one of the pages that have given some is as deep as
/// can be counted; where enough has been found they always can.
pub proof fn law_links_are_absorbed_while_levels_can_be_counted(
    yields: Seq<(Vec<String>, usize)>,
    i: int,
)
    requires
        0 <= i < yields.len(),
    ensures
        is_absorbable(true, yields),
        yields[i].0@.len() > 0 && yields[i].1 == usize::MAX ==> !is_absorbable(false, yields),
        is_absorbable(false, yields) <==> forall|k: int|
            0 <= k < yields.len() ==> (#[trigger] yields[k]).0@.len() == 0 || yields[k].1
                < usize::MAX,
{
}

/// A crawler is seen by what it holds: the pages and magnet links in its sets, the host that it keeps to,
/// and each torrent that it knows in detail, in its place.
pub proof fn law_a_crawler_is_seen_by_what_it_holds(scraper: Scraper, i: int)
    ensures
        scraper.pages() == set_contents(scraper.visited),
        scraper.found() == set_contents(scraper.magnets),
        scraper.host is None ==> scraper.scope() is None,
        scraper.host is Some ==> scraper.scope() == Some(scraper.host->0@),
        scraper.known().len() == scraper.details@.len(),
        0 <= i < scraper.details@.len() ==> {
            let held = scraper.details@[i];
            let seen = scraper.known()[i];
            &&& seen.magnet == held.magnet@
            &&& seen.size == held.size
            &&& seen.seeders == held.seeders
            &&& seen.leechers == held.leechers
            &&& held.name is None ==> seen.name is None
            &&& held.name is Some ==> seen.name == Some(held.name->0@)
        },
{
}

/// A page is seen by its source and by the torrents that it lists; one that could not be fetched is none,
/// whatever is listed. A URL is seen by its host and its text; one that could not be read is none.
pub proof fn law_pages_are_seen_as_they_came(
    source: String,
    records: Seq<ApiRecord>,
    url: ResolvedUrl,
)
    ensures
        page_view(None, records) is None,
        page_view(Some(source), records) matches Some(page) && page.html == source@ && page.records
            == record_views(records),
        optional_parts(None) is None,
        optional_parts(Some(url)) matches Some(parts) && parts.1 == url.text@ && parts.0 == (
        match url.host {
            Some(host) => Some(host@),
            None => None,
        }),
{
}

/// A page can be parsed exactly where its source, as UTF-8, has at most 715827882 bytes.
pub proof fn law_pages_up_to_a_length_are_parsed(html: Seq<char>)
    ensures
        is_parsable(html) <==> encode_utf8(html).len() <= 715827882,
{
}

} // verus!
