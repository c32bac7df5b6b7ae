//! Which pages a whole crawl visits, and what it finds on them.

use crate::crawl::{
    found_after, is_at_end, lemma_found_after, magnets_of, one_deeper, waiting_after, Scraper,
};
use crate::crawl_laws::{
    crawl_after, crawl_start, finds_after, lemma_finds_after, lemma_finds_grow,
    lemma_nothing_left_out, links_from, offers, stands_at, urls, Crawl, CrawlEvent,
    Setting,
};
use crate::magnet::magnets_in;
use vstd::prelude::*;

verus! {

/// A crawl at the beginning of a round: no page has given links yet.
pub open spec fn round_start(c: Crawl) -> Crawl {
    Crawl { yields: seq![], ..c }
}

/// How far a crawl has come after `n` rounds.
pub open spec fn stage(s: Setting, rounds: Seq<Seq<CrawlEvent>>, n: nat) -> Crawl
    decreases n,
{
    if n == 0 {
        crawl_start()
    } else {
        crawl_after(s, round_start(stage(s, rounds, (n - 1) as nat)), rounds[n - 1])
    }
}

/// The pages that wait after `n` rounds: at first the start, and then the links that the pages of
/// the round before have given, one level deeper.
pub open spec fn queue(s: Setting, rounds: Seq<Seq<CrawlEvent>>, n: nat) -> Seq<(Seq<char>, nat)> {
    if n == 0 {
        seq![(s.start, 0)]
    } else {
        one_deeper(stage(s, rounds, n).yields)
    }
}

/// The crawl is at its end after `n` rounds: no page waits, or enough has been found.
pub open spec fn is_over(s: Setting, rounds: Seq<Seq<CrawlEvent>>, n: nat) -> bool {
    queue(s, rounds, n).len() == 0 || stage(s, rounds, n).found.len() >= s.max_links
}

/// The events are a round: the pages that wait come up, in whatever order, and the answers to those
/// that are fetched are taken in, in whatever order.
pub open spec fn is_round(
    s: Setting,
    waiting: Seq<(Seq<char>, nat)>,
    c: Crawl,
    events: Seq<CrawlEvent>,
) -> bool {
    &&& forall|u: Seq<char>, d: nat| #[trigger]
        events.contains(CrawlEvent::Page(u, d)) <==> waiting.contains((u, d))
    &&& forall|u: Seq<char>, d: nat| #[trigger]
        events.contains(CrawlEvent::Taken(u, d)) <==> crawl_after(
            s,
            round_start(c),
            events,
        ).fetched.contains((u, d)) && !c.fetched.contains((u, d))
}

/// The rounds are those of a crawl: one follows another until the crawl is over.
pub open spec fn is_crawl(s: Setting, rounds: Seq<Seq<CrawlEvent>>) -> bool {
    forall|n: nat|
        n < rounds.len() ==> !#[trigger] is_over(s, rounds, n) && is_round(
            s,
            queue(s, rounds, n),
            stage(s, rounds, n),
            rounds[n as int],
        )
}

/// The queue goes by the rounds of the crawl. It begins with the pages that wait at first. Taken off
/// whole, and given the links that the pages of a round have given, it holds the pages that wait after
/// that round, unless enough has been found. And the crawler finds the crawl at its end exactly where
/// it is over.
pub proof fn law_the_queue_goes_by_rounds(
    s: Setting,
    rounds: Seq<Seq<CrawlEvent>>,
    n: nat,
    scraper: Scraper,
)
    requires
        stands_at(s, scraper, stage(s, rounds, n)),
    ensures
        n == 0 ==> queue(s, rounds, n) == seq![(s.start, 0nat)],
        n > 0 && !scraper.is_full() ==> waiting_after(
            seq![],
            scraper.is_full(),
            stage(s, rounds, n).yields,
        ) == queue(s, rounds, n),
        is_at_end(queue(s, rounds, n), scraper.is_full()) <==> is_over(s, rounds, n),
        n > 0 ==> (is_at_end(
            waiting_after(seq![], scraper.is_full(), stage(s, rounds, n).yields),
            scraper.is_full(),
        ) <==> is_over(s, rounds, n)),
{
    let yields = stage(s, rounds, n).yields;
    assert(seq![] + one_deeper(yields) =~= one_deeper(yields));
}

/// The address is the start, or at most `n` links lead to it from there.
pub open spec fn within_links(s: Setting, n: nat, url: Seq<char>) -> bool
    decreases n,
{
    if n == 0 {
        url == s.start
    } else {
        ||| within_links(s, (n - 1) as nat, url)
        ||| exists|from: Seq<char>|
            within_links(s, (n - 1) as nat, from) && #[trigger] links_from(s, from).contains(url)
    }
}

/// The address is exactly `n` links from the start.
pub open spec fn first_within(s: Setting, n: nat, url: Seq<char>) -> bool {
    within_links(s, n, url) && (n > 0 ==> !within_links(s, (n - 1) as nat, url))
}

/// What the last item adds to a sequence.
proof fn lemma_last<A>(items: Seq<A>, a: A)
    requires
        items.len() > 0,
    ensures
        items.contains(a) <==> items.drop_last().contains(a) || items.last() == a,
{
    let rest = items.drop_last();
    if rest.contains(a) {
        let k = choose|k: int| 0 <= k < rest.len() && rest[k] == a;
        assert(items[k] == a);
    }
    if items.last() == a {
        assert(items[items.len() - 1] == a);
    }
    if items.contains(a) {
        let k = choose|k: int| 0 <= k < items.len() && items[k] == a;
        if k < rest.len() {
            assert(rest[k] == a);
        }
    }
}

/// A sequence with one more item holds that item and what it held.
proof fn lemma_push<A>(items: Seq<A>, last: A, a: A)
    ensures
        items.push(last).contains(a) <==> items.contains(a) || last == a,
{
    lemma_last(items.push(last), a);
    assert(items.push(last).drop_last() =~= items);
}

/// Pages that come up within the depth limit are visited.
proof fn lemma_pages(s: Setting, c: Crawl, events: Seq<CrawlEvent>, depth: nat, u: Seq<char>)
    requires
        depth <= s.max_depth,
        forall|v: Seq<char>, d: nat| #[trigger]
            events.contains(CrawlEvent::Page(v, d)) ==> d == depth,
    ensures
        crawl_after(s, c, events).pages.contains(u) <==> c.pages.contains(u) || events.contains(
            CrawlEvent::Page(u, depth),
        ),
    decreases events.len(),
{
    if events.len() > 0 {
        let rest = events.drop_last();
        assert forall|v: Seq<char>, d: nat| #[trigger]
            rest.contains(CrawlEvent::Page(v, d)) implies d == depth by {
            lemma_last(events, CrawlEvent::Page(v, d));
        }
        lemma_pages(s, c, rest, depth, u);
        lemma_last(events, CrawlEvent::Page(u, depth));
        lemma_last(events, events.last());
    }
}

/// Only pages that come up are fetched.
proof fn lemma_fetched_came_up(
    s: Setting,
    c: Crawl,
    events: Seq<CrawlEvent>,
    u: Seq<char>,
    d: nat,
)
    ensures
        c.fetched.contains((u, d)) ==> crawl_after(s, c, events).fetched.contains((u, d)),
        crawl_after(s, c, events).fetched.contains((u, d)) ==> c.fetched.contains((u, d)) || (d
            <= s.max_depth && events.contains(CrawlEvent::Page(u, d))),
    decreases events.len(),
{
    if events.len() > 0 {
        let rest = events.drop_last();
        let before = crawl_after(s, c, rest);
        lemma_fetched_came_up(s, c, rest, u, d);
        lemma_last(events, CrawlEvent::Page(u, d));
        if let CrawlEvent::Page(url, depth) = events.last() {
            lemma_push(before.fetched, (url, depth), (u, d));
        }
    }
}

/// While fewer than the limit are found, a page that comes up within the depth limit is fetched
/// exactly where it was not visited before.
proof fn lemma_fetched(
    s: Setting,
    c: Crawl,
    events: Seq<CrawlEvent>,
    depth: nat,
    u: Seq<char>,
    e: nat,
)
    requires
        c.found.finite(),
        crawl_after(s, c, events).found.len() < s.max_links,
        depth <= s.max_depth,
        forall|v: Seq<char>, d: nat| #[trigger]
            events.contains(CrawlEvent::Page(v, d)) ==> d == depth,
    ensures
        crawl_after(s, c, events).fetched.contains((u, e)) <==> c.fetched.contains((u, e)) || (e
            == depth && events.contains(CrawlEvent::Page(u, depth)) && !c.pages.contains(u)),
    decreases events.len(),
{
    if events.len() > 0 {
        let rest = events.drop_last();
        let before = crawl_after(s, c, rest);
        let after = crawl_after(s, c, events);
        assert forall|v: Seq<char>, d: nat| #[trigger]
            rest.contains(CrawlEvent::Page(v, d)) implies d == depth by {
            lemma_last(events, CrawlEvent::Page(v, d));
        }
        lemma_finds_grow(s, c, rest);
        match events.last() {
            CrawlEvent::Page(url, d) => {
                lemma_last(events, CrawlEvent::Page(url, d));
                lemma_push(before.fetched, (url, d), (u, e));
                lemma_pages(s, c, rest, depth, url);
            },
            CrawlEvent::Taken(url, _) => {
                lemma_finds_after(s, before.found, url);
                vstd::set_lib::lemma_len_subset(before.found, after.found);
            },
        }
        lemma_fetched(s, c, rest, depth, u, e);
        lemma_last(events, CrawlEvent::Page(u, depth));
    }
}

/// While fewer than the limit are found, everything that an answer offers is found.
proof fn lemma_offers(s: Setting, found: Set<Seq<char>>, url: Seq<char>, m: Seq<char>)
    requires
        found.finite(),
        finds_after(s, found, url).len() < s.max_links,
    ensures
        finds_after(s, found, url).contains(m) <==> found.contains(m) || offers(s, url, m),
{
    if let Some(page) = (s.site)(url) {
        let first = found_after(found, s.max_links, magnets_in(page.html));
        lemma_found_after(found, s.max_links, magnets_in(page.html));
        lemma_found_after(first, s.max_links, magnets_of(page.records));
        lemma_nothing_left_out(first, s.max_links, magnets_of(page.records));
        lemma_nothing_left_out(found, s.max_links, magnets_in(page.html));
        assert(magnets_in(page.html).to_set().contains(m) == magnets_in(page.html).contains(m));
        assert(magnets_of(page.records).to_set().contains(m) == magnets_of(page.records).contains(m));
    }
}

/// An answer that offers the magnet link is taken in.
pub open spec fn is_offered(s: Setting, events: Seq<CrawlEvent>, m: Seq<char>) -> bool {
    exists|u: Seq<char>, d: nat| #[trigger]
        events.contains(CrawlEvent::Taken(u, d)) && offers(s, u, m)
}

/// While fewer than the limit are found, the finds are what the answers offer.
proof fn lemma_finds(s: Setting, c: Crawl, events: Seq<CrawlEvent>, m: Seq<char>)
    requires
        c.found.finite(),
        crawl_after(s, c, events).found.len() < s.max_links,
    ensures
        crawl_after(s, c, events).found.contains(m) <==> c.found.contains(m) || is_offered(
            s,
            events,
            m,
        ),
    decreases events.len(),
{
    if events.len() > 0 {
        let rest = events.drop_last();
        let before = crawl_after(s, c, rest);
        let after = crawl_after(s, c, events);
        lemma_finds_grow(s, c, rest);
        assert forall|u: Seq<char>, d: nat| #[trigger]
            events.contains(CrawlEvent::Taken(u, d)) <==> rest.contains(CrawlEvent::Taken(u, d))
                || events.last() == CrawlEvent::Taken(u, d) by {
            lemma_last(events, CrawlEvent::Taken(u, d));
        }
        assert forall|u: Seq<char>, d: nat| #[trigger]
            rest.contains(CrawlEvent::Taken(u, d)) implies events.contains(CrawlEvent::Taken(u, d)) by {
            lemma_last(events, CrawlEvent::Taken(u, d));
        }
        if let CrawlEvent::Taken(url, d) = events.last() {
            lemma_finds_after(s, before.found, url);
            vstd::set_lib::lemma_len_subset(before.found, after.found);
            lemma_offers(s, before.found, url, m);
            lemma_last(events, CrawlEvent::Taken(url, d));
        }
        lemma_finds(s, c, rest, m);
    }
}

/// An answer at depth `e` that links to the address is taken in.
pub open spec fn is_linked(s: Setting, events: Seq<CrawlEvent>, v: Seq<char>, e: nat) -> bool {
    exists|u: Seq<char>| #[trigger]
        events.contains(CrawlEvent::Taken(u, e)) && links_from(s, u).contains(v)
}

/// What one more page adds to the pages that wait.
proof fn lemma_one_more(
    yields: Seq<(Seq<Seq<char>>, nat)>,
    links: Seq<Seq<char>>,
    depth: nat,
    v: Seq<char>,
    e: nat,
)
    ensures
        one_deeper(yields.push((links, depth))).contains((v, e)) <==> one_deeper(yields).contains(
            (v, e),
        ) || (e == depth + 1 && links.contains(v)),
{
    let more = yields.push((links, depth));
    assert(more.drop_last() =~= yields);
    let before = one_deeper(yields);
    let here = links.map_values(|link: Seq<char>| (link, depth + 1));
    let all = one_deeper(more);
    assert(all == before + here);
    if before.contains((v, e)) {
        let k = choose|k: int| 0 <= k < before.len() && before[k] == (v, e);
        assert(all[k] == (v, e));
    }
    if e == depth + 1 && links.contains(v) {
        let k = choose|k: int| 0 <= k < links.len() && links[k] == v;
        assert(here[k] == (v, e));
        assert(all[before.len() + k] == (v, e));
    }
    if all.contains((v, e)) {
        let k = choose|k: int| 0 <= k < all.len() && all[k] == (v, e);
        if k < before.len() {
            assert(before[k] == (v, e));
        } else {
            assert(here[k - before.len()] == (v, e));
            assert(links[k - before.len()] == v);
        }
    }
}

/// The pages that wait after a round are those that its answers link to, one level deeper.
proof fn lemma_waiting(s: Setting, c: Crawl, events: Seq<CrawlEvent>, v: Seq<char>, e: nat)
    ensures
        one_deeper(crawl_after(s, c, events).yields).contains((v, e + 1)) <==> one_deeper(
            c.yields,
        ).contains((v, e + 1)) || is_linked(s, events, v, e),
        one_deeper(crawl_after(s, c, events).yields).contains((v, 0)) <==> one_deeper(
            c.yields,
        ).contains((v, 0)),
    decreases events.len(),
{
    if events.len() > 0 {
        let rest = events.drop_last();
        let before = crawl_after(s, c, rest);
        lemma_waiting(s, c, rest, v, e);
        assert forall|u: Seq<char>| #[trigger]
            events.contains(CrawlEvent::Taken(u, e)) <==> rest.contains(CrawlEvent::Taken(u, e))
                || events.last() == CrawlEvent::Taken(u, e) by {
            lemma_last(events, CrawlEvent::Taken(u, e));
        }
        assert forall|u: Seq<char>| #[trigger]
            rest.contains(CrawlEvent::Taken(u, e)) implies events.contains(CrawlEvent::Taken(u, e)) by {
            lemma_last(events, CrawlEvent::Taken(u, e));
        }
        match events.last() {
            CrawlEvent::Page(url, d) => {
                lemma_one_more(before.yields, seq![], d, v, e + 1);
                lemma_one_more(before.yields, seq![], d, v, 0);
            },
            CrawlEvent::Taken(url, d) => {
                lemma_one_more(before.yields, links_from(s, url), d, v, e + 1);
                lemma_one_more(before.yields, links_from(s, url), d, v, 0);
                lemma_last(events, CrawlEvent::Taken(url, d));
            },
        }
    }
}

/// The pages that wait after `n` rounds are at depth `n`.
proof fn lemma_waiting_depth(
    s: Setting,
    rounds: Seq<Seq<CrawlEvent>>,
    n: nat,
    u: Seq<char>,
    d: nat,
)
    requires
        is_crawl(s, rounds),
        n <= rounds.len(),
        queue(s, rounds, n).contains((u, d)),
    ensures
        d == n,
    decreases n,
{
    if n > 0 {
        let m = (n - 1) as nat;
        let a = stage(s, rounds, m);
        let events = rounds[m as int];
        assert(!is_over(s, rounds, m));
        assert(is_round(s, queue(s, rounds, m), a, events));
        assert(one_deeper(round_start(a).yields) =~= Seq::<(Seq<char>, nat)>::empty());
        if d == 0 {
            lemma_waiting(s, round_start(a), events, u, 0);
        } else {
            let e = (d - 1) as nat;
            lemma_waiting(s, round_start(a), events, u, e);
            let from = choose|from: Seq<char>| #[trigger]
                events.contains(CrawlEvent::Taken(from, e)) && links_from(s, from).contains(u);
            lemma_fetched_came_up(s, round_start(a), events, from, e);
            assert(events.contains(CrawlEvent::Page(from, e)));
            lemma_waiting_depth(s, rounds, m, from, e);
        }
    }
}

/// A round below the depth limit fetches nothing, and no page waits after it.
proof fn lemma_round_below_the_limit(s: Setting, rounds: Seq<Seq<CrawlEvent>>, n: nat)
    requires
        is_crawl(s, rounds),
        s.max_depth < n < rounds.len(),
    ensures
        forall|u: Seq<char>, d: nat|
            !#[trigger] rounds[n as int].contains(CrawlEvent::Taken(u, d)),
        queue(s, rounds, n + 1).len() == 0,
{
    let a = stage(s, rounds, n);
    let events = rounds[n as int];
    assert(!is_over(s, rounds, n));
    assert(is_round(s, queue(s, rounds, n), a, events));
    assert forall|u: Seq<char>, d: nat| !#[trigger] events.contains(CrawlEvent::Taken(u, d)) by {
        if events.contains(CrawlEvent::Taken(u, d)) {
            lemma_fetched_came_up(s, round_start(a), events, u, d);
            assert(events.contains(CrawlEvent::Page(u, d)));
            lemma_waiting_depth(s, rounds, n, u, d);
        }
    }
    let waiting = queue(s, rounds, n + 1);
    if waiting.len() > 0 {
        let (v, e) = waiting[0];
        assert(waiting.contains((v, e)));
        assert(one_deeper(round_start(a).yields) =~= Seq::<(Seq<char>, nat)>::empty());
        if e == 0 {
            lemma_waiting(s, round_start(a), events, v, 0);
        } else {
            lemma_waiting(s, round_start(a), events, v, (e - 1) as nat);
        }
    }
}

/// A crawl ends: it has at most two rounds more than its depth limit.
pub proof fn law_a_crawl_ends(s: Setting, rounds: Seq<Seq<CrawlEvent>>)
    requires
        is_crawl(s, rounds),
    ensures
        rounds.len() <= s.max_depth + 2,
{
    if rounds.len() > s.max_depth + 2 {
        lemma_round_below_the_limit(s, rounds, s.max_depth + 1);
        assert(is_over(s, rounds, s.max_depth + 2));
    }
}

/// What has been found stays found from round to round.
proof fn lemma_stages_grow(s: Setting, rounds: Seq<Seq<CrawlEvent>>, n: nat, m: nat)
    requires
        n <= m,
    ensures
        stage(s, rounds, n).found.finite(),
        stage(s, rounds, m).found.finite(),
        stage(s, rounds, n).found.subset_of(stage(s, rounds, m).found),
        stage(s, rounds, n).found.len() <= stage(s, rounds, m).found.len(),
    decreases m,
{
    if m > 0 {
        let k = (m - 1) as nat;
        if n < m {
            lemma_stages_grow(s, rounds, n, k);
            lemma_finds_grow(s, round_start(stage(s, rounds, k)), rounds[k as int]);
            vstd::set_lib::lemma_len_subset(
                stage(s, rounds, n).found,
                stage(s, rounds, m).found,
            );
        } else {
            lemma_stages_grow(s, rounds, k, k);
            lemma_finds_grow(s, round_start(stage(s, rounds, k)), rounds[k as int]);
        }
    }
}

/// An address is among those of the pages exactly where a page has it.
proof fn lemma_urls(pages: Seq<(Seq<char>, nat)>, u: Seq<char>)
    ensures
        urls(pages).contains(u) <==> exists|d: nat| pages.contains((u, d)),
{
    if urls(pages).contains(u) {
        let k = choose|k: int| 0 <= k < urls(pages).len() && urls(pages)[k] == u;
        assert(pages[k] == (u, pages[k].1));
        assert(pages.contains((u, pages[k].1)));
    }
    if exists|d: nat| pages.contains((u, d)) {
        let d = choose|d: nat| pages.contains((u, d));
        let k = choose|k: int| 0 <= k < pages.len() && pages[k] == (u, d);
        assert(urls(pages)[k] == u);
    }
}

/// An address within `n` links of the start offers the magnet link.
pub open spec fn is_offered_within(s: Setting, n: nat, m: Seq<char>) -> bool {
    exists|u: Seq<char>| within_links(s, n, u) && #[trigger] offers(s, u, m)
}

/// The crawl has come `n` links far: it has visited the pages within `n` links of the start and no
/// others, it has fetched each of them, and it has found what they offer and nothing else.
pub open spec fn has_reached(s: Setting, c: Crawl, n: nat) -> bool {
    &&& forall|u: Seq<char>| #[trigger] c.pages.contains(u) <==> within_links(s, n, u)
    &&& forall|u: Seq<char>| #[trigger] urls(c.fetched).contains(u) <==> within_links(s, n, u)
    &&& forall|m: Seq<char>| #[trigger] c.found.contains(m) <==> is_offered_within(s, n, m)
}

/// The pages that wait are those that pages exactly `n` links from the start link to.
spec fn waits_for(s: Setting, waiting: Seq<(Seq<char>, nat)>, n: nat) -> bool {
    forall|v: Seq<char>, e: nat| #[trigger]
        waiting.contains((v, e)) <==> e == n + 1 && exists|u: Seq<char>|
            first_within(s, n, u) && #[trigger] links_from(s, u).contains(v)
}

/// Pages one link on from pages that are new are new themselves, or known already.
proof fn lemma_one_link_on(s: Setting, n: nat, v: Seq<char>)
    ensures
        within_links(s, n + 1, v) <==> within_links(s, n, v) || exists|u: Seq<char>|
            first_within(s, n, u) && #[trigger] links_from(s, u).contains(v),
{
    if within_links(s, n + 1, v) && !within_links(s, n, v) {
        let from = choose|from: Seq<char>|
            within_links(s, n, from) && #[trigger] links_from(s, from).contains(v);
        assert(within_links(s, n, from) && links_from(s, from).contains(v));
        assert(first_within(s, n, from));
    }
    if exists|u: Seq<char>| first_within(s, n, u) && #[trigger] links_from(s, u).contains(v) {
        let u = choose|u: Seq<char>|
            first_within(s, n, u) && #[trigger] links_from(s, u).contains(v);
        assert(within_links(s, n, u) && links_from(s, u).contains(v));
    }
}

/// What round `n` does, while fewer than the limit are found: it takes in the answers of the pages
/// exactly `n` links from the start.
proof fn lemma_round(s: Setting, a: Crawl, waiting: Seq<(Seq<char>, nat)>, events: Seq<CrawlEvent>, n: nat)
    requires
        n <= s.max_depth,
        a.found.finite(),
        crawl_after(s, round_start(a), events).found.len() < s.max_links,
        is_round(s, waiting, a, events),
        n == 0 ==> a == crawl_start() && waiting == seq![(s.start, 0nat)],
        n > 0 ==> has_reached(s, a, (n - 1) as nat) && waits_for(s, waiting, (n - 1) as nat),
    ensures
        has_reached(s, crawl_after(s, round_start(a), events), n),
        waits_for(s, one_deeper(crawl_after(s, round_start(a), events).yields), n),
{
    let c = round_start(a);
    let b = crawl_after(s, c, events);
    if n == 0 {
        assert(waiting[0] == (s.start, 0nat));
    }
    // Which pages come up.
    assert forall|u: Seq<char>, d: nat| #[trigger]
        events.contains(CrawlEvent::Page(u, d)) implies d == n by {
        assert(waiting.contains((u, d)));
    }
    assert forall|u: Seq<char>|
        within_links(s, n, u) <==> a.pages.contains(u) || #[trigger] events.contains(
            CrawlEvent::Page(u, n),
        ) by {
        assert(events.contains(CrawlEvent::Page(u, n)) <==> waiting.contains((u, n)));
        if n > 0 {
            lemma_one_link_on(s, (n - 1) as nat, u);
        }
    }
    assert forall|u: Seq<char>| #[trigger] b.pages.contains(u) <==> within_links(s, n, u) by {
        lemma_pages(s, c, events, n, u);
        assert(events.contains(CrawlEvent::Page(u, n)) || !events.contains(CrawlEvent::Page(u, n)));
    }
    // Which of them are fetched.
    assert forall|u: Seq<char>| #[trigger] a.pages.contains(u) <==> n > 0 && within_links(
        s,
        (n - 1) as nat,
        u,
    ) by {}
    assert forall|u: Seq<char>| #[trigger] urls(a.fetched).contains(u) <==> n > 0 && within_links(
        s,
        (n - 1) as nat,
        u,
    ) by {}
    assert forall|u: Seq<char>, d: nat| #[trigger]
        events.contains(CrawlEvent::Taken(u, d)) <==> d == n && first_within(s, n, u) by {
        lemma_fetched(s, c, events, n, u, d);
        lemma_urls(a.fetched, u);
        assert(events.contains(CrawlEvent::Page(u, n)) || !events.contains(CrawlEvent::Page(u, n)));
        assert(a.pages.contains(u) <==> n > 0 && within_links(s, (n - 1) as nat, u));
        if a.fetched.contains((u, d)) {
            assert(urls(a.fetched).contains(u));
        }
    }
    assert forall|u: Seq<char>| #[trigger] urls(b.fetched).contains(u) <==> within_links(s, n, u) by {
        lemma_urls(a.fetched, u);
        lemma_urls(b.fetched, u);
        assert(events.contains(CrawlEvent::Page(u, n)) || !events.contains(CrawlEvent::Page(u, n)));
        if urls(b.fetched).contains(u) {
            let d = choose|d: nat| b.fetched.contains((u, d));
            lemma_fetched(s, c, events, n, u, d);
            if a.fetched.contains((u, d)) {
                assert(urls(a.fetched).contains(u));
                assert(a.pages.contains(u));
            }
        }
        if within_links(s, n, u) {
            if a.pages.contains(u) {
                assert(urls(a.fetched).contains(u));
                let d = choose|d: nat| a.fetched.contains((u, d));
                lemma_fetched(s, c, events, n, u, d);
                assert(b.fetched.contains((u, d)));
            } else {
                lemma_fetched(s, c, events, n, u, n);
                assert(b.fetched.contains((u, n)));
            }
        }
    }
    // What is found on them.
    assert forall|m: Seq<char>| #[trigger] b.found.contains(m) <==> is_offered_within(s, n, m) by {
        lemma_finds(s, c, events, m);
        if is_offered(s, events, m) {
            let (u, d) = choose|u: Seq<char>, d: nat| #[trigger]
                events.contains(CrawlEvent::Taken(u, d)) && offers(s, u, m);
            assert(within_links(s, n, u) && offers(s, u, m));
        }
        if a.found.contains(m) {
            assert(n > 0);
            assert(is_offered_within(s, (n - 1) as nat, m));
            let u = choose|u: Seq<char>|
                within_links(s, (n - 1) as nat, u) && #[trigger] offers(s, u, m);
            assert(within_links(s, n, u) && offers(s, u, m));
        }
        if is_offered_within(s, n, m) {
            let u = choose|u: Seq<char>| within_links(s, n, u) && #[trigger] offers(s, u, m);
            if first_within(s, n, u) {
                assert(events.contains(CrawlEvent::Taken(u, n)));
            } else {
                assert(within_links(s, (n - 1) as nat, u) && offers(s, u, m));
                assert(is_offered_within(s, (n - 1) as nat, m));
                assert(a.found.contains(m));
            }
        }
    }
    // Which pages wait next.
    let next = one_deeper(b.yields);
    assert(one_deeper(c.yields) =~= Seq::<(Seq<char>, nat)>::empty());
    assert forall|v: Seq<char>, e: nat| #[trigger]
        next.contains((v, e)) <==> e == n + 1 && exists|u: Seq<char>|
            first_within(s, n, u) && #[trigger] links_from(s, u).contains(v) by {
        if e == 0 {
            lemma_waiting(s, c, events, v, 0);
        } else {
            let d = (e - 1) as nat;
            lemma_waiting(s, c, events, v, d);
            if is_linked(s, events, v, d) {
                let u = choose|u: Seq<char>| #[trigger]
                    events.contains(CrawlEvent::Taken(u, d)) && links_from(s, u).contains(v);
                assert(first_within(s, n, u) && links_from(s, u).contains(v));
            }
            if e == n + 1 && exists|u: Seq<char>|
                first_within(s, n, u) && #[trigger] links_from(s, u).contains(v) {
                let u = choose|u: Seq<char>|
                    first_within(s, n, u) && #[trigger] links_from(s, u).contains(v);
                assert(events.contains(CrawlEvent::Taken(u, n)));
            }
        }
    }
}

/// How far a crawl that finds fewer than the limit has come after `n` rounds.
proof fn lemma_stage(s: Setting, rounds: Seq<Seq<CrawlEvent>>, n: nat)
    requires
        is_crawl(s, rounds),
        1 <= n <= rounds.len(),
        stage(s, rounds, rounds.len()).found.len() < s.max_links,
    ensures
        n <= s.max_depth + 1 ==> has_reached(s, stage(s, rounds, n), (n - 1) as nat) && waits_for(
            s,
            queue(s, rounds, n),
            (n - 1) as nat,
        ),
        n > s.max_depth + 1 ==> has_reached(s, stage(s, rounds, n), s.max_depth),
    decreases n,
{
    let m = (n - 1) as nat;
    let a = stage(s, rounds, m);
    let events = rounds[m as int];
    assert(!is_over(s, rounds, m));
    assert(is_round(s, queue(s, rounds, m), a, events));
    lemma_stages_grow(s, rounds, m, rounds.len());
    lemma_stages_grow(s, rounds, n, rounds.len());
    if m > 0 {
        lemma_stage(s, rounds, m);
    }
    if m <= s.max_depth {
        lemma_round(s, a, queue(s, rounds, m), events, m);
    } else {
        law_a_crawl_ends(s, rounds);
        lemma_round_below_the_limit(s, rounds, m);
        lemma_round_changes_nothing(s, round_start(a), events);
    }
}

/// A round in which no page comes up within the depth limit and no answer is taken in changes
/// nothing.
proof fn lemma_round_changes_nothing(s: Setting, c: Crawl, events: Seq<CrawlEvent>)
    requires
        forall|u: Seq<char>, d: nat| #[trigger]
            events.contains(CrawlEvent::Page(u, d)) ==> d > s.max_depth,
        forall|u: Seq<char>, d: nat| !#[trigger] events.contains(CrawlEvent::Taken(u, d)),
    ensures
        crawl_after(s, c, events).pages == c.pages,
        crawl_after(s, c, events).fetched == c.fetched,
        crawl_after(s, c, events).found == c.found,
    decreases events.len(),
{
    if events.len() > 0 {
        let rest = events.drop_last();
        assert forall|u: Seq<char>, d: nat| #[trigger]
            rest.contains(CrawlEvent::Page(u, d)) implies d > s.max_depth by {
            lemma_last(events, CrawlEvent::Page(u, d));
        }
        assert forall|u: Seq<char>, d: nat| !#[trigger] rest.contains(CrawlEvent::Taken(u, d)) by {
            lemma_last(events, CrawlEvent::Taken(u, d));
        }
        lemma_round_changes_nothing(s, c, rest);
        lemma_last(events, events.last());
    }
}

/// Where no page that is new leads anywhere, more links reach no further.
proof fn lemma_no_further(s: Setting, n: nat, m: nat, u: Seq<char>)
    requires
        n <= m,
        forall|v: Seq<char>, w: Seq<char>|
            first_within(s, n, v) ==> !#[trigger] links_from(s, v).contains(w),
    ensures
        within_links(s, m, u) <==> within_links(s, n, u),
    decreases m,
{
    if n < m {
        let k = (m - 1) as nat;
        lemma_no_further(s, n, k, u);
        if exists|from: Seq<char>|
            within_links(s, k, from) && #[trigger] links_from(s, from).contains(u) {
            let from = choose|from: Seq<char>|
                within_links(s, k, from) && #[trigger] links_from(s, from).contains(u);
            lemma_no_further(s, n, k, from);
            assert(within_links(s, n, from) && links_from(s, from).contains(u));
            lemma_one_link_on(s, n, u);
            assert(within_links(s, n + 1, u));
        }
    }
}

/// A crawl that ends with fewer finds than the limit has visited exactly the pages within
/// `max_depth` links of the start; it has fetched each of them; and it has found exactly the magnet
/// links that these pages offer. The order in which pages come up and answers come in, and how often
/// a page is linked to, make no difference.
pub proof fn law_a_crawl_visits_what_is_within_its_depth(s: Setting, rounds: Seq<Seq<CrawlEvent>>)
    requires
        is_crawl(s, rounds),
        queue(s, rounds, rounds.len()).len() == 0,
        stage(s, rounds, rounds.len()).found.len() < s.max_links,
    ensures
        has_reached(s, stage(s, rounds, rounds.len()), s.max_depth),
{
    let n = rounds.len();
    let c = stage(s, rounds, n);
    lemma_stage(s, rounds, n);
    if n <= s.max_depth {
        let k = (n - 1) as nat;
        assert forall|v: Seq<char>, w: Seq<char>| first_within(
            s,
            k,
            v,
        ) implies !#[trigger] links_from(s, v).contains(w) by {
            assert(!queue(s, rounds, n).contains((w, n)));
        }
        assert forall|u: Seq<char>| within_links(s, s.max_depth, u) <==> #[trigger] within_links(
            s,
            k,
            u,
        ) by {
            lemma_no_further(s, k, s.max_depth, u);
        }
        assert forall|u: Seq<char>| #[trigger] c.pages.contains(u) <==> within_links(
            s,
            s.max_depth,
            u,
        ) by {
            assert(within_links(s, k, u) || !within_links(s, k, u));
        }
        assert forall|u: Seq<char>| #[trigger] urls(c.fetched).contains(u) <==> within_links(
            s,
            s.max_depth,
            u,
        ) by {
            assert(within_links(s, k, u) || !within_links(s, k, u));
        }
        assert forall|m: Seq<char>| #[trigger] c.found.contains(m) <==> is_offered_within(
            s,
            s.max_depth,
            m,
        ) by {
            if is_offered_within(s, k, m) {
                let u = choose|u: Seq<char>| within_links(s, k, u) && #[trigger] offers(s, u, m);
                assert(within_links(s, s.max_depth, u) && offers(s, u, m));
            }
            if is_offered_within(s, s.max_depth, m) {
                let u = choose|u: Seq<char>|
                    within_links(s, s.max_depth, u) && #[trigger] offers(s, u, m);
                assert(within_links(s, k, u) || !within_links(s, k, u));
                assert(within_links(s, k, u) && offers(s, u, m));
            }
        }
    }
}

/// However a crawl goes, it ends with no more finds than the limit.
pub proof fn law_a_crawl_stays_within_its_limit(s: Setting, rounds: Seq<Seq<CrawlEvent>>, n: nat)
    ensures
        stage(s, rounds, n).found.finite(),
        stage(s, rounds, n).found.len() <= s.max_links,
    decreases n,
{
    if n > 0 {
        let m = (n - 1) as nat;
        law_a_crawl_stays_within_its_limit(s, rounds, m);
        lemma_finds_grow(s, round_start(stage(s, rounds, m)), rounds[m as int]);
    }
}

} // verus!
