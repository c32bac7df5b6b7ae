use torrent_scraping::crawl::{ApiRecord, CrawlQueue, ResolvedUrl, Scraper};
use torrent_scraping::trusted::HTML_LIMIT;

fn scraper() -> Scraper {
    Scraper::new("example.com".to_string(), 3, 1)
}

fn found(s: &Scraper) -> Vec<String> {
    let mut v: Vec<String> = s.results().torrents.into_iter().map(|t| t.magnet).collect();
    v.sort();
    v
}

fn record(hash: &str) -> ApiRecord {
    ApiRecord {
        info_hash: hash.to_string(),
        name: Some(format!("name of {}", hash)),
        size: Some(1234567890),
        seeders: Some(100),
        leechers: Some(50),
    }
}

#[test]
fn the_first_address_is_secure_unless_given() {
    assert_eq!(Scraper::start_url("example.com"), "https://example.com/");
    assert_eq!(Scraper::start_url("http://example.com"), "http://example.com/");
    assert_eq!(
        Scraper::start_url("https://apibay.org/q.php?q=ubuntu&cat=200"),
        "https://apibay.org/q.php?q=ubuntu&cat=200"
    );
    assert_eq!(Scraper::start_url("HTTPBIN.org/a#b"), "https://httpbin.org/a");
    assert_eq!(Scraper::start_url(""), "https://");
    assert_eq!(Scraper::address_of("example.com"), "https://example.com");
    assert_eq!(Scraper::address_of("http://example.com"), "http://example.com");
    assert_eq!(Scraper::address_of("https://example.com"), "https://example.com");
    assert_eq!(Scraper::address_of("httpbin.org"), "https://httpbin.org");
    assert_eq!(Scraper::address_from("typed".to_string(), None), "typed");
    assert_eq!(Scraper::host_from(None), None);
}

#[test]
fn the_scope_is_the_host_of_the_domain() {
    let scope = |domain: &str| Scraper::new(domain.to_string(), 1, 1).host;
    assert_eq!(scope("example.com"), Some("example.com".to_string()));
    assert_eq!(scope("Example.com"), Some("example.com".to_string()));
    assert_eq!(scope("example.com:8080/a"), Some("example.com".to_string()));
    assert_eq!(scope("https://apibay.org/q.php?q=u"), Some("apibay.org".to_string()));
    assert_eq!(scope(""), None);
    let domain = "https://apibay.org/q.php?q=ubuntu&cat=200";
    let s = Scraper::new(domain.to_string(), 50, 3);
    assert_eq!(
        s.normalize_url(domain, "/t.php?id=1"),
        Some("https://apibay.org/t.php?id=1".to_string())
    );
    let none = Scraper::new("".to_string(), 50, 3);
    assert_eq!(none.normalize_url("https://example.com/", "/"), None);
}

#[test]
fn links_are_resolved_and_kept_in_the_domain() {
    let s = scraper();
    let base = "https://www.example.com/a/b.html";
    assert_eq!(
        s.normalize_url(base, "../c?d=1#e"),
        Some("https://www.example.com/c?d=1#e".to_string())
    );
    assert_eq!(s.normalize_url(base, "//EXAMPLE.com"), Some("https://example.com/".to_string()));
    assert_eq!(s.normalize_url(base, "http://other.org/"), None);
    assert_eq!(s.normalize_url(base, "http://other.org/example.com"), None);
    assert_eq!(s.normalize_url(base, "mailto:x@example.com"), None);
    assert_eq!(s.normalize_url(base, "http://[bad"), None);
    assert_eq!(s.normalize_url("no base", "/x"), None);
    assert_eq!(s.normalize_url(base, "https://notexample.com/"), None);
    assert_eq!(s.normalize_url(base, "https://example.com.org/"), None);
}

#[test]
fn the_domain_and_its_subdomains_are_kept() {
    let s = scraper();
    let url = |host: Option<&str>| {
        Some(ResolvedUrl { host: host.map(|h| h.to_string()), text: "t".to_string() })
    };
    assert_eq!(s.keep_in_domain(url(Some("example.com"))), Some("t".to_string()));
    assert_eq!(s.keep_in_domain(url(Some("a.example.com"))), Some("t".to_string()));
    assert_eq!(s.keep_in_domain(url(Some("example.org"))), None);
    assert_eq!(s.keep_in_domain(url(Some("notexample.com"))), None);
    assert_eq!(s.keep_in_domain(url(Some("example.com.a"))), None);
    assert_eq!(s.keep_in_domain(url(Some(".com"))), None);
    assert_eq!(s.keep_in_domain(url(None)), None);
    assert_eq!(s.keep_in_domain(None), None);
}

#[test]
fn magnets_are_found_in_the_source() {
    let mut s = Scraper::new("example.com".to_string(), 10, 1);
    let html = "<a href=\"magnet:?xt=1&dn=a\">x</a> magnet:? 'magnet:?b' magnet:?c<br>\
        magnet:?xt=1&dn=a magnet:magnet:?d\u{a0}e MAGNET:?f magnet:?\u{e9}";
    let new = s.extract_magnets(html);
    assert_eq!(
        new,
        ["magnet:?xt=1&dn=a", "magnet:?b", "magnet:?c", "magnet:?d", "magnet:?\u{e9}"]
    );
    assert_eq!(found(&s).len(), 5);
    assert!(s.extract_magnets(html).is_empty());
    assert_eq!(found(&s).len(), 5);
}

#[test]
fn a_magnet_runs_to_the_first_unfit_character() {
    for (end, text) in [
        (" ", "magnet:?x"),
        ("<", "magnet:?x"),
        (">", "magnet:?x"),
        ("\"", "magnet:?x"),
        ("'", "magnet:?x"),
        ("\u{2003}", "magnet:?x"),
        ("\u{200b}", "magnet:?x\u{200b}y"),
        ("magnet:?", "magnet:?xmagnet:?y"),
    ] {
        let mut s = scraper();
        assert_eq!(s.extract_magnets(&format!("magnet:?x{}y", end)), [text]);
    }
    let mut s = scraper();
    assert!(s.extract_magnets("magnet:?").is_empty());
    assert!(s.extract_magnets("magnet:x").is_empty());
    assert!(s.extract_magnets("").is_empty());
    assert_eq!(s.extract_magnets("magnet:? magnet:?magnet:?"), ["magnet:?magnet:?"]);
}

#[test]
fn anchors_are_followed_in_order() {
    let s = scraper();
    let html = "<html><body><a href='/b'>b</a><a name=x>no</a><p><a href='/a'>a</a></p>\
        <a href='http://other.org/'>o</a><a href='/b'>again</a><area href='/c'></body></html>";
    assert_eq!(
        s.extract_links(html, "http://example.com/"),
        ["http://example.com/b", "http://example.com/a", "http://example.com/b"]
    );
    assert!(s.extract_links("", "http://example.com/").is_empty());
    assert!(s.extract_links(html, "nowhere").is_empty());
    let hrefs = vec![None, Some("/x".to_string()), Some("http://other.org".to_string())];
    assert_eq!(s.collect_links(&hrefs, "http://example.com/"), ["http://example.com/x"]);
}

#[test]
fn pages_are_fetched_once_and_within_depth() {
    let mut s = scraper();
    assert!(s.admit_page("u", 0));
    assert!(!s.admit_page("u", 0));
    assert!(!s.admit_page("u", 1));
    assert!(s.admit_page("v", 1));
    assert!(!s.admit_page("w", 2));
    assert!(s.admit_page("w", 1));
}

#[test]
fn enough_finds_end_the_crawl() {
    let mut s = scraper();
    s.take_magnets(vec!["a".to_string(), "b".to_string(), "a".to_string()]);
    assert!(s.admit_page("u", 0));
    assert_eq!(s.take_magnets(vec!["c".to_string(), "d".to_string()]), ["c"]);
    assert!(!s.admit_page("v", 0));
    let mut queue = CrawlQueue::new("x".to_string());
    assert!(queue.next_batch(&s).is_none());
    queue.absorb(vec![(vec!["y".to_string()], 0)], &s);
    assert_eq!(queue.pending.len(), 1);
    assert_eq!(found(&s), ["a", "b", "c"]);
}

#[test]
fn no_more_is_collected_than_asked_for() {
    let mut s = Scraper::new("example.com".to_string(), 3, 1);
    let html = "magnet:?a magnet:?b magnet:?a magnet:?c magnet:?d".to_string();
    assert_eq!(s.extract_magnets(&html), ["magnet:?a", "magnet:?b", "magnet:?c"]);
    assert!(s.extract_magnets("magnet:?e").is_empty());
    s.take_records(&vec![record("AA")]);
    assert_eq!(found(&s), ["magnet:?a", "magnet:?b", "magnet:?c"]);
    assert!(s.details.is_empty());

    let mut s = Scraper::new("example.com".to_string(), 2, 1);
    assert_eq!(
        s.take_records(&vec![record("AA"), record("AA"), record("BB"), record("CC")]),
        ["magnet:?xt=urn:btih:AA", "magnet:?xt=urn:btih:BB"]
    );
    assert_eq!(found(&s), ["magnet:?xt=urn:btih:AA", "magnet:?xt=urn:btih:BB"]);
    assert_eq!(s.details.len(), 2);

    let mut s = Scraper::new("example.com".to_string(), 2, 1);
    let given = s.take_page("http://example.com/", Some("magnet:?a <a href=/n>".to_string()), &vec![
        record("AA"),
        record("BB"),
    ]);
    assert_eq!(given.links, ["http://example.com/n"]);
    assert_eq!(given.magnets, ["magnet:?a", "magnet:?xt=urn:btih:AA"]);
    assert_eq!(found(&s), ["magnet:?a", "magnet:?xt=urn:btih:AA"]);

    let mut s = Scraper::new("example.com".to_string(), 0, 1);
    assert!(s.take_magnets(vec!["a".to_string()]).is_empty());
    assert!(found(&s).is_empty());
}

/// Crawls a site that answers as `site` says, and gives the pages that were fetched.
fn crawl(s: &mut Scraper, domain: &str, site: &dyn Fn(&str) -> Option<String>) -> Vec<String> {
    let mut fetched = Vec::new();
    let mut queue = CrawlQueue::new(Scraper::start_url(domain));
    while let Some(batch) = queue.next_batch(s) {
        let mut yields = Vec::new();
        for (url, depth) in batch.into_iter().rev() {
            let links = if s.admit_page(&url, depth) {
                fetched.push(url.clone());
                s.take_page(&url, site(&url), &Vec::new()).links
            } else {
                Vec::new()
            };
            yields.push((links, depth));
        }
        queue.absorb(yields, s);
    }
    fetched.sort();
    fetched
}

fn small_site(url: &str) -> Option<String> {
    match url {
        "https://example.com/" => {
            Some("magnet:?0 <a href=/><a href=a><a href=b><a href=https://notexample.com/>".to_string())
        }
        "https://example.com/a" => Some("magnet:?1 <a href=b><a href=c>".to_string()),
        "https://example.com/b" => None,
        "https://example.com/c" => Some("magnet:?2 magnet:?1 <a href=d>".to_string()),
        "https://example.com/d" => Some("magnet:?3".to_string()),
        _ => panic!("{} is not of the site", url),
    }
}

#[test]
fn a_crawl_visits_what_is_within_its_depth() {
    let pages = ["", "a", "b", "c", "d"];
    for (depth, n, magnets) in [
        (0, 1, vec!["magnet:?0"]),
        (1, 3, vec!["magnet:?0", "magnet:?1"]),
        (2, 4, vec!["magnet:?0", "magnet:?1", "magnet:?2"]),
        (3, 5, vec!["magnet:?0", "magnet:?1", "magnet:?2", "magnet:?3"]),
        (9, 5, vec!["magnet:?0", "magnet:?1", "magnet:?2", "magnet:?3"]),
    ] {
        let mut s = Scraper::new("Example.com".to_string(), 100, depth);
        let fetched = crawl(&mut s, "Example.com", &small_site);
        let expected: Vec<String> =
            pages[..n].iter().map(|p| format!("https://example.com/{}", p)).collect();
        assert_eq!(fetched, expected);
        assert_eq!(s.visited.len(), n);
        assert_eq!(found(&s), magnets);
    }
}

#[test]
fn a_crawl_stops_at_its_limit() {
    let mut s = Scraper::new("example.com".to_string(), 2, 9);
    let fetched = crawl(&mut s, "example.com", &small_site);
    assert_eq!(found(&s), ["magnet:?0", "magnet:?1"]);
    assert_eq!(fetched.len(), 3);
}

#[test]
fn the_first_page_is_not_fetched_again() {
    let site = |url: &str| {
        assert_eq!(url, "https://example.com/");
        Some("<a href=/><a href=https://example.com><a href=//EXAMPLE.com:443/>".to_string())
    };
    for domain in ["example.com", "https://example.com", "https://Example.com:443/#top"] {
        let mut s = Scraper::new(domain.to_string(), 5, 5);
        assert_eq!(crawl(&mut s, domain, &site), ["https://example.com/"]);
    }
}

#[test]
fn the_queue_goes_level_by_level() {
    let s = scraper();
    let mut queue = CrawlQueue::new("x".to_string());
    let batch = queue.next_batch(&s).unwrap();
    assert_eq!(batch, [("x".to_string(), 0)]);
    assert!(queue.next_batch(&s).is_none());
    queue.absorb(
        vec![
            (vec!["a".to_string(), "b".to_string()], 0),
            (vec![], 0),
            (vec!["c".to_string()], 0),
        ],
        &s,
    );
    let batch = queue.next_batch(&s).unwrap();
    assert_eq!(
        batch,
        [("a".to_string(), 1), ("b".to_string(), 1), ("c".to_string(), 1)]
    );
}

#[test]
fn records_become_magnets_with_details() {
    let mut s = scraper();
    s.take_magnets(vec!["magnet:?xt=urn:btih:AA".to_string()]);
    s.take_records(&vec![record("AA"), record("BB"), record("BB")]);
    assert_eq!(found(&s), ["magnet:?xt=urn:btih:AA", "magnet:?xt=urn:btih:BB"]);
    for entry in s.results().torrents {
        if entry.magnet.ends_with("BB") {
            assert_eq!(entry.name, Some("name of BB".to_string()));
            assert_eq!(entry.size, Some(1234567890));
            assert_eq!(entry.seeders, Some(100));
            assert_eq!(entry.leechers, Some(50));
        } else {
            assert_eq!(entry.name, None);
            assert_eq!(entry.size, None);
            assert_eq!(entry.seeders, None);
            assert_eq!(entry.leechers, None);
        }
    }
}

#[test]
fn a_page_gives_magnets_records_and_links() {
    let mut s = scraper();
    let html = "<a href='magnet:?x'>m</a><a href='/n'>n</a>".to_string();
    let given = s.take_page("http://example.com/", Some(html.clone()), &vec![record("CC")]);
    assert_eq!(given.links, ["http://example.com/n"]);
    assert_eq!(given.magnets, ["magnet:?x", "magnet:?xt=urn:btih:CC"]);
    let given = s.take_page("http://example.com/", Some(html), &vec![record("CC")]);
    assert_eq!(given.links, ["http://example.com/n"]);
    assert!(given.magnets.is_empty());
    assert_eq!(found(&s), ["magnet:?x", "magnet:?xt=urn:btih:CC"]);
    let given = s.take_page("http://example.com/n", None, &vec![record("DD")]);
    assert!(given.links.is_empty());
    assert!(given.magnets.is_empty());
    assert_eq!(found(&s).len(), 2);
}

#[test]
fn only_success_is_used() {
    assert_eq!(Scraper::check_status(200, "200 OK", "u"), Ok(()));
    assert_eq!(Scraper::check_status(299, "299", "u"), Ok(()));
    assert_eq!(
        Scraper::check_status(404, "404 Not Found", "http://x/"),
        Err("HTTP 404 Not Found: http://x/".to_string())
    );
    assert!(Scraper::check_status(199, "", "").is_err());
    assert!(Scraper::check_status(300, "", "").is_err());
}

#[test]
fn first_details_are_kept() {
    let mut s = scraper();
    s.take_records(&vec![record("AA")]);
    let mut other = record("AA");
    other.name = None;
    s.take_records(&vec![other, record("BB")]);
    assert_eq!(s.details.len(), 2);
    assert_eq!(s.details[0].name, Some("name of AA".to_string()));
}

#[test]
fn a_depth_limit_of_zero_is_the_first_page_alone() {
    let mut s = Scraper::new("example.com".to_string(), 1, 0);
    assert!(s.admit_page("u", 0));
    assert!(!s.admit_page("v", 1));
    let mut none = Scraper::new("example.com".to_string(), 0, 0);
    assert!(!none.admit_page("u", 0));
}

#[test]
fn pages_up_to_a_limit_can_be_parsed() {
    assert!(Scraper::can_parse(""));
    assert!(Scraper::can_parse("<a href=/>"));
    assert_eq!(HTML_LIMIT * 3, (1 << 31) - 2);
    // Zeroed memory that is only read takes little room.
    let long = String::from_utf8(vec![0; HTML_LIMIT + 1]).unwrap();
    assert!(!Scraper::can_parse(&long));
    assert!(Scraper::can_parse(&long[1..]));
}

#[test]
fn links_are_absorbed_where_their_depth_can_be_counted() {
    let deep = |links: Vec<String>| vec![(Vec::new(), 0), (links, usize::MAX)];
    let link = || vec!["x".to_string()];
    let s = scraper();
    assert!(CrawlQueue::can_absorb(&Vec::new(), &s));
    assert!(CrawlQueue::can_absorb(&deep(Vec::new()), &s));
    assert!(!CrawlQueue::can_absorb(&deep(link()), &s));
    assert!(CrawlQueue::can_absorb(&vec![(link(), usize::MAX - 1)], &s));
    let full = Scraper::new("example.com".to_string(), 0, 1);
    assert!(CrawlQueue::can_absorb(&deep(link()), &full));
    let mut queue = CrawlQueue::new("u".to_string());
    queue.absorb(deep(link()), &full);
    assert_eq!(queue.pending.len(), 1);
}
