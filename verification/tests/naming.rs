use torrent_scraping::app::App;
use torrent_scraping::naming::{name_from_dn, name_from_hash};

fn name(link: &str) -> String {
    App::extract_name(link)
}

#[test]
fn the_display_name_is_decoded() {
    assert_eq!(name("magnet:?xt=urn:btih:abc&dn=Ubuntu%2022.04+LTS&tr=x"), "Ubuntu 22.04+LTS");
    assert_eq!(name("magnet:?dn=plain"), "plain");
    assert_eq!(name("magnet:?dn=&tr=x"), "");
    assert_eq!(name("dn=a%2"), "a%2");
    assert_eq!(name("dn=%zz%1%41%"), "%zz%1A%");
    assert_eq!(name("dn=%C3%A9t%c3%a9"), "\u{e9}t\u{e9}");
    assert_eq!(name("dn=\u{4e2d}%20&x"), "\u{4e2d} ");
    assert_eq!(name("dn=one&dn=two"), "one");
}

#[test]
fn the_hash_is_the_fallback() {
    assert_eq!(name("magnet:?xt=urn:btih:0123456789ABCDEF&tr=x"), "torrent_01234567");
    assert_eq!(name("magnet:?xt=urn:BTIH:abc&tr=x"), "torrent_abc");
    assert_eq!(name("magnet:?xt=urn:btih:"), "torrent_");
    assert_eq!(name("magnet:?xt=urn:btih:&x"), "torrent_");
    assert_eq!(name("btih:\u{e9}\u{e8}12-"), "torrent_\u{e9}\u{e8}12");
    // A name that is not UTF-8 counts as none.
    assert_eq!(name("magnet:?dn=%ff&xt=urn:btih:feed"), "torrent_feed");
}

#[test]
fn a_link_without_either_is_unknown() {
    assert_eq!(name("magnet:?xt=urn:sha1:abc"), "unknown");
    assert_eq!(name(""), "unknown");
    assert_eq!(name("dn=%ff"), "unknown");
}

#[test]
fn the_hash_follows_the_marker_in_the_link() {
    // The dotted capital I takes a byte more in lower case, the Kelvin sign two less.
    assert_eq!(name("\u{130}btih:abc"), "torrent_abc");
    assert_eq!(name("\u{212a}btih:abc"), "torrent_abc");
    assert_eq!(name("\u{130}btih:"), "torrent_");
    assert_eq!(name("\u{130}BtIh:\u{4e2d}"), "torrent_\u{4e2d}");
    assert_eq!(name("bt\u{130}h:abc"), "unknown");
    assert_eq!(name("btihbtih:btih:x"), "torrent_btih");
}

#[test]
fn a_plain_value_is_the_name() {
    for value in ["a", "Some.Name-2024", "x+y", ""] {
        assert_eq!(App::extract_name(&format!("magnet:?dn={}&tr=t", value)), value);
    }
}

#[test]
fn fallback_names_are_short() {
    for hash in ["", "1", "12345678", "123456789", "abcdefghijklmnop"] {
        let got = name(&format!("urn:btih:{}", hash));
        assert_eq!(got, format!("torrent_{}", &hash[..hash.len().min(8)]));
    }
}

#[test]
fn both_sources_can_be_asked_alone() {
    assert_eq!(name_from_dn("dn=a%20b"), Some("a b".to_string()));
    assert_eq!(name_from_dn("btih:abc"), None);
    assert_eq!(name_from_hash("BTIH:ABC"), "torrent_ABC");
    assert_eq!(name_from_hash("dn=a&xt=urn:btih:1234"), "torrent_1234");
    assert_eq!(name_from_hash("x"), "unknown");
}
