use torrent_scraping::numbers::{decimal_text, parse_u64};
use torrent_scraping::text::{
    begins_with, chars_of, ends_with, find_chars, has_text, join, position_of, same_text,
    split_words, string_of, trim_bounds, white_space,
};

#[test]
fn white_space_is_what_std_takes_for_it() {
    for code in 0..=0x10ffff_u32 {
        if let Some(c) = char::from_u32(code) {
            assert_eq!(white_space(c), c.is_whitespace(), "{:x}", code);
        }
    }
}

#[test]
fn words_are_split_at_white_space() {
    for s in ["", " ", "a", "  a  b\tc\n", "x\u{3000}y", "[#1 2/3(4%) CN:1]"] {
        let words = split_words(&chars_of(s));
        let got: Vec<String> = words.iter().map(|w| w.iter().collect()).collect();
        let expected: Vec<String> = s.split_whitespace().map(|w| w.to_string()).collect();
        assert_eq!(got, expected);
    }
}

#[test]
fn trimming_drops_white_space_at_both_ends() {
    for s in ["", "   ", "a", " a", "a ", " \t a b \n", "\u{a0}x\u{2003}"] {
        let v = chars_of(s);
        let (from, to) = trim_bounds(&v);
        assert_eq!(string_of(&v, from, to), s.trim());
    }
}

#[test]
fn searching_finds_the_first_place() {
    let hay = chars_of("abcabc");
    assert_eq!(find_chars(&hay, &chars_of("bc")), Some(1));
    assert_eq!(find_chars(&hay, &chars_of("")), Some(0));
    assert_eq!(find_chars(&hay, &chars_of("cb")), None);
    assert_eq!(find_chars(&chars_of(""), &chars_of("")), Some(0));
    assert_eq!(find_chars(&chars_of(""), &chars_of("a")), None);
    assert!(has_text(&hay, "cab"));
    assert!(!has_text(&hay, "abd"));
    assert_eq!(position_of(&hay, 'c'), 2);
    assert_eq!(position_of(&hay, 'x'), 6);
}

#[test]
fn prefixes_and_suffixes_are_seen() {
    let hay = chars_of("1.2GiB");
    assert!(begins_with(&hay, "1."));
    assert!(!begins_with(&hay, "2"));
    assert!(ends_with(&hay, "GiB"));
    assert!(ends_with(&hay, ""));
    assert!(!ends_with(&hay, "MiB"));
    assert!(!ends_with(&chars_of("B"), "GiB"));
    assert!(same_text("a", "a"));
    assert!(!same_text("a", "ab"));
    assert!(!same_text("a", "b"));
}

#[test]
fn joining_puts_separators_between() {
    let parts = |v: &[&str]| v.iter().map(|s| s.to_string()).collect::<Vec<String>>();
    assert_eq!(join(&parts(&[]), ","), "");
    assert_eq!(join(&parts(&["a"]), ","), "a");
    assert_eq!(join(&parts(&["a", "b", "c"]), ", "), "a, b, c");
}

#[test]
fn numbers_are_written_as_std_writes_them() {
    for n in [0, 1, 9, 10, 11, 99, 100, 1234567, u64::MAX] {
        assert_eq!(decimal_text(n), n.to_string());
        assert_eq!(parse_u64(&decimal_text(n)), Some(n));
    }
}

#[test]
fn numbers_are_read_as_std_reads_them() {
    for s in [
        "", "+", "-", "0", "007", "+5", "++5", "-5", "12a", "a12", " 1", "1 ", "1.5",
        "18446744073709551615", "18446744073709551616", "99999999999999999999",
        "00000000000000000000000000001", "18446744073709551616x", "\u{0663}",
    ] {
        assert_eq!(parse_u64(s), s.parse::<u64>().ok(), "{}", s);
    }
}
