use torrent_scraping::app::App;

#[test]
fn escapes_are_dropped() {
    assert_eq!(App::strip_ansi("\u{1b}[1;32mgreen\u{1b}[0m text"), "green text");
    assert_eq!(App::strip_ansi("\u{1b}[2K\r[#abc 1/2]"), "\r[#abc 1/2]");
    assert_eq!(App::strip_ansi("a\u{1b}b"), "ab");
    assert_eq!(App::strip_ansi("\u{1b}\u{1b}[mx"), "x");
    assert_eq!(App::strip_ansi("x\u{1b}"), "x");
    assert_eq!(App::strip_ansi("x\u{1b}["), "x");
    assert_eq!(App::strip_ansi("x\u{1b}[12;34"), "x");
    assert_eq!(App::strip_ansi("\u{1b}[\u{e9}1mz"), "z");
}

#[test]
fn plain_text_is_kept() {
    for s in ["", "[#abc 1/2(50%)]", "\u{e9}\u{4e2d}[m", "a\tb"] {
        assert_eq!(App::strip_ansi(s), s);
    }
}

#[test]
fn stripping_twice_is_stripping_once() {
    for s in ["\u{1b}[0mx", "\u{1b}\u{1b}[[m", "a\u{1b}[3", "plain"] {
        let once = App::strip_ansi(s);
        assert_eq!(App::strip_ansi(&once), once);
        assert!(!once.contains('\u{1b}'));
    }
}

#[test]
fn nothing_but_escapes_goes() {
    for before in ["", "a", "\u{e9}[m 1/2"] {
        for rest in ["", "b", "[m", "\u{1b}[0mz", "x\u{1b}"] {
            let stripped = App::strip_ansi(rest);
            assert_eq!(App::strip_ansi(&format!("{}{}", before, rest)), format!("{}{}", before, stripped));
            for code in ["", "1;32", "[[", "\u{1b}"] {
                assert_eq!(App::strip_ansi(&format!("\u{1b}[{}m{}", code, rest)), stripped);
                assert_eq!(App::strip_ansi(&format!("\u{1b}[{}", code)), "");
            }
        }
    }
    assert_eq!(App::strip_ansi("\u{1b}(B"), "(B");
}
