use torrent_scraping::app::App;
use torrent_scraping::sizes::{GB, KB, MB, TB};

/// The same text by way of floating point.
fn by_float(bytes: u64) -> String {
    if bytes >= TB {
        format!("{:.2} TB", bytes as f64 / TB as f64)
    } else if bytes >= GB {
        format!("{:.2} GB", bytes as f64 / GB as f64)
    } else if bytes >= MB {
        format!("{:.2} MB", bytes as f64 / MB as f64)
    } else if bytes >= KB {
        format!("{:.2} KB", bytes as f64 / KB as f64)
    } else {
        format!("{} B", bytes)
    }
}

#[test]
fn sizes_have_the_largest_fitting_unit() {
    assert_eq!(App::format_bytes(0), "0 B");
    assert_eq!(App::format_bytes(1023), "1023 B");
    assert_eq!(App::format_bytes(1024), "1.00 KB");
    assert_eq!(App::format_bytes(1536), "1.50 KB");
    assert_eq!(App::format_bytes(1048575), "1024.00 KB");
    assert_eq!(App::format_bytes(1048576), "1.00 MB");
    assert_eq!(App::format_bytes(5 * GB + GB / 4), "5.25 GB");
    assert_eq!(App::format_bytes(3 * TB), "3.00 TB");
    assert_eq!(App::format_bytes(u64::MAX), "16777216.00 TB");
}

#[test]
fn sizes_agree_with_floating_point() {
    for unit in [KB, MB, GB, TB] {
        for k in 0..4096_u64 {
            let bytes = unit + k * (unit / 1024) + k / 3;
            assert_eq!(App::format_bytes(bytes), by_float(bytes), "{}", bytes);
        }
    }
    for k in 0..3000_u64 {
        assert_eq!(App::format_bytes(k), by_float(k));
    }
    let mut bytes: u64 = 1;
    for k in 0..20000_u64 {
        bytes = bytes.wrapping_mul(6364136223846793005).wrapping_add(1442695040888963407 + k);
        let shown = bytes >> (k % 64);
        assert_eq!(App::format_bytes(shown), by_float(shown), "{}", shown);
    }
}

#[test]
fn ties_go_to_the_even_place() {
    for bytes in [1024 + 128, 1024 + 384, 1024 + 640, 1024 + 896, 5 * MB / 4 + MB / 8] {
        assert_eq!(App::format_bytes(bytes), by_float(bytes));
    }
    assert_eq!(App::format_bytes(1152), "1.12 KB");
    assert_eq!(App::format_bytes(1408), "1.38 KB");
}

#[test]
fn sizes_beyond_the_exact_range_agree_with_floating_point() {
    let limit: u64 = 1 << 53;
    for k in 0..4000_u64 {
        for bytes in [limit + k, 2 * limit + k, u64::MAX - k, (1 << 63) + 1023 * k] {
            assert_eq!(App::format_bytes(bytes), by_float(bytes), "{}", bytes);
        }
    }
    // Ties in hundredths of a terabyte, a byte apart.
    for k in 0..2000_u64 {
        let tie = limit + k * (TB / 8);
        for bytes in [tie - 1, tie, tie + 1] {
            assert_eq!(App::format_bytes(bytes), by_float(bytes), "{}", bytes);
        }
    }
}

#[test]
fn messages_show_the_total() {
    assert_eq!(App::progress_message(0), "0 B downloaded");
    assert_eq!(App::progress_message(2048), "2.00 KB downloaded");
    assert_eq!(App::done_message(3 * MB), "Done! 3.00 MB total");
}

#[test]
fn sizes_are_split_from_their_units() {
    assert_eq!(App::split_size("1.2GiB"), Some(("1.2".to_string(), GB)));
    assert_eq!(App::split_size("34MiB"), Some(("34".to_string(), MB)));
    assert_eq!(App::split_size(" 7.5KiB\n"), Some(("7.5".to_string(), KB)));
    assert_eq!(App::split_size("512B"), Some(("512".to_string(), 1)));
    assert_eq!(App::split_size("GiB"), Some(("".to_string(), GB)));
    assert_eq!(App::split_size("5TiB"), Some(("5Ti".to_string(), 1)));
    assert_eq!(App::split_size("123"), None);
    assert_eq!(App::split_size(""), None);
    assert_eq!(App::split_size("5gib"), None);
}
