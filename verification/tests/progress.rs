use torrent_scraping::app::App;
use torrent_scraping::progress::{MonitorAction, SizeField, CANCELLED, SCAN_INTERVAL};
use torrent_scraping::sizes::{GB, MB};

fn fields(line: &str) -> Vec<(Option<u64>, Option<(String, u64)>)> {
    App::read_progress(line).fields.into_iter().map(|f: SizeField| (f.raw, f.scaled)).collect()
}

#[test]
fn byte_counts_are_read() {
    let line = App::read_progress("[#abc123 1234567/9876543(12%) CN:4 DL:100]");
    assert!(line.is_progress);
    assert_eq!(line.fields.len(), 1);
    assert_eq!(line.fields[0].raw, Some(1234567));
    assert_eq!(line.fields[0].scaled, None);
    assert_eq!(App::reported_bytes(&line.fields, &vec![None]), Some(1234567));
}

#[test]
fn human_readable_counts_are_read() {
    let got = fields("[#abc123 1.2GiB/3.5GiB(34%) CN:4]");
    assert_eq!(got, vec![(None, Some(("1.2".to_string(), GB)))]);
    let line = App::read_progress("[#abc123 1.2GiB/3.5GiB(34%)]");
    assert_eq!(App::reported_bytes(&line.fields, &vec![Some(1288490188)]), Some(1288490188));
    assert_eq!(App::reported_bytes(&line.fields, &vec![None]), None);
}

#[test]
fn escape_codes_do_not_count() {
    let got = fields("\u{1b}[32m[#a\u{1b}[0m 5/\u{1b}[1m6(1%)");
    assert_eq!(got, vec![(Some(5), None)]);
}

#[test]
fn other_words_give_nothing() {
    assert!(fields("[#1 FILE:/tmp/x]").is_empty());
    assert!(fields("[#1 [1/2]").is_empty());
    assert!(fields("[#1 12(3/4)").is_empty());
    assert!(fields("[#1 nothing here").is_empty());
    assert_eq!(fields("[#1 x/y /z 2/"), vec![(None, None), (None, None), (Some(2), None)]);
}

#[test]
fn other_lines_give_nothing() {
    let line = App::read_progress("1/2 and 3MiB/4MiB");
    assert!(!line.is_progress);
    assert!(line.fields.is_empty());
    assert!(!App::read_progress("").is_progress);
}

#[test]
fn the_first_positive_amount_counts() {
    let line = App::read_progress("[# 0/9 0MiB/9 5MiB/9 7/9");
    assert_eq!(line.fields.len(), 4);
    assert_eq!(line.fields[1].scaled, Some(("0".to_string(), MB)));
    let scaled = vec![None, Some(0), Some(5 * MB), None];
    assert_eq!(App::reported_bytes(&line.fields, &scaled), Some(5 * MB));
    let scaled = vec![None, Some(0), None, None];
    assert_eq!(App::reported_bytes(&line.fields, &scaled), Some(7));
    let zero = App::read_progress("[# 0/9");
    assert_eq!(App::reported_bytes(&zero.fields, &vec![Some(0)]), None);
}

#[test]
fn lines_lead_to_actions() {
    assert_eq!(App::monitor_action(true, Some(5), 0), MonitorAction::Record(5));
    assert_eq!(App::monitor_action(true, None, SCAN_INTERVAL), MonitorAction::Wait);
    assert_eq!(App::monitor_action(true, None, SCAN_INTERVAL + 1), MonitorAction::Scan);
    assert_eq!(App::monitor_action(false, None, SCAN_INTERVAL + 1), MonitorAction::Wait);
    assert_eq!(App::monitor_action(false, Some(1), 0), MonitorAction::Wait);
    assert_eq!(SCAN_INTERVAL, 2_000_000_000);
}

#[test]
fn scans_count_when_they_find_something() {
    assert_eq!(App::scanned_bytes(Some(5)), Some(5));
    assert_eq!(App::scanned_bytes(Some(0)), None);
    assert_eq!(App::scanned_bytes(None), None);
}

#[test]
fn downloads_end_with_bytes_or_a_message() {
    assert!(App::needs_measure(0));
    assert!(!App::needs_measure(7));
    assert_eq!(App::final_bytes(7, Some(9)), 7);
    assert_eq!(App::final_bytes(0, Some(9)), 9);
    assert_eq!(App::final_bytes(0, None), 0);
    assert_eq!(App::download_outcome(true, "exit status: 0", 7), Ok(7));
    assert_eq!(
        App::download_outcome(false, "exit status: 7", 7),
        Err("aria2c exited with status: exit status: 7".to_string())
    );
    assert_eq!(CANCELLED, "Download cancelled");
}

#[test]
fn sizes_are_summed() {
    assert_eq!(App::sum_sizes(&vec![]), Some(0));
    assert_eq!(App::sum_sizes(&vec![1, 2, 3]), Some(6));
    assert_eq!(App::sum_sizes(&vec![u64::MAX]), Some(u64::MAX));
    assert_eq!(App::sum_sizes(&vec![u64::MAX, 0, 1]), None);
}
