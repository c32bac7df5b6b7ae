use torrent_scraping::app::App;

#[test]
fn each_cause_is_recognised() {
    let cases = [
        ("Timeout while connecting", "Connection timed out - no peers found or slow network"),
        ("request TIMED OUT", "Connection timed out - no peers found or slow network"),
        ("no peer responded", "No seeders available for this torrent"),
        ("0 Seeders", "No seeders available for this torrent"),
        ("Metadata missing", "Could not fetch torrent metadata - torrent may be dead"),
        ("Download cancelled", "Download was cancelled by user"),
        ("INTERRUPTED", "Download was cancelled by user"),
        (
            "aria2c exited with status: exit status: 7",
            "aria2c error: No peers/seeders found after timeout",
        ),
        ("aria2c exited with status: exit status: 3", "aria2c error: Resource not found"),
        ("aria2c exited with status: exit status: 24", "aria2c error: HTTP authorization failed"),
        ("Disk full", "Disk full or write error"),
        ("not enough SPACE", "Disk full or write error"),
        ("Permission denied", "Permission denied - check folder access"),
        ("something else", "Unknown error - check if torrent is still active"),
        ("", "Unknown error - check if torrent is still active"),
    ];
    for (message, reason) in cases {
        assert_eq!(App::get_failure_reason(message), reason, "{}", message);
    }
}

#[test]
fn the_first_cause_counts() {
    assert_eq!(
        App::get_failure_reason("permission timeout"),
        "Connection timed out - no peers found or slow network"
    );
    assert_eq!(App::get_failure_reason("exit 37"), "aria2c error: No peers/seeders found after timeout");
    assert_eq!(App::get_failure_reason("exit 243"), "aria2c error: Resource not found");
}

#[test]
fn a_lower_case_message_is_taken_as_it_is() {
    assert_eq!(App::classify_failure("disk"), "Disk full or write error");
    assert_eq!(
        App::classify_failure("DISK"),
        "Unknown error - check if torrent is still active"
    );
}
