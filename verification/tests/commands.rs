use torrent_scraping::app::App;
use torrent_scraping::archive::Cleanup;
use torrent_scraping::config::DownloadConfig;

fn config() -> DownloadConfig {
    DownloadConfig {
        max_concurrent: 4,
        download_dir: "./downloads".to_string(),
        timeout: 300,
        max_download_speed: None,
        max_upload_speed: None,
        seed_ratio: None,
        bt_tracker: None,
    }
}

const TRACKERS: &str = "--bt-tracker=udp://tracker.opentrackr.org:1337/announce,\
udp://open.tracker.cl:1337/announce,udp://tracker.openbittorrent.com:6969/announce,\
udp://open.stealth.si:80/announce,udp://tracker.torrent.eu.org:451/announce,\
udp://exodus.desync.com:6969/announce,udp://tracker.moeking.me:6969/announce,\
udp://explodie.org:6969/announce,udp://tracker1.bt.moack.co.kr:80/announce,\
udp://tracker.theoks.net:6969/announce";

#[test]
fn aria2c_gets_its_basic_arguments() {
    let expected = [
        "magnet:?x",
        "-d",
        "./downloads",
        "--seed-time=0",
        "--bt-stop-timeout=600",
        "--summary-interval=1",
        "--console-log-level=notice",
        "--download-result=hide",
        "--allow-overwrite=true",
        "--auto-file-renaming=false",
        "--bt-enable-lpd=true",
        "--enable-dht=true",
        "--dht-listen-port=6881-6999",
        "--enable-peer-exchange=true",
        "--bt-max-peers=200",
        "--bt-request-peer-speed-limit=10M",
        "--max-connection-per-server=16",
        "--split=16",
        "--min-split-size=1M",
        "--bt-tracker-connect-timeout=10",
        "--bt-tracker-timeout=30",
        "--human-readable=false",
        TRACKERS,
        "--bt-tracker-timeout=300",
        "--timeout=300",
    ];
    assert_eq!(App::aria2c_args("magnet:?x", &config()), expected);
}

#[test]
fn settings_are_handed_on_to_aria2c() {
    let mut c = config();
    c.max_download_speed = Some("10M".to_string());
    c.max_upload_speed = Some("100K".to_string());
    c.seed_ratio = Some("0.5".to_string());
    c.bt_tracker = Some(vec!["udp://a".to_string(), "udp://b".to_string()]);
    c.timeout = 60;
    let args = App::aria2c_args("magnet:?x", &c);
    assert_eq!(args[2], "./downloads");
    assert_eq!(args[3], "--bt-stop-timeout=600");
    assert_eq!(
        args[22..].to_vec(),
        [
            "--max-download-limit=10M",
            "--max-upload-limit=100K",
            "--seed-ratio=0.5",
            "--bt-tracker=udp://a,udp://b",
            "--bt-tracker-timeout=60",
            "--timeout=60",
        ]
    );
}

#[test]
fn seeding_can_be_configured() {
    let stop = "--seed-time=0".to_string();
    let mut c = config();
    assert!(App::aria2c_args("magnet:?x", &c).contains(&stop));
    c.seed_ratio = Some("0".to_string());
    let args = App::aria2c_args("magnet:?x", &c);
    assert_eq!(args[3], stop);
    assert!(args.contains(&"--seed-ratio=0".to_string()));
    c.seed_ratio = Some("1.5".to_string());
    let args = App::aria2c_args("magnet:?x", &c);
    assert!(!args.contains(&stop));
    assert!(args.contains(&"--seed-ratio=1.5".to_string()));
    for option in ["--enable-dht=true", "--enable-peer-exchange=true", "--bt-enable-lpd=true"] {
        assert!(args.contains(&option.to_string()));
    }
}

#[test]
fn the_version_is_the_first_line() {
    assert_eq!(App::aria2c_version(true, "aria2 version 1.36.0\nmore"), Ok("aria2 version 1.36.0".to_string()));
    assert_eq!(App::aria2c_version(true, "a\r\nb"), Ok("a".to_string()));
    assert_eq!(App::aria2c_version(true, "a\r"), Ok("a\r".to_string()));
    assert_eq!(App::aria2c_version(true, "\nb"), Ok("".to_string()));
    assert_eq!(App::aria2c_version(true, ""), Ok("unknown".to_string()));
    assert_eq!(App::aria2c_version(false, "a"), Err("aria2c check failed".to_string()));
    for s in ["", "\n", "\r\n", "a", "a\n", "a\r\nb\n", "\r", "a\rb\n"] {
        let expected = s.lines().next().unwrap_or("unknown").to_string();
        assert_eq!(App::aria2c_version(true, s), Ok(expected));
    }
}

#[test]
fn archives_are_packed_by_7z() {
    assert_eq!(App::archive_file_name("Ubuntu"), "Ubuntu.7z");
    assert_eq!(App::archive_args(9, "out/U.7z", "dl/U"), ["a", "-mx=9", "out/U.7z", "dl/U"]);
    assert_eq!(App::archive_args(0, "o", "s")[1], "-mx=0");
    assert_eq!(App::archive_source(true, "own".to_string(), "dir".to_string()), "own");
    assert_eq!(App::archive_source(false, "own".to_string(), "dir".to_string()), "dir");
    assert_eq!(App::archive_outcome(true, "x"), Ok(()));
    assert_eq!(App::archive_outcome(false, "x"), Err("7z failed: x".to_string()));
}

#[test]
fn sources_are_removed_only_on_request() {
    assert_eq!(App::cleanup_action(false, true, true), Cleanup::Keep);
    assert_eq!(App::cleanup_action(true, false, true), Cleanup::Keep);
    assert_eq!(App::cleanup_action(true, true, true), Cleanup::RemoveDirectory);
    assert_eq!(App::cleanup_action(true, true, false), Cleanup::RemoveFile);
}
