use torrent_scraping::app::{App, ArchiveStep, Schedule, Setback};
use torrent_scraping::config::{ArchiveConfig, Config, DownloadConfig, StateConfig};
use torrent_scraping::torrent::{
    AppState, DetailedTorrent, TorrentItem, TorrentList, TorrentState, TorrentStatus,
};

fn config() -> Config {
    Config {
        torrent_list: "torrents.json".to_string(),
        download: DownloadConfig {
            max_concurrent: 4,
            download_dir: "./downloads".to_string(),
            timeout: 300,
            max_download_speed: None,
            max_upload_speed: None,
            seed_ratio: None,
            bt_tracker: None,
        },
        archive: ArchiveConfig {
            enabled: false,
            archive_dir: "./archives".to_string(),
            compression_level: 0,
            delete_after_archive: false,
        },
        state: StateConfig { state_file: "state.json".to_string(), save_interval: 30 },
    }
}

fn torrent(link: &str, status: TorrentStatus) -> TorrentState {
    TorrentState { name: "n".to_string(), link: link.to_string(), status, error: None }
}

fn strings(v: &[&str]) -> Vec<String> {
    v.iter().map(|s| s.to_string()).collect()
}

fn links(app: &App) -> Vec<String> {
    app.state.torrents.iter().map(|t| t.link.clone()).collect()
}

#[test]
fn both_list_formats_give_their_links() {
    let list = TorrentList {
        torrents: vec![
            TorrentItem::Simple("magnet:?a".to_string()),
            TorrentItem::Detailed(DetailedTorrent {
                magnet: "magnet:?b".to_string(),
                name: Some("b".to_string()),
            }),
            TorrentItem::Detailed(DetailedTorrent { magnet: "magnet:?c".to_string(), name: None }),
        ],
    };
    assert_eq!(list.into_links(), ["magnet:?a", "magnet:?b", "magnet:?c"]);
    assert_eq!(TorrentItem::Simple("x".to_string()).into_link(), "x");
}

#[test]
fn a_missing_state_is_empty() {
    assert!(AppState::default().torrents.is_empty());
    assert!(AppState::load(None).torrents.is_empty());
    let kept = AppState { torrents: vec![torrent("a", TorrentStatus::Failed)] };
    assert_eq!(AppState::load(Some(kept)).torrents.len(), 1);
}

#[test]
fn new_links_are_registered_once() {
    let kept = AppState { torrents: vec![torrent("dn=old", TorrentStatus::Downloaded)] };
    let mut app = App::new(config(), kept);
    let list = strings(&["dn=new", "dn=old", "dn=new", "btih:12"]);
    assert_eq!(app.plan(&list), 3);
    assert_eq!(app.total_torrents, 3);
    app.register_links(&list);
    assert_eq!(links(&app), ["dn=old", "dn=new", "btih:12"]);
    assert_eq!(app.state.torrents[0].name, "n");
    assert_eq!(app.state.torrents[0].status, TorrentStatus::Downloaded);
    assert_eq!(app.state.torrents[1].name, "new");
    assert_eq!(app.state.torrents[1].status, TorrentStatus::Pending);
    assert_eq!(app.state.torrents[1].error, None);
    assert_eq!(app.state.torrents[2].name, "torrent_12");
    app.register_links(&list);
    assert_eq!(links(&app).len(), 3);
}

#[test]
fn every_link_can_be_registered() {
    let mut app = App::new(config(), AppState::load(None));
    app.register_links(&strings(&["dn=a", "\u{130}btih:", "", "dn=b"]));
    assert_eq!(links(&app), ["dn=a", "\u{130}btih:", "", "dn=b"]);
    assert_eq!(app.state.torrents[1].name, "torrent_");
    assert_eq!(app.state.torrents[2].name, "unknown");
    assert_eq!(app.start_download("\u{130}btih:"), "torrent_");
}

#[test]
fn finished_links_are_skipped() {
    let kept = AppState {
        torrents: vec![
            torrent("a", TorrentStatus::Pending),
            torrent("b", TorrentStatus::Downloading),
            torrent("c", TorrentStatus::Downloaded),
            torrent("d", TorrentStatus::Archiving),
            torrent("e", TorrentStatus::Archived),
            torrent("f", TorrentStatus::Failed),
        ],
    };
    let mut app = App::new(config(), kept);
    let decisions: Vec<Schedule> =
        ["a", "b", "c", "d", "e", "f", "g"].iter().map(|l| app.schedule(l)).collect();
    assert_eq!(
        decisions,
        [
            Schedule::Start,
            Schedule::Start,
            Schedule::Skip,
            Schedule::Start,
            Schedule::Skip,
            Schedule::Start,
            Schedule::Start,
        ]
    );
    assert_eq!(app.plan(&strings(&["a", "b", "c", "d", "e", "f", "g"])), 5);
    app.request_shutdown();
    assert_eq!(app.schedule("a"), Schedule::Stop);
    assert_eq!(app.schedule("c"), Schedule::Stop);
}

#[test]
fn the_later_of_two_entries_counts() {
    let kept = AppState {
        torrents: vec![
            torrent("a", TorrentStatus::Downloaded),
            torrent("a", TorrentStatus::Failed),
        ],
    };
    assert_eq!(App::new(config(), kept).schedule("a"), Schedule::Start);
}

#[test]
fn a_download_goes_through_its_steps() {
    let mut app = App::new(config(), AppState::load(None));
    app.register_links(&strings(&["dn=a", "dn=b"]));
    assert_eq!(app.start_download("dn=a"), "a");
    assert_eq!(app.start_download("dn=b"), "b");
    assert_eq!(app.get_total_bytes(), 0);
    app.record_progress("dn=a", 100);
    app.record_progress("dn=b", 7);
    app.record_progress("dn=a", 150);
    assert_eq!(app.try_total_bytes(), Some(157));
    app.finish_download("dn=a", 150);
    assert_eq!(app.get_total_bytes(), 157);
    assert_eq!(app.completed_torrents, 1);
    assert_eq!(app.completed_bytes, 150);
    assert_eq!(app.schedule("dn=a"), Schedule::Skip);
    assert_eq!(app.fail_download("dn=b"), Setback::Failed);
    assert_eq!(app.get_total_bytes(), 150);
    assert_eq!(app.schedule("dn=b"), Schedule::Start);
    app.sync_state();
    assert_eq!(app.state.torrents[0].status, TorrentStatus::Downloaded);
    assert_eq!(app.state.torrents[1].status, TorrentStatus::Failed);
}

#[test]
fn an_interrupted_download_keeps_its_status() {
    let mut app = App::new(config(), AppState::load(None));
    app.register_links(&strings(&["dn=a"]));
    app.start_download("dn=a");
    app.record_progress("dn=a", 42);
    app.request_shutdown();
    assert_eq!(app.fail_download("dn=a"), Setback::Interrupted(42));
    assert_eq!(app.fail_download("dn=a"), Setback::Interrupted(0));
    app.sync_state();
    assert_eq!(app.state.torrents[0].status, TorrentStatus::Downloading);
}

#[test]
fn a_total_that_does_not_fit_is_none() {
    let mut app = App::new(config(), AppState::load(None));
    app.record_progress("a", u64::MAX);
    assert_eq!(app.try_total_bytes(), Some(u64::MAX));
    app.record_progress("b", 1);
    assert_eq!(app.try_total_bytes(), None);
    app.finish_download("a", u64::MAX);
    assert_eq!(app.try_total_bytes(), None);
    app.finish_download("b", 1);
    assert_eq!(app.get_total_bytes(), 0);
    assert_eq!(app.completed_torrents, 2);
}

#[test]
fn a_session_is_resumed() {
    let list = strings(&["dn=a", "dn=b", "dn=c"]);
    let mut app = App::new(config(), AppState::load(None));
    app.register_links(&list);
    app.start_download("dn=a");
    app.finish_download("dn=a", 5);
    app.start_download("dn=b");
    app.sync_state();
    let mut next = App::new(config(), app.state);
    assert_eq!(next.plan(&list), 2);
    next.register_links(&list);
    assert_eq!(next.schedule("dn=a"), Schedule::Skip);
    assert_eq!(next.schedule("dn=b"), Schedule::Start);
    assert_eq!(next.schedule("dn=c"), Schedule::Start);
    assert_eq!(next.state.torrents.len(), 3);
}

#[test]
fn an_archive_goes_through_its_steps() {
    let mut app = App::new(config(), AppState::load(None));
    app.register_links(&strings(&["dn=a", "dn=b%20c"]));
    assert!(matches!(app.begin_archive("dn=x"), ArchiveStep::Skip));
    match app.begin_archive("dn=b%20c") {
        ArchiveStep::Pack(name) => assert_eq!(name, "b c"),
        _ => panic!("not packed"),
    }
    app.sync_state();
    assert_eq!(app.state.torrents[1].status, TorrentStatus::Archiving);
    app.finish_archive("dn=b%20c", true);
    assert_eq!(app.schedule("dn=b%20c"), Schedule::Skip);
    app.finish_archive("dn=b%20c", false);
    assert_eq!(app.schedule("dn=b%20c"), Schedule::Start);
    app.sync_state();
    assert_eq!(app.state.torrents[1].status, TorrentStatus::Failed);
    assert_eq!(app.state.torrents[0].status, TorrentStatus::Pending);
    app.request_shutdown();
    assert!(matches!(app.begin_archive("dn=a"), ArchiveStep::Stop));
}

#[test]
fn of_two_links_of_one_name_the_downloaded_one_is_archived() {
    let a = "magnet:?dn=x&xt=urn:btih:a";
    let b = "magnet:?dn=x&xt=urn:btih:b";
    for (first, second) in [(a, b), (b, a)] {
        let mut app = App::new(config(), AppState::load(None));
        app.register_links(&strings(&[first, second]));
        assert_eq!(app.start_download(b), "x");
        app.fail_download(b);
        assert_eq!(app.start_download(a), "x");
        app.finish_download(a, 1);
        match app.begin_archive(a) {
            ArchiveStep::Pack(name) => assert_eq!(name, "x"),
            _ => panic!("not packed"),
        }
        app.finish_archive(a, true);
        app.sync_state();
        for t in &app.state.torrents {
            let expected =
                if t.link == a { TorrentStatus::Archived } else { TorrentStatus::Failed };
            assert_eq!(t.status, expected);
        }
    }
}

#[test]
fn syncing_changes_statuses_alone() {
    let kept = AppState {
        torrents: vec![TorrentState {
            name: "n".to_string(),
            link: "dn=a".to_string(),
            status: TorrentStatus::Pending,
            error: Some("e".to_string()),
        }],
    };
    let mut app = App::new(config(), kept);
    app.start_download("dn=a");
    for _ in 0..2 {
        app.sync_state();
        let t = &app.state.torrents[0];
        assert_eq!(t.name, "n");
        assert_eq!(t.link, "dn=a");
        assert_eq!(t.error, Some("e".to_string()));
        assert_eq!(t.status, TorrentStatus::Downloading);
    }
}
