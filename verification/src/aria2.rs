//! How aria2c is called.

use crate::app::App;
use crate::config::DownloadConfig;
use crate::numbers::{decimal, decimal_text};
use crate::text::{
    chars_of, join, joined, law_a_character_is_found_where_it_is_first,
    law_a_missing_character_is_past_the_end, position_of, same_text, string_of, texts,
};
use vstd::prelude::*;

verus! {

/// Public trackers that help to find peers.
pub open spec fn default_trackers() -> Seq<Seq<char>> {
    seq![
        "udp://tracker.opentrackr.org:1337/announce"@,
        "udp://open.tracker.cl:1337/announce"@,
        "udp://tracker.openbittorrent.com:6969/announce"@,
        "udp://open.stealth.si:80/announce"@,
        "udp://tracker.torrent.eu.org:451/announce"@,
        "udp://exodus.desync.com:6969/announce"@,
        "udp://tracker.moeking.me:6969/announce"@,
        "udp://explodie.org:6969/announce"@,
        "udp://tracker1.bt.moack.co.kr:80/announce"@,
        "udp://tracker.theoks.net:6969/announce"@,
    ]
}

/// Whether a download is seeded once it is complete: only where a seed ratio other than zero is
/// set.
pub open spec fn seeds(config: DownloadConfig) -> bool {
    config.seed_ratio is Some && config.seed_ratio->0@ != "0"@
}

/// The argument that ends seeding at once, where a download is not to be seeded.
pub open spec fn seed_time_arg(config: DownloadConfig) -> Seq<Seq<char>> {
    if seeds(config) {
        seq![]
    } else {
        seq!["--seed-time=0"@]
    }
}

/// The options that every download is given.
pub open spec fn basic_options() -> Seq<Seq<char>> {
    seq![
        "--bt-stop-timeout=600"@,
        "--summary-interval=1"@,
        "--console-log-level=notice"@,
        "--download-result=hide"@,
        "--allow-overwrite=true"@,
        "--auto-file-renaming=false"@,
        "--bt-enable-lpd=true"@,
        "--enable-dht=true"@,
        "--dht-listen-port=6881-6999"@,
        "--enable-peer-exchange=true"@,
        "--bt-max-peers=200"@,
        "--bt-request-peer-speed-limit=10M"@,
        "--max-connection-per-server=16"@,
        "--split=16"@,
        "--min-split-size=1M"@,
        "--bt-tracker-connect-timeout=10"@,
        "--bt-tracker-timeout=30"@,
        "--human-readable=false"@,
        "--bt-tracker="@ + joined(default_trackers(), ","@),
    ]
}

/// An argument that is given only where its value is.
pub open spec fn optional_arg(name: Seq<char>, value: Option<String>) -> Seq<Seq<char>> {
    match value {
        Some(v) => seq![name + v@],
        None => seq![],
    }
}

/// The argument for the user's own trackers, where there are any.
pub open spec fn tracker_arg(trackers: Option<Vec<String>>) -> Seq<Seq<char>> {
    match trackers {
        Some(list) => seq!["--bt-tracker="@ + joined(texts(list@), ","@)],
        None => seq![],
    }
}

/// The options that the settings add.
pub open spec fn chosen_options(config: DownloadConfig) -> Seq<Seq<char>> {
    optional_arg("--max-download-limit="@, config.max_download_speed) + optional_arg(
        "--max-upload-limit="@,
        config.max_upload_speed,
    ) + optional_arg("--seed-ratio="@, config.seed_ratio) + tracker_arg(config.bt_tracker) + seq![
        "--bt-tracker-timeout="@ + decimal(config.timeout as nat),
        "--timeout="@ + decimal(config.timeout as nat),
    ]
}

/// The arguments with which aria2c downloads `link`.
pub open spec fn download_args(link: Seq<char>, config: DownloadConfig) -> Seq<Seq<char>> {
    seq![link, "-d"@, config.download_dir@] + seed_time_arg(config) + basic_options()
        + chosen_options(config)
}

/// Adds one argument.
fn push_arg(args: &mut Vec<String>, arg: &str)
    ensures
        texts(final(args)@) == texts(old(args)@).push(arg@),
{
    args.push(arg.to_owned());
    assert(texts(args@) == texts(old(args)@).push(arg@));
}

/// Adds one argument that is a name with its value.
fn push_option(args: &mut Vec<String>, name: &str, value: &str)
    ensures
        texts(final(args)@) == texts(old(args)@).push(name@ + value@),
{
    let mut arg = name.to_owned();
    arg.append(value);
    push_arg(args, arg.as_str());
}

/// Adds an argument where its value is given.
fn push_optional(args: &mut Vec<String>, name: &str, value: &Option<String>)
    ensures
        texts(final(args)@) == texts(old(args)@) + optional_arg(name@, *value),
{
    match value {
        Some(v) => push_option(args, name, v.as_str()),
        None => {},
    }
    assert(texts(args@) == texts(old(args)@) + optional_arg(name@, *value));
}

/// Public trackers that help to find peers.
fn trackers() -> (list: Vec<String>)
    ensures
        texts(list@) == default_trackers(),
{
    let mut list: Vec<String> = Vec::new();
    assert(texts(list@) == Seq::<Seq<char>>::empty());
    push_arg(&mut list, "udp://tracker.opentrackr.org:1337/announce");
    push_arg(&mut list, "udp://open.tracker.cl:1337/announce");
    push_arg(&mut list, "udp://tracker.openbittorrent.com:6969/announce");
    push_arg(&mut list, "udp://open.stealth.si:80/announce");
    push_arg(&mut list, "udp://tracker.torrent.eu.org:451/announce");
    push_arg(&mut list, "udp://exodus.desync.com:6969/announce");
    push_arg(&mut list, "udp://tracker.moeking.me:6969/announce");
    push_arg(&mut list, "udp://explodie.org:6969/announce");
    push_arg(&mut list, "udp://tracker1.bt.moack.co.kr:80/announce");
    push_arg(&mut list, "udp://tracker.theoks.net:6969/announce");
    list
}

/// Adds the options that every download is given.
fn push_basic_options(args: &mut Vec<String>)
    ensures
        texts(final(args)@) == texts(old(args)@) + basic_options(),
{
    let defaults = trackers();
    let list = join(&defaults, ",");
    push_arg(args, "--bt-stop-timeout=600");
    push_arg(args, "--summary-interval=1");
    push_arg(args, "--console-log-level=notice");
    push_arg(args, "--download-result=hide");
    push_arg(args, "--allow-overwrite=true");
    push_arg(args, "--auto-file-renaming=false");
    push_arg(args, "--bt-enable-lpd=true");
    push_arg(args, "--enable-dht=true");
    push_arg(args, "--dht-listen-port=6881-6999");
    push_arg(args, "--enable-peer-exchange=true");
    push_arg(args, "--bt-max-peers=200");
    push_arg(args, "--bt-request-peer-speed-limit=10M");
    push_arg(args, "--max-connection-per-server=16");
    push_arg(args, "--split=16");
    push_arg(args, "--min-split-size=1M");
    push_arg(args, "--bt-tracker-connect-timeout=10");
    push_arg(args, "--bt-tracker-timeout=30");
    push_arg(args, "--human-readable=false");
    push_option(args, "--bt-tracker=", list.as_str());
    assert(texts(args@) =~= texts(old(args)@) + basic_options());
}

/// Adds the options that the settings add.
fn push_chosen_options(args: &mut Vec<String>, config: &DownloadConfig)
    ensures
        texts(final(args)@) == texts(old(args)@) + chosen_options(*config),
{
    push_optional(args, "--max-download-limit=", &config.max_download_speed);
    push_optional(args, "--max-upload-limit=", &config.max_upload_speed);
    push_optional(args, "--seed-ratio=", &config.seed_ratio);
    let ghost before = texts(args@);
    match &config.bt_tracker {
        Some(list) => {
            let value = join(list, ",");
            push_option(args, "--bt-tracker=", value.as_str());
        },
        None => {},
    }
    assert(texts(args@) == before + tracker_arg(config.bt_tracker));
    let timeout = decimal_text(config.timeout);
    push_option(args, "--bt-tracker-timeout=", timeout.as_str());
    push_option(args, "--timeout=", timeout.as_str());
    assert(texts(args@) =~= texts(old(args)@) + chosen_options(*config));
}

impl App {
    /// The arguments with which aria2c downloads `link`.
    pub fn aria2c_args(link: &str, config: &DownloadConfig) -> (args: Vec<String>)
        ensures
            texts(args@) == download_args(link@, *config),
    {
        let mut args: Vec<String> = Vec::new();
        assert(texts(args@) == Seq::<Seq<char>>::empty());
        push_arg(&mut args, link);
        push_arg(&mut args, "-d");
        push_arg(&mut args, config.download_dir.as_str());
        let seeded = match &config.seed_ratio {
            Some(ratio) => !same_text(ratio.as_str(), "0"),
            None => false,
        };
        if !seeded {
            push_arg(&mut args, "--seed-time=0");
        }
        assert(texts(args@) =~= seq![link@, "-d"@, config.download_dir@] + seed_time_arg(*config));
        push_basic_options(&mut args);
        push_chosen_options(&mut args, config);
        args
    }
}

/// Whatever the settings, aria2c is told to download the link first of all, into the configured
/// directory, and to look for peers by DHT, by peer exchange and locally.
pub proof fn law_every_download_finds_peers(link: Seq<char>, config: DownloadConfig)
    ensures
        download_args(link, config)[0] == link,
        download_args(link, config)[1] == "-d"@,
        download_args(link, config)[2] == config.download_dir@,
        download_args(link, config).contains("--enable-dht=true"@),
        download_args(link, config).contains("--enable-peer-exchange=true"@),
        download_args(link, config).contains("--bt-enable-lpd=true"@),
{
    let args = download_args(link, config);
    let n: int = 3 + seed_time_arg(config).len() as int;
    assert(args[n + 6] == "--bt-enable-lpd=true"@);
    assert(args[n + 7] == "--enable-dht=true"@);
    assert(args[n + 9] == "--enable-peer-exchange=true"@);
}

/// None of the options that every download is given ends seeding.
proof fn lemma_basic_options_leave_seeding(i: int)
    requires
        0 <= i < basic_options().len(),
    ensures
        basic_options()[i] != "--seed-time=0"@,
{
    reveal_strlit("--seed-time=0");
    reveal_strlit("--bt-stop-timeout=600");
    reveal_strlit("--summary-interval=1");
    reveal_strlit("--console-log-level=notice");
    reveal_strlit("--download-result=hide");
    reveal_strlit("--allow-overwrite=true");
    reveal_strlit("--auto-file-renaming=false");
    reveal_strlit("--bt-enable-lpd=true");
    reveal_strlit("--enable-dht=true");
    reveal_strlit("--dht-listen-port=6881-6999");
    reveal_strlit("--enable-peer-exchange=true");
    reveal_strlit("--bt-max-peers=200");
    reveal_strlit("--bt-request-peer-speed-limit=10M");
    reveal_strlit("--max-connection-per-server=16");
    reveal_strlit("--split=16");
    reveal_strlit("--min-split-size=1M");
    reveal_strlit("--bt-tracker-connect-timeout=10");
    reveal_strlit("--bt-tracker-timeout=30");
    reveal_strlit("--human-readable=false");
    reveal_strlit("--bt-tracker=");
    let options = basic_options();
    assert(options[18][3] == 't');
    assert(options[i][3] != 'e');
}

/// None of the options that the settings add ends seeding.
proof fn lemma_chosen_options_leave_seeding(config: DownloadConfig, i: int)
    requires
        0 <= i < chosen_options(config).len(),
    ensures
        chosen_options(config)[i] != "--seed-time=0"@,
{
    reveal_strlit("--seed-time=0");
    reveal_strlit("--max-download-limit=");
    reveal_strlit("--max-upload-limit=");
    reveal_strlit("--seed-ratio=");
    reveal_strlit("--bt-tracker=");
    reveal_strlit("--bt-tracker-timeout=");
    reveal_strlit("--timeout=");
    let arg = chosen_options(config)[i];
    assert(arg[2] == 'm' || arg[2] == 'b' || arg[2] == 't' || arg[7] == 'r');
}

/// Seeding can be configured: without a seed ratio, or with a ratio of zero, aria2c is told to end
/// seeding at once; with any other ratio it is told the ratio, and none of its options ends seeding.
pub proof fn law_seeding_can_be_configured(link: Seq<char>, config: DownloadConfig)
    ensures
        !seeds(config) ==> download_args(link, config)[3] == "--seed-time=0"@,
        seeds(config) ==> {
            &&& download_args(link, config).contains("--seed-ratio="@ + config.seed_ratio->0@)
            &&& !download_args(link, config).skip(3).contains("--seed-time=0"@)
        },
        seeds(config) && link != "--seed-time=0"@ && config.download_dir@ != "--seed-time=0"@
            ==> !download_args(link, config).contains("--seed-time=0"@),
{
    let args = download_args(link, config);
    if seeds(config) {
        law_settings_are_handed_on(link, config);
        let n = basic_options().len();
        assert forall|i: int| 3 <= i < args.len() implies args[i] != "--seed-time=0"@ by {
            if i < 3 + n {
                assert(args[i] == basic_options()[i - 3]);
                lemma_basic_options_leave_seeding(i - 3);
            } else {
                assert(args[i] == chosen_options(config)[i - 3 - n]);
                lemma_chosen_options_leave_seeding(config, i - 3 - n);
            }
        }
        assert forall|i: int| 0 <= i < args.skip(3).len() implies args.skip(3)[i] != "--seed-time=0"@ by {
            assert(args.skip(3)[i] == args[i + 3]);
        }
        reveal_strlit("-d");
        reveal_strlit("--seed-time=0");
        assert(args[0] == link && args[1] == "-d"@ && args[2] == config.download_dir@);
    }
}

/// A speed limit, a seed ratio or a tracker list is handed on where it is set, and the timeout
/// always.
pub proof fn law_settings_are_handed_on(link: Seq<char>, config: DownloadConfig)
    ensures
        config.max_download_speed is Some ==> download_args(link, config).contains(
            "--max-download-limit="@ + config.max_download_speed->0@,
        ),
        config.max_upload_speed is Some ==> download_args(link, config).contains(
            "--max-upload-limit="@ + config.max_upload_speed->0@,
        ),
        config.seed_ratio is Some ==> download_args(link, config).contains(
            "--seed-ratio="@ + config.seed_ratio->0@,
        ),
        config.bt_tracker is Some ==> download_args(link, config).contains(
            "--bt-tracker="@ + joined(texts(config.bt_tracker->0@), ","@),
        ),
        download_args(link, config).contains("--timeout="@ + decimal(config.timeout as nat)),
        download_args(link, config).last() == "--timeout="@ + decimal(config.timeout as nat),
{
    let args = download_args(link, config);
    let n0: int = 3 + seed_time_arg(config).len() as int + basic_options().len();
    let down = optional_arg("--max-download-limit="@, config.max_download_speed);
    let up = optional_arg("--max-upload-limit="@, config.max_upload_speed);
    let ratio = optional_arg("--seed-ratio="@, config.seed_ratio);
    let own = tracker_arg(config.bt_tracker);
    if config.max_download_speed is Some {
        assert(args[n0] == down[0]);
    }
    if config.max_upload_speed is Some {
        assert(args[n0 + down.len()] == up[0]);
    }
    if config.seed_ratio is Some {
        assert(args[n0 + down.len() + up.len()] == ratio[0]);
    }
    if config.bt_tracker is Some {
        assert(args[n0 + down.len() + up.len() + ratio.len()] == own[0]);
    }
    assert(args.last() == "--timeout="@ + decimal(config.timeout as nat));
    assert(args.contains(args.last()));
}

/// The first line of `s`, without its line end; none where there is no line at all.
pub open spec fn first_line(s: Seq<char>) -> Option<Seq<char>> {
    let end = crate::text::char_position(s, '\n');
    let line = s.take(end);
    if s.len() == 0 {
        None
    } else if end < s.len() && line.len() > 0 && line.last() == '\r' {
        Some(line.drop_last())
    } else {
        Some(line)
    }
}

/// What a check for aria2c finds.
pub open spec fn version_in(success: bool, stdout: Seq<char>) -> Result<Seq<char>, Seq<char>> {
    if success {
        Ok(
            match first_line(stdout) {
                Some(text) => text,
                None => "unknown"@,
            },
        )
    } else {
        Err("aria2c check failed"@)
    }
}

impl App {
    /// What a check for aria2c finds: the first line that it prints of its version, or a message
    /// where it does not succeed.
    pub fn aria2c_version(success: bool, stdout: &str) -> (r: Result<String, String>)
        ensures
            match r {
                Ok(line) => version_in(success, stdout@) == Ok::<Seq<char>, Seq<char>>(line@),
                Err(message) => version_in(success, stdout@) == Err::<Seq<char>, Seq<char>>(
                    message@,
                ),
            },
    {
        if !success {
            return Err("aria2c check failed".to_owned());
        }
        let v = chars_of(stdout);
        let n: usize = v.len();
        if n == 0 {
            return Ok("unknown".to_owned());
        }
        let end: usize = position_of(&v, '\n');
        let stop: usize = if end < n && end > 0 && v[end - 1] == '\r' {
            end - 1
        } else {
            end
        };
        let line = string_of(&v, 0, stop);
        assert(end > 0 ==> v@.take(end as int).drop_last() =~= v@.take(end - 1));
        assert(line@ == v@.take(stop as int));
        Ok(line)
    }
}

/// The option stands among the arguments behind the link and the directory.
pub open spec fn has_option(args: Seq<Seq<char>>, name: Seq<char>) -> bool {
    exists|i: int| 3 <= i < args.len() && name.is_prefix_of(#[trigger] args[i])
}

/// How the options that every download is given begin.
proof fn lemma_basic_options_begin(i: int)
    requires
        0 <= i < basic_options().len(),
    ensures
        basic_options()[i].len() > 8,
        basic_options()[i][6] != 'd' || basic_options()[i][2] != 'm',
        basic_options()[i][6] != 'u' || basic_options()[i][2] != 'm',
        basic_options()[i][3] != 'e',
        i < 18 ==> basic_options()[i].len() < 13 || basic_options()[i][12] != '=' || basic_options()[i][2]
            != 'b',
{
    reveal_strlit("--bt-stop-timeout=600");
    reveal_strlit("--summary-interval=1");
    reveal_strlit("--console-log-level=notice");
    reveal_strlit("--download-result=hide");
    reveal_strlit("--allow-overwrite=true");
    reveal_strlit("--auto-file-renaming=false");
    reveal_strlit("--bt-enable-lpd=true");
    reveal_strlit("--enable-dht=true");
    reveal_strlit("--dht-listen-port=6881-6999");
    reveal_strlit("--enable-peer-exchange=true");
    reveal_strlit("--bt-max-peers=200");
    reveal_strlit("--bt-request-peer-speed-limit=10M");
    reveal_strlit("--max-connection-per-server=16");
    reveal_strlit("--split=16");
    reveal_strlit("--min-split-size=1M");
    reveal_strlit("--bt-tracker-connect-timeout=10");
    reveal_strlit("--bt-tracker-timeout=30");
    reveal_strlit("--human-readable=false");
    reveal_strlit("--bt-tracker=");
    let options = basic_options();
    assert(options[18].take(13) =~= "--bt-tracker="@);
    assert(options[18][2] == 'b' && options[18][3] == 't' && options[18][6] == 'r');
    assert(options[i].len() > 8);
}

/// A setting that is absent adds no option: without a speed limit no limit is given, without a seed
/// ratio no ratio, and without trackers of the user's own the trackers are given once.
pub proof fn law_an_absent_setting_adds_no_option(link: Seq<char>, config: DownloadConfig)
    ensures
        config.max_download_speed is None ==> !has_option(
            download_args(link, config),
            "--max-download-limit="@,
        ),
        config.max_upload_speed is None ==> !has_option(
            download_args(link, config),
            "--max-upload-limit="@,
        ),
        config.seed_ratio is None ==> !has_option(download_args(link, config), "--seed-ratio="@),
        config.bt_tracker is None ==> forall|i: int, j: int|
            3 <= i < j < download_args(link, config).len() ==> !("--bt-tracker="@.is_prefix_of(
                #[trigger] download_args(link, config)[i],
            ) && "--bt-tracker="@.is_prefix_of(#[trigger] download_args(link, config)[j])),
{
    reveal_strlit("--seed-time=0");
    reveal_strlit("--max-download-limit=");
    reveal_strlit("--max-upload-limit=");
    reveal_strlit("--seed-ratio=");
    reveal_strlit("--bt-tracker=");
    reveal_strlit("--bt-tracker-timeout=");
    reveal_strlit("--timeout=");
    let args = download_args(link, config);
    let start = 3 + seed_time_arg(config).len() as int;
    let mid = start + basic_options().len();
    let chosen = chosen_options(config);
    let down = optional_arg("--max-download-limit="@, config.max_download_speed);
    let up = optional_arg("--max-upload-limit="@, config.max_upload_speed);
    let ratio = optional_arg("--seed-ratio="@, config.seed_ratio);
    let own = tracker_arg(config.bt_tracker);
    // What the argument at each place begins with.
    assert forall|i: int| 3 <= i < args.len() implies {
        let arg = #[trigger] args[i];
        &&& i < start ==> arg == "--seed-time=0"@
        &&& start <= i < mid ==> arg == basic_options()[i - start]
        &&& i >= mid ==> arg == chosen[i - mid]
    } by {}
    assert forall|k: int| 0 <= k < chosen.len() implies {
        let arg = #[trigger] chosen[k];
        ||| config.max_download_speed is Some && arg.take(6) == "--max-"@.take(6) && arg[6] == 'd'
        ||| config.max_upload_speed is Some && arg[2] == 'm' && arg[6] == 'u'
        ||| config.seed_ratio is Some && arg[2] == 's' && arg[7] == 'r'
        ||| config.bt_tracker is Some && arg[2] == 'b' && arg[12] == '='
        ||| arg.len() > 12 && arg[2] == 'b' && arg[6] == 'r' && arg[12] == '-'
        ||| arg[2] == 't'
    } by {
        reveal_strlit("--max-");
        let arg = chosen[k];
        if k < down.len() {
            assert(arg == down[k]);
            assert(arg.take(6) =~= "--max-"@.take(6));
        } else if k < down.len() + up.len() {
            assert(arg == up[k - down.len()]);
        } else if k < down.len() + up.len() + ratio.len() {
            assert(arg == ratio[k - down.len() - up.len()]);
        } else if k < down.len() + up.len() + ratio.len() + own.len() {
            assert(arg == own[k - down.len() - up.len() - ratio.len()]);
        } else if k == down.len() + up.len() + ratio.len() + own.len() {
            assert(arg == "--bt-tracker-timeout="@ + decimal(config.timeout as nat));
        } else {
            assert(arg == "--timeout="@ + decimal(config.timeout as nat));
        }
    }
    assert forall|i: int| 3 <= i < args.len() implies {
        let arg = #[trigger] args[i];
        &&& config.max_download_speed is None ==> !"--max-download-limit="@.is_prefix_of(arg)
        &&& config.max_upload_speed is None ==> !"--max-upload-limit="@.is_prefix_of(arg)
        &&& config.seed_ratio is None ==> !"--seed-ratio="@.is_prefix_of(arg)
        &&& config.bt_tracker is None && i != mid - 1 ==> !"--bt-tracker="@.is_prefix_of(arg)
    } by {
        let arg = args[i];
        reveal_strlit("--max-");
        if "--max-download-limit="@.is_prefix_of(arg) {
            let p = "--max-download-limit="@;
            assert(p[2] == arg[2] && p[6] == arg[6]);
        }
        if "--max-upload-limit="@.is_prefix_of(arg) {
            let p = "--max-upload-limit="@;
            assert(p[2] == arg[2] && p[6] == arg[6]);
        }
        if "--seed-ratio="@.is_prefix_of(arg) {
            let p = "--seed-ratio="@;
            assert(p[2] == arg[2] && p[3] == arg[3] && p[7] == arg[7]);
        }
        if "--bt-tracker="@.is_prefix_of(arg) {
            let p = "--bt-tracker="@;
            assert(p[2] == arg[2] && p[6] == arg[6] && p[12] == arg[12]);
        }
        if start <= i < mid {
            lemma_basic_options_begin(i - start);
        }
        if i >= mid && config.max_download_speed is Some {
            let c = chosen[i - mid];
            if c.take(6) == "--max-"@.take(6) {
                assert(c.take(6)[2] == "--max-"@.take(6)[2]);
            }
        }
    }
}

/// With nothing configured but the directory and the timeout, aria2c is called with exactly these
/// arguments.
pub proof fn law_the_bare_call(link: Seq<char>, config: DownloadConfig)
    requires
        config.max_download_speed is None,
        config.max_upload_speed is None,
        config.seed_ratio is None,
        config.bt_tracker is None,
    ensures
        download_args(link, config) == seq![
            link,
            "-d"@,
            config.download_dir@,
            "--seed-time=0"@,
            "--bt-stop-timeout=600"@,
            "--summary-interval=1"@,
            "--console-log-level=notice"@,
            "--download-result=hide"@,
            "--allow-overwrite=true"@,
            "--auto-file-renaming=false"@,
            "--bt-enable-lpd=true"@,
            "--enable-dht=true"@,
            "--dht-listen-port=6881-6999"@,
            "--enable-peer-exchange=true"@,
            "--bt-max-peers=200"@,
            "--bt-request-peer-speed-limit=10M"@,
            "--max-connection-per-server=16"@,
            "--split=16"@,
            "--min-split-size=1M"@,
            "--bt-tracker-connect-timeout=10"@,
            "--bt-tracker-timeout=30"@,
            "--human-readable=false"@,
            "--bt-tracker="@ + "udp://tracker.opentrackr.org:1337/announce"@ + ","@ + "udp://open.tracker.cl:1337/announce"@ + ","@ + "udp://tracker.openbittorrent.com:6969/announce"@ + ","@ + "udp://open.stealth.si:80/announce"@ + ","@ + "udp://tracker.torrent.eu.org:451/announce"@ + ","@ + "udp://exodus.desync.com:6969/announce"@ + ","@ + "udp://tracker.moeking.me:6969/announce"@ + ","@ + "udp://explodie.org:6969/announce"@ + ","@ + "udp://tracker1.bt.moack.co.kr:80/announce"@ + ","@ + "udp://tracker.theoks.net:6969/announce"@,
            "--bt-tracker-timeout="@ + decimal(config.timeout as nat),
            "--timeout="@ + decimal(config.timeout as nat),
        ],
{
    let list = default_trackers();
    let comma = ","@;
    lemma_joined_to(list, comma, 9);
    lemma_joined_to(list, comma, 8);
    lemma_joined_to(list, comma, 7);
    lemma_joined_to(list, comma, 6);
    lemma_joined_to(list, comma, 5);
    lemma_joined_to(list, comma, 4);
    lemma_joined_to(list, comma, 3);
    lemma_joined_to(list, comma, 2);
    lemma_joined_to(list, comma, 1);
    assert(list.take(1) =~= seq![list[0]]);
    assert(list.take(10) =~= list);
    let one = "--bt-tracker="@ + "udp://tracker.opentrackr.org:1337/announce"@ + ","@ + "udp://open.tracker.cl:1337/announce"@ + ","@ + "udp://tracker.openbittorrent.com:6969/announce"@ + ","@ + "udp://open.stealth.si:80/announce"@ + ","@ + "udp://tracker.torrent.eu.org:451/announce"@ + ","@ + "udp://exodus.desync.com:6969/announce"@ + ","@ + "udp://tracker.moeking.me:6969/announce"@ + ","@ + "udp://explodie.org:6969/announce"@ + ","@ + "udp://tracker1.bt.moack.co.kr:80/announce"@ + ","@ + "udp://tracker.theoks.net:6969/announce"@;
    assert("--bt-tracker="@ + joined(list, comma) =~= one);
    assert(download_args(link, config) =~= seq![
            link,
            "-d"@,
            config.download_dir@,
            "--seed-time=0"@,
            "--bt-stop-timeout=600"@,
            "--summary-interval=1"@,
            "--console-log-level=notice"@,
            "--download-result=hide"@,
            "--allow-overwrite=true"@,
            "--auto-file-renaming=false"@,
            "--bt-enable-lpd=true"@,
            "--enable-dht=true"@,
            "--dht-listen-port=6881-6999"@,
            "--enable-peer-exchange=true"@,
            "--bt-max-peers=200"@,
            "--bt-request-peer-speed-limit=10M"@,
            "--max-connection-per-server=16"@,
            "--split=16"@,
            "--min-split-size=1M"@,
            "--bt-tracker-connect-timeout=10"@,
            "--bt-tracker-timeout=30"@,
            "--human-readable=false"@,
            one,
            "--bt-tracker-timeout="@ + decimal(config.timeout as nat),
            "--timeout="@ + decimal(config.timeout as nat),
        ]);
}

proof fn lemma_joined_to(parts: Seq<Seq<char>>, separator: Seq<char>, k: int)
    requires
        1 <= k < parts.len(),
    ensures
        joined(parts.take(k + 1), separator) == joined(parts.take(k), separator) + separator
            + parts[k],
{
    assert(parts.take(k + 1).drop_last() =~= parts.take(k));
}

/// Each optional setting that is made adds its one option to the call without it, and changes
/// nothing else; a seed ratio other than zero takes the end of seeding away besides.
pub proof fn law_each_setting_adds_its_option(link: Seq<char>, config: DownloadConfig)
    ensures
        config.max_download_speed is Some ==> exists|k: int|
            3 <= k && download_args(link, config) == #[trigger] download_args(
                link,
                DownloadConfig { max_download_speed: None, ..config },
            ).insert(k, "--max-download-limit="@ + config.max_download_speed->0@),
        config.max_upload_speed is Some ==> exists|k: int|
            3 <= k && download_args(link, config) == #[trigger] download_args(
                link,
                DownloadConfig { max_upload_speed: None, ..config },
            ).insert(k, "--max-upload-limit="@ + config.max_upload_speed->0@),
        config.bt_tracker is Some ==> exists|k: int|
            3 <= k && download_args(link, config) == #[trigger] download_args(
                link,
                DownloadConfig { bt_tracker: None, ..config },
            ).insert(k, "--bt-tracker="@ + joined(texts(config.bt_tracker->0@), ","@)),
        config.seed_ratio is Some && config.seed_ratio->0@ == "0"@ ==> exists|k: int|
            3 <= k && download_args(link, config) == #[trigger] download_args(
                link,
                DownloadConfig { seed_ratio: None, ..config },
            ).insert(k, "--seed-ratio="@ + config.seed_ratio->0@),
        config.seed_ratio is Some && config.seed_ratio->0@ != "0"@ ==> exists|k: int|
            3 <= k && download_args(link, config) == #[trigger] download_args(
                link,
                DownloadConfig { seed_ratio: None, ..config },
            ).insert(k, "--seed-ratio="@ + config.seed_ratio->0@).remove(3),
{
    let first = seq![link, "-d"@, config.download_dir@];
    let seed = seed_time_arg(config);
    let basic = basic_options();
    let down = optional_arg("--max-download-limit="@, config.max_download_speed);
    let up = optional_arg("--max-upload-limit="@, config.max_upload_speed);
    let ratio = optional_arg("--seed-ratio="@, config.seed_ratio);
    let own = tracker_arg(config.bt_tracker);
    let last = seq![
        "--bt-tracker-timeout="@ + decimal(config.timeout as nat),
        "--timeout="@ + decimal(config.timeout as nat),
    ];
    let args = download_args(link, config);
    let n = (3 + seed.len() + basic.len()) as int;
    assert(args == first + seed + basic + (down + up + ratio + own + last));
    if config.max_download_speed is Some {
        let without = download_args(link, DownloadConfig { max_download_speed: None, ..config });
        assert(without == first + seed + basic + (seq![] + up + ratio + own + last));
        lemma_one_more_option(first, seed, basic, down, up, ratio, own, last, 0);
        assert(args == without.insert(n, down[0]));
    }
    if config.max_upload_speed is Some {
        let without = download_args(link, DownloadConfig { max_upload_speed: None, ..config });
        assert(without == first + seed + basic + (down + seq![] + ratio + own + last));
        lemma_one_more_option(first, seed, basic, down, up, ratio, own, last, 1);
        assert(args == without.insert(n + down.len(), up[0]));
    }
    if config.seed_ratio is Some {
        let without = download_args(link, DownloadConfig { seed_ratio: None, ..config });
        let stop = seq!["--seed-time=0"@];
        assert(without == first + stop + basic + (down + up + seq![] + own + last));
        lemma_one_more_option(first, stop, basic, down, up, ratio, own, last, 2);
        let k = (3 + stop.len() + basic.len() + down.len() + up.len()) as int;
        let more = without.insert(k, ratio[0]);
        if config.seed_ratio->0@ == "0"@ {
            assert(args == more);
        } else {
            lemma_seeding_goes_on(first, stop[0], basic, down + up + ratio + own + last);
            assert(args == more.remove(3));
            assert(args == without.insert(k, "--seed-ratio="@ + config.seed_ratio->0@).remove(3));
        }
    }
    if config.bt_tracker is Some {
        let without = download_args(link, DownloadConfig { bt_tracker: None, ..config });
        assert(without == first + seed + basic + (down + up + ratio + seq![] + last));
        lemma_one_more_option(first, seed, basic, down, up, ratio, own, last, 3);
        assert(args == without.insert(n + down.len() + up.len() + ratio.len(), own[0]));
    }
}

/// What one option more does to the arguments, where `which` of the four optional ones is it.
proof fn lemma_one_more_option(
    first: Seq<Seq<char>>,
    seed: Seq<Seq<char>>,
    basic: Seq<Seq<char>>,
    down: Seq<Seq<char>>,
    up: Seq<Seq<char>>,
    ratio: Seq<Seq<char>>,
    own: Seq<Seq<char>>,
    last: Seq<Seq<char>>,
    which: int,
)
    requires
        first.len() == 3,
        which == 0 ==> down.len() == 1,
        which == 1 ==> up.len() == 1,
        which == 2 ==> ratio.len() == 1,
        which == 3 ==> own.len() == 1,
    ensures
        which == 0 ==> first + seed + basic + (down + up + ratio + own + last) == (first + seed + basic
            + (seq![] + up + ratio + own + last)).insert(
            (3 + seed.len() + basic.len()) as int,
            down[0],
        ),
        which == 1 ==> first + seed + basic + (down + up + ratio + own + last) == (first + seed + basic
            + (down + seq![] + ratio + own + last)).insert(
            (3 + seed.len() + basic.len() + down.len()) as int,
            up[0],
        ),
        which == 2 ==> first + seed + basic + (down + up + ratio + own + last) == (first + seed + basic
            + (down + up + seq![] + own + last)).insert(
            (3 + seed.len() + basic.len() + down.len() + up.len()) as int,
            ratio[0],
        ),
        which == 3 ==> first + seed + basic + (down + up + ratio + own + last) == (first + seed + basic
            + (down + up + ratio + seq![] + last)).insert(
            (3 + seed.len() + basic.len() + down.len() + up.len() + ratio.len()) as int,
            own[0],
        ),
{
    let args = first + seed + basic + (down + up + ratio + own + last);
    let n = (3 + seed.len() + basic.len()) as int;
    if which == 0 {
        assert(args =~= (first + seed + basic + (seq![] + up + ratio + own + last)).insert(
            n,
            down[0],
        ));
    } else if which == 1 {
        assert(args =~= (first + seed + basic + (down + seq![] + ratio + own + last)).insert(
            n + down.len(),
            up[0],
        ));
    } else if which == 2 {
        assert(args =~= (first + seed + basic + (down + up + seq![] + own + last)).insert(
            n + down.len() + up.len(),
            ratio[0],
        ));
    } else if which == 3 {
        assert(args =~= (first + seed + basic + (down + up + ratio + seq![] + last)).insert(
            n + down.len() + up.len() + ratio.len(),
            own[0],
        ));
    }
}

/// What the arguments are without the end of seeding.
proof fn lemma_seeding_goes_on(
    first: Seq<Seq<char>>,
    stop: Seq<char>,
    basic: Seq<Seq<char>>,
    chosen: Seq<Seq<char>>,
)
    requires
        first.len() == 3,
    ensures
        first + seq![] + basic + chosen == (first + seq![stop] + basic + chosen).remove(3),
{
    assert(first + seq![] + basic + chosen =~= (first + seq![stop] + basic + chosen).remove(3));
}

/// The version is the first line that is printed: what stands before the first line feed, without
/// a carriage return right before that, or everything where there is none.
pub proof fn law_the_first_line_ends_at_the_first_line_feed(line: Seq<char>, rest: Seq<char>)
    requires
        !line.contains('\n'),
    ensures
        line.len() == 0 || line[line.len() - 1] != '\r' ==> first_line(line + seq!['\n'] + rest)
            == Some(line),
        first_line(line + seq!['\r', '\n'] + rest) == Some(line),
        line.len() > 0 ==> first_line(line) == Some(line),
        first_line(seq![]) is None,
{
    let a = line + seq!['\n'] + rest;
    law_a_character_is_found_where_it_is_first(line, '\n', rest);
    assert(a.take(line.len() as int) =~= line);
    let b = line + seq!['\r', '\n'] + rest;
    let longer = line.push('\r');
    assert(!longer.contains('\n')) by {
        if longer.contains('\n') {
            let k = choose|k: int| 0 <= k < longer.len() && longer[k] == '\n';
            assert(line[k] == '\n');
        }
    }
    law_a_character_is_found_where_it_is_first(longer, '\n', rest);
    assert(b =~= longer + seq!['\n'] + rest);
    assert(b.take(longer.len() as int) =~= longer);
    assert(longer.drop_last() =~= line);
    law_a_missing_character_is_past_the_end(line, '\n');
    assert(line.take(line.len() as int) =~= line);
}

/// A check that succeeds finds the first line that is printed, or `unknown` where nothing is; one that
/// does not finds the failure.
pub proof fn law_the_version_is_found_where_aria2c_answers(stdout: Seq<char>, line: Seq<char>)
    ensures
        first_line(stdout) == Some(line) ==> version_in(true, stdout) == Ok::<Seq<char>, Seq<char>>(
            line,
        ),
        version_in(true, seq![]) == Ok::<Seq<char>, Seq<char>>("unknown"@),
        version_in(false, stdout) == Err::<Seq<char>, Seq<char>>("aria2c check failed"@),
{
}

} // verus!
