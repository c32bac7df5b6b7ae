//! The state of the download manager, and how it changes.

use crate::config::Config;
use crate::naming::name_of;
use crate::progress::fitting;
use crate::text::{same_text, texts};
use crate::torrent::{torrent_views, AppState, TorrentState, TorrentStatus, TorrentView};
use crate::totals::{lemma_total_of_entries, map_total};
use crate::trusted::{
    byte_contents, bytes_entries, bytes_get, bytes_insert, bytes_new, bytes_remove, status_contents,
    statuses_get, statuses_insert, statuses_new,
};
use dashmap::DashMap;
use vstd::prelude::*;

verus! {

/// The download manager.
pub struct App {
    pub config: Config,
    pub state: AppState,
    pub status_map: DashMap<String, TorrentStatus>,
    pub shutdown: bool,
    pub total_torrents: usize,
    pub completed_torrents: usize,
    pub completed_bytes: u64,
    pub active_downloads: DashMap<String, u64>,
}

/// What is to be done with the next link of the list.
#[derive(Debug, Clone, Copy, PartialEq, Eq, Structural)]
pub enum Schedule {
    /// No further link is taken up.
    Stop,
    /// The link is done already.
    Skip,
    /// The link is downloaded.
    Start,
}

/// How a download that did not succeed is taken.
#[derive(Debug, Clone, Copy, PartialEq, Eq, Structural)]
pub enum Setback {
    /// The user ended the run when this many bytes had come.
    Interrupted(u64),
    /// The download failed.
    Failed,
}

/// What is to be done with the next finished download.
#[derive(Debug)]
pub enum ArchiveStep {
    /// No further download is archived.
    Stop,
    /// The link is not among those of this run.
    Skip,
    /// The download of the link, which goes by this name, is packed.
    Pack(String),
}

impl App {
    /// What is remembered of each torrent.
    pub open spec fn torrents(self) -> Seq<TorrentView> {
        self.state@
    }

    /// How far each link has come in this run.
    pub open spec fn statuses(self) -> Map<Seq<char>, TorrentStatus> {
        status_contents(self.status_map)
    }

    /// The bytes that each running download has so far.
    pub open spec fn active(self) -> Map<Seq<char>, u64> {
        byte_contents(self.active_downloads)
    }

    /// The bytes of all downloads, finished and running.
    pub open spec fn total_bytes(self) -> nat {
        self.completed_bytes as nat + map_total(self.active())
    }
}

/// The status of each link by what is remembered. Where a link is remembered twice, the later
/// entry counts.
pub open spec fn status_table(torrents: Seq<TorrentView>) -> Map<Seq<char>, TorrentStatus>
    decreases torrents.len(),
{
    if torrents.len() == 0 {
        Map::empty()
    } else {
        status_table(torrents.drop_last()).insert(torrents.last().link, torrents.last().status)
    }
}

/// Nothing is left to download of a link with this status.
pub open spec fn is_finished(status: TorrentStatus) -> bool {
    status == TorrentStatus::Downloaded || status == TorrentStatus::Archived
}

/// Nothing is left to download of the link.
pub open spec fn is_done(statuses: Map<Seq<char>, TorrentStatus>, link: Seq<char>) -> bool {
    statuses.dom().contains(link) && is_finished(statuses[link])
}

/// How many of the links are still to be downloaded.
pub open spec fn pending(statuses: Map<Seq<char>, TorrentStatus>, links: Seq<Seq<char>>) -> nat {
    links.filter(|link: Seq<char>| !is_done(statuses, link)).len()
}

/// What is to be done with a link.
pub open spec fn schedule_of(
    shutdown: bool,
    statuses: Map<Seq<char>, TorrentStatus>,
    link: Seq<char>,
) -> Schedule {
    if shutdown {
        Schedule::Stop
    } else if is_done(statuses, link) {
        Schedule::Skip
    } else {
        Schedule::Start
    }
}

/// The link is remembered.
pub open spec fn knows(torrents: Seq<TorrentView>, link: Seq<char>) -> bool {
    exists|i: int| 0 <= i < torrents.len() && #[trigger] torrents[i].link == link
}

/// What is remembered of a torrent that is new.
pub open spec fn new_torrent(link: Seq<char>) -> TorrentView {
    TorrentView { name: name_of(link), link, status: TorrentStatus::Pending, error: None }
}

/// What is remembered once the links are registered: each that is not yet known is added, in
/// order, as a torrent that waits.
pub open spec fn with_links(torrents: Seq<TorrentView>, links: Seq<Seq<char>>) -> Seq<TorrentView>
    decreases links.len(),
{
    if links.len() == 0 {
        torrents
    } else {
        let before = with_links(torrents, links.drop_last());
        if knows(before, links.last()) {
            before
        } else {
            before.push(new_torrent(links.last()))
        }
    }
}

/// The statuses once the links are registered: each link that is not yet known waits.
pub open spec fn with_link_statuses(
    torrents: Seq<TorrentView>,
    statuses: Map<Seq<char>, TorrentStatus>,
    links: Seq<Seq<char>>,
) -> Map<Seq<char>, TorrentStatus>
    decreases links.len(),
{
    if links.len() == 0 {
        statuses
    } else {
        let before = with_link_statuses(torrents, statuses, links.drop_last());
        if knows(with_links(torrents, links.drop_last()), links.last()) {
            before
        } else {
            before.insert(links.last(), TorrentStatus::Pending)
        }
    }
}

/// A torrent with the status that its link has in this run, where it has one.
pub open spec fn synced(
    torrent: TorrentView,
    statuses: Map<Seq<char>, TorrentStatus>,
) -> TorrentView {
    if statuses.dom().contains(torrent.link) {
        TorrentView { status: statuses[torrent.link], ..torrent }
    } else {
        torrent
    }
}

/// The torrents with the statuses of this run.
pub open spec fn all_synced(
    torrents: Seq<TorrentView>,
    statuses: Map<Seq<char>, TorrentStatus>,
) -> Seq<TorrentView> {
    torrents.map_values(|t: TorrentView| synced(t, statuses))
}

/// The settings, the wish to stop and the planned number of torrents are the same.
pub open spec fn same_run(a: App, b: App) -> bool {
    &&& a.config == b.config
    &&& a.shutdown == b.shutdown
    &&& a.total_torrents == b.total_torrents
}

/// What has been downloaded, and what is on its way, is the same.
pub open spec fn same_progress(a: App, b: App) -> bool {
    &&& a.completed_torrents == b.completed_torrents
    &&& a.completed_bytes == b.completed_bytes
    &&& a.active() == b.active()
}

/// A download of `link` begins.
pub open spec fn started(a: App, b: App, link: Seq<char>) -> bool {
    &&& same_run(a, b)
    &&& b.torrents() == a.torrents()
    &&& b.statuses() == a.statuses().insert(link, TorrentStatus::Downloading)
    &&& b.active() == a.active().insert(link, 0)
    &&& b.completed_torrents == a.completed_torrents
    &&& b.completed_bytes == a.completed_bytes
}

/// The download of `link` has come to `bytes`.
pub open spec fn progressed(a: App, b: App, link: Seq<char>, bytes: u64) -> bool {
    &&& same_run(a, b)
    &&& b.torrents() == a.torrents()
    &&& b.statuses() == a.statuses()
    &&& b.active() == a.active().insert(link, bytes)
    &&& b.completed_torrents == a.completed_torrents
    &&& b.completed_bytes == a.completed_bytes
}

/// The download of `link` is done, with `bytes` in all. The counters wrap around at the end of
/// their range.
pub open spec fn finished(a: App, b: App, link: Seq<char>, bytes: u64) -> bool {
    &&& same_run(a, b)
    &&& b.torrents() == a.torrents()
    &&& b.statuses() == a.statuses().insert(link, TorrentStatus::Downloaded)
    &&& b.active() == a.active().remove(link)
    &&& b.completed_torrents == a.completed_torrents.wrapping_add(1)
    &&& b.completed_bytes == a.completed_bytes.wrapping_add(bytes)
}

/// The download of `link` has not succeeded. Where the user ended the run, its status stays.
pub open spec fn failed(a: App, b: App, link: Seq<char>) -> bool {
    &&& same_run(a, b)
    &&& b.torrents() == a.torrents()
    &&& b.statuses() == (if a.shutdown {
        a.statuses()
    } else {
        a.statuses().insert(link, TorrentStatus::Failed)
    })
    &&& b.active() == a.active().remove(link)
    &&& b.completed_torrents == a.completed_torrents
    &&& b.completed_bytes == a.completed_bytes
}

/// The link is given a status; nothing else changes.
pub open spec fn marked(a: App, b: App, link: Seq<char>, status: TorrentStatus) -> bool {
    &&& same_run(a, b)
    &&& same_progress(a, b)
    &&& b.torrents() == a.torrents()
    &&& b.statuses() == a.statuses().insert(link, status)
}

/// Nothing changes.
pub open spec fn unchanged(a: App, b: App) -> bool {
    &&& same_run(a, b)
    &&& same_progress(a, b)
    &&& b.torrents() == a.torrents()
    &&& b.statuses() == a.statuses()
}

/// A run has begun with what is remembered: nothing is planned, complete or on its way.
pub open spec fn begun(app: App, config: Config, torrents: Seq<TorrentView>) -> bool {
    &&& app.config == config
    &&& app.torrents() == torrents
    &&& app.statuses() == status_table(torrents)
    &&& !app.shutdown
    &&& app.total_torrents == 0
    &&& app.completed_torrents == 0
    &&& app.completed_bytes == 0
    &&& app.active() == Map::<Seq<char>, u64>::empty()
}

/// The links have been counted, and so many torrents are planned.
pub open spec fn planned(a: App, b: App, links: Seq<Seq<char>>, count: nat) -> bool {
    &&& count == pending(a.statuses(), links)
    &&& b.total_torrents == count
    &&& b.config == a.config
    &&& b.shutdown == a.shutdown
    &&& same_progress(a, b)
    &&& b.torrents() == a.torrents()
    &&& b.statuses() == a.statuses()
}

/// The links that were not yet known are remembered.
pub open spec fn registered(a: App, b: App, links: Seq<Seq<char>>) -> bool {
    &&& same_run(a, b)
    &&& same_progress(a, b)
    &&& b.torrents() == with_links(a.torrents(), links)
    &&& b.statuses() == with_link_statuses(a.torrents(), a.statuses(), links)
}

/// The statuses of the run have been taken over into what is remembered.
pub open spec fn taken_over(a: App, b: App) -> bool {
    &&& same_run(a, b)
    &&& same_progress(a, b)
    &&& b.torrents() == all_synced(a.torrents(), a.statuses())
    &&& b.statuses() == a.statuses()
}

/// The run has been asked to end.
pub open spec fn stopping(a: App, b: App) -> bool {
    &&& b.shutdown
    &&& b.config == a.config
    &&& b.total_torrents == a.total_torrents
    &&& same_progress(a, b)
    &&& b.torrents() == a.torrents()
    &&& b.statuses() == a.statuses()
}

/// How a download of the link that has not succeeded is taken.
pub open spec fn setback_of(a: App, link: Seq<char>) -> Setback {
    if a.shutdown {
        Setback::Interrupted(
            if a.active().dom().contains(link) {
                a.active()[link]
            } else {
                0
            },
        )
    } else {
        Setback::Failed
    }
}

/// What is to be done with the download of the link, and what has been begun.
pub open spec fn archive_begun(a: App, b: App, link: Seq<char>, step: ArchiveStep) -> bool {
    match step {
        ArchiveStep::Stop => a.shutdown && unchanged(a, b),
        ArchiveStep::Skip => {
            &&& !a.shutdown
            &&& !a.statuses().dom().contains(link)
            &&& unchanged(a, b)
        },
        ArchiveStep::Pack(name) => {
            &&& !a.shutdown
            &&& a.statuses().dom().contains(link)
            &&& name@ == name_of(link)
            &&& marked(a, b, link, TorrentStatus::Archiving)
        },
    }
}

/// The status that archiving ends with.
pub open spec fn archive_end(success: bool) -> TorrentStatus {
    if success {
        TorrentStatus::Archived
    } else {
        TorrentStatus::Failed
    }
}

/// A download of the link has begun, and goes by the name.
pub open spec fn download_begun(a: App, b: App, link: Seq<char>, name: Seq<char>) -> bool {
    &&& name == name_of(link)
    &&& started(a, b, link)
}

/// The download of the link has not succeeded, and is taken so.
pub open spec fn download_given_up(a: App, b: App, link: Seq<char>, setback: Setback) -> bool {
    &&& failed(a, b, link)
    &&& setback == setback_of(a, link)
}

/// Archiving the download of the link has ended.
pub open spec fn archive_closed(a: App, b: App, link: Seq<char>, success: bool) -> bool {
    marked(a, b, link, archive_end(success))
}

impl App {
    /// A download manager that goes on from what is remembered.
    pub fn new(config: Config, state: AppState) -> (app: App)
        ensures
            begun(app, config, state@),
    {
        let mut status_map = statuses_new();
        let mut i: usize = 0;
        assert(state@.take(0) == Seq::<TorrentView>::empty());
        assert(status_contents(status_map) == status_table(state@.take(0)));
        while i < state.torrents.len()
            invariant
                i <= state.torrents@.len(),
                status_contents(status_map) == status_table(state@.take(i as int)),
            decreases state.torrents.len() - i,
        {
            let torrent = &state.torrents[i];
            statuses_insert(&mut status_map, torrent.link.clone(), torrent.status);
            proof {
                let next = state@.take(i + 1);
                assert(next.drop_last() == state@.take(i as int));
                assert(next.last() == torrent@);
            }
            i += 1;
        }
        assert(state@.take(state@.len() as int) == state@);
        let active_downloads = bytes_new();
        assert(byte_contents(active_downloads) == Map::<Seq<char>, u64>::empty());
        App {
            config,
            state,
            status_map,
            shutdown: false,
            total_torrents: 0,
            completed_torrents: 0,
            completed_bytes: 0,
            active_downloads,
        }
    }

    /// Whether nothing is left to download of the link.
    fn done(&self, link: &str) -> (r: bool)
        ensures
            r == is_done(self.statuses(), link@),
    {
        match statuses_get(&self.status_map, link) {
            Some(status) => status == TorrentStatus::Downloaded || status == TorrentStatus::Archived,
            None => false,
        }
    }

    /// Counts the links that are still to be downloaded, and plans for that many.
    pub fn plan(&mut self, links: &Vec<String>) -> (count: usize)
        ensures
            planned(*old(self), *final(self), texts(links@), count as nat),
    {
        let ghost statuses = self.statuses();
        let ghost keep = |link: Seq<char>| !is_done(statuses, link);
        let ghost all = texts(links@);
        let n: usize = links.len();
        let mut count: usize = 0;
        let mut i: usize = 0;
        assert(all.take(0).filter(keep).len() == 0) by {
            reveal(Seq::filter);
        }
        while i < n
            invariant
                n == links@.len(),
                i <= n,
                all == texts(links@),
                statuses == self.statuses(),
                keep == (|link: Seq<char>| !is_done(statuses, link)),
                count <= i,
                count == all.take(i as int).filter(keep).len(),
            decreases n - i,
        {
            let open: bool = !self.done(links[i].as_str());
            proof {
                let next = all.take(i + 1);
                assert(next.drop_last() == all.take(i as int));
                assert(next.last() == links@[i as int]@);
                reveal(Seq::filter);
            }
            if open {
                count += 1;
            }
            i += 1;
        }
        assert(all.take(n as int) == all);
        self.total_torrents = count;
        count
    }

    /// Whether the link is remembered.
    fn is_known(&self, link: &str) -> (r: bool)
        ensures
            r == knows(self.torrents(), link@),
    {
        let mut i: usize = 0;
        while i < self.state.torrents.len()
            invariant
                i <= self.state.torrents@.len(),
                forall|j: int| 0 <= j < i ==> #[trigger] self.torrents()[j].link != link@,
            decreases self.state.torrents.len() - i,
        {
            let torrent = &self.state.torrents[i];
            assert(self.torrents()[i as int] == torrent@);
            if same_text(torrent.link.as_str(), link) {
                assert(self.torrents()[i as int].link == link@);
                return true;
            }
            i += 1;
        }
        false
    }

    /// Remembers the links that are not yet known.
    pub fn register_links(&mut self, links: &Vec<String>)
        ensures
            registered(*old(self), *final(self), texts(links@)),
    {
        let ghost all = texts(links@);
        let ghost ts = self.torrents();
        let ghost ss = self.statuses();
        let n: usize = links.len();
        let mut i: usize = 0;
        assert(all.take(0) == Seq::<Seq<char>>::empty());
        while i < n
            invariant
                n == links@.len(),
                i <= n,
                all == texts(links@),
                ts == old(self).torrents(),
                ss == old(self).statuses(),
                same_run(*old(self), *self),
                same_progress(*old(self), *self),
                self.torrents() == with_links(ts, all.take(i as int)),
                self.statuses() == with_link_statuses(ts, ss, all.take(i as int)),
            decreases n - i,
        {
            let link = &links[i];
            proof {
                assert(all.take(i + 1).drop_last() == all.take(i as int));
                assert(all.take(i + 1).last() == all[i as int]);
                assert(all[i as int] == link@);
            }
            if !self.is_known(link.as_str()) {
                let ghost before = self.torrents();
                self.state.torrents.push(
                    TorrentState {
                        name: Self::extract_name(link.as_str()),
                        link: link.clone(),
                        status: TorrentStatus::Pending,
                        error: None,
                    },
                );
                assert(self.torrents() =~= before.push(new_torrent(link@)));
                statuses_insert(&mut self.status_map, link.clone(), TorrentStatus::Pending);
            }
            i += 1;
        }
        assert(all.take(n as int) == all);
    }

    /// Takes the statuses of this run over into what is remembered.
    pub fn sync_state(&mut self)
        ensures
            taken_over(*old(self), *final(self)),
    {
        let ghost ts = self.torrents();
        let ghost ss = self.statuses();
        let n: usize = self.state.torrents.len();
        let mut i: usize = 0;
        while i < n
            invariant
                n == ts.len(),
                n == self.state.torrents@.len(),
                i <= n,
                same_run(*old(self), *self),
                same_progress(*old(self), *self),
                ts == old(self).torrents(),
                ss == old(self).statuses(),
                self.statuses() == ss,
                forall|j: int|
                    0 <= j < n ==> #[trigger] self.state.torrents@[j]@ == (if j < i {
                        synced(ts[j], ss)
                    } else {
                        ts[j]
                    }),
            decreases n - i,
        {
            let found = statuses_get(&self.status_map, self.state.torrents[i].link.as_str());
            let ghost here = self.state.torrents@[i as int]@;
            assert(here == ts[i as int]);
            match found {
                Some(status) => {
                    self.state.torrents[i].status = status;
                },
                None => {},
            }
            i += 1;
        }
        assert(self.torrents() =~= all_synced(ts, ss));
    }

    /// What is to be done with the link.
    pub fn schedule(&self, link: &str) -> (r: Schedule)
        ensures
            r == schedule_of(self.shutdown, self.statuses(), link@),
    {
        if self.shutdown {
            Schedule::Stop
        } else if self.done(link) {
            Schedule::Skip
        } else {
            Schedule::Start
        }
    }

    /// Begins the download of a link, and gives its name.
    pub fn start_download(&mut self, link: &str) -> (name: String)
        ensures
            download_begun(*old(self), *final(self), link@, name@),
    {
        statuses_insert(&mut self.status_map, link.to_owned(), TorrentStatus::Downloading);
        bytes_insert(&mut self.active_downloads, link.to_owned(), 0);
        Self::extract_name(link)
    }

    /// Takes down how far a download has come.
    pub fn record_progress(&mut self, link: &str, bytes: u64)
        ensures
            progressed(*old(self), *final(self), link@, bytes),
    {
        bytes_insert(&mut self.active_downloads, link.to_owned(), bytes);
    }

    /// Takes down that a download is done.
    pub fn finish_download(&mut self, link: &str, bytes: u64)
        ensures
            finished(*old(self), *final(self), link@, bytes),
    {
        bytes_remove(&mut self.active_downloads, link);
        statuses_insert(&mut self.status_map, link.to_owned(), TorrentStatus::Downloaded);
        self.completed_torrents = self.completed_torrents.wrapping_add(1);
        self.completed_bytes = self.completed_bytes.wrapping_add(bytes);
    }

    /// Takes down that a download has not succeeded.
    pub fn fail_download(&mut self, link: &str) -> (r: Setback)
        ensures
            download_given_up(*old(self), *final(self), link@, r),
    {
        let partial: u64 = match bytes_get(&self.active_downloads, link) {
            Some(bytes) => bytes,
            None => 0,
        };
        bytes_remove(&mut self.active_downloads, link);
        if self.shutdown {
            Setback::Interrupted(partial)
        } else {
            statuses_insert(&mut self.status_map, link.to_owned(), TorrentStatus::Failed);
            Setback::Failed
        }
    }

    /// Begins to archive the download of a link, and gives the name that it goes by. Nothing begins
    /// where the run is to end, or where the link is not among those of this run.
    pub fn begin_archive(&mut self, link: &str) -> (r: ArchiveStep)
        ensures
            archive_begun(*old(self), *final(self), link@, r),
    {
        if self.shutdown {
            return ArchiveStep::Stop;
        }
        if statuses_get(&self.status_map, link).is_none() {
            return ArchiveStep::Skip;
        }
        statuses_insert(&mut self.status_map, link.to_owned(), TorrentStatus::Archiving);
        ArchiveStep::Pack(Self::extract_name(link))
    }

    /// Takes down how archiving has ended.
    pub fn finish_archive(&mut self, link: &str, success: bool)
        ensures
            archive_closed(*old(self), *final(self), link@, success),
    {
        let status = if success {
            TorrentStatus::Archived
        } else {
            TorrentStatus::Failed
        };
        statuses_insert(&mut self.status_map, link.to_owned(), status);
    }

    /// Asks the run to end.
    pub fn request_shutdown(&mut self)
        ensures
            stopping(*old(self), *final(self)),
    {
        self.shutdown = true;
    }

    /// The bytes of all downloads, finished and running, where they fit in 64 bits.
    pub fn try_total_bytes(&self) -> (r: Option<u64>)
        ensures
            r == fitting(self.total_bytes()),
    {
        let entries = bytes_entries(&self.active_downloads);
        let mut values: Vec<u64> = Vec::new();
        let mut i: usize = 0;
        while i < entries.len()
            invariant
                i <= entries@.len(),
                values@.len() == i,
                forall|j: int| 0 <= j < i ==> #[trigger] values@[j] == entries@[j].1,
            decreases entries.len() - i,
        {
            values.push(entries[i].1);
            i += 1;
        }
        proof {
            let keys = entries@.map_values(|e: (String, u64)| e.0@);
            assert forall|j: int| 0 <= j < keys.len() implies self.active()[#[trigger] keys[j]]
                == values@[j] by {
                assert(keys[j] == entries@[j].0@);
            }
            lemma_total_of_entries(self.active(), keys, values@);
        }
        match Self::sum_sizes(&values) {
            Some(active) => if active <= u64::MAX - self.completed_bytes {
                Some(self.completed_bytes + active)
            } else {
                None
            },
            None => None,
        }
    }

    /// The bytes of all downloads, finished and running.
    pub fn get_total_bytes(&self) -> (r: u64)
        requires
            self.total_bytes() <= u64::MAX,
        ensures
            r == self.total_bytes(),
    {
        self.try_total_bytes().unwrap()
    }
}

} // verus!
