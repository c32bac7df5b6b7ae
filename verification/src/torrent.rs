//! Torrents: how they are listed, and what is remembered of each.

use crate::text::{optional_text, texts};
use vstd::prelude::*;

verus! {

/// How far a torrent has come.
#[derive(Debug, Clone, Copy, PartialEq, Eq, Structural)]
pub enum TorrentStatus {
    Pending,
    Downloading,
    Downloaded,
    Archiving,
    Archived,
    Failed,
}

/// A torrent with its link and, where it is known, its name.
#[derive(Debug)]
pub struct DetailedTorrent {
    pub magnet: String,
    pub name: Option<String>,
}

/// An item of a torrent list: a bare link, or a link with details.
#[derive(Debug)]
pub enum TorrentItem {
    Simple(String),
    Detailed(DetailedTorrent),
}

/// A list of torrents to download.
#[derive(Debug)]
pub struct TorrentList {
    pub torrents: Vec<TorrentItem>,
}

impl TorrentItem {
    /// The link that the item holds.
    pub open spec fn link(self) -> Seq<char> {
        match self {
            TorrentItem::Simple(s) => s@,
            TorrentItem::Detailed(d) => d.magnet@,
        }
    }

    /// The link that the item holds.
    pub fn into_link(self) -> (link: String)
        ensures
            link@ == self.link(),
    {
        match self {
            TorrentItem::Simple(s) => s,
            TorrentItem::Detailed(d) => d.magnet,
        }
    }
}

/// The links of a sequence of items.
pub open spec fn links_of(items: Seq<TorrentItem>) -> Seq<Seq<char>> {
    items.map_values(|item: TorrentItem| item.link())
}

impl TorrentList {
    /// The links of the list, in its order.
    pub fn into_links(self) -> (links: Vec<String>)
        ensures
            texts(links@) == links_of(self.torrents@),
    {
        let ghost items = self.torrents@;
        let mut links: Vec<String> = Vec::new();
        for item in it: self.torrents
            invariant
                it.seq() == items,
                texts(links@) == links_of(items.take(it.index() as int)),
        {
            let ghost i = it.index() as int;
            assert(item == items[i]);
            let ghost before = links@;
            links.push(item.into_link());
            assert(links_of(items.take(i + 1)) =~= links_of(items.take(i)).push(items[i].link()));
            assert(texts(links@) =~= texts(before).push(items[i].link()));
            assert(texts(links@) =~= links_of(items.take(it.index() as int + 1)));
        }
        assert(items.take(items.len() as int) == items);
        links
    }
}

/// Both forms of an item stand for the same torrent: a bare link, and that link with details.
pub proof fn law_both_forms_give_the_link(link: String, name: Option<String>)
    ensures
        TorrentItem::Simple(link).link() == TorrentItem::Detailed(
            DetailedTorrent { magnet: link, name },
        ).link(),
{
}

/// What is remembered of a torrent.
#[derive(Debug)]
pub struct TorrentState {
    pub name: String,
    pub link: String,
    pub status: TorrentStatus,
    pub error: Option<String>,
}

/// What is remembered of a torrent, as a mathematical value.
pub struct TorrentView {
    pub name: Seq<char>,
    pub link: Seq<char>,
    pub status: TorrentStatus,
    pub error: Option<Seq<char>>,
}

impl View for TorrentState {
    type V = TorrentView;

    open spec fn view(&self) -> TorrentView {
        TorrentView {
            name: self.name@,
            link: self.link@,
            status: self.status,
            error: optional_text(self.error),
        }
    }
}

/// What is remembered of a sequence of torrents.
pub open spec fn torrent_views(torrents: Seq<TorrentState>) -> Seq<TorrentView> {
    torrents.map_values(|t: TorrentState| t@)
}

/// What is kept from one run to the next.
#[derive(Debug)]
pub struct AppState {
    pub torrents: Vec<TorrentState>,
}

impl View for AppState {
    type V = Seq<TorrentView>;

    open spec fn view(&self) -> Seq<TorrentView> {
        torrent_views(self.torrents@)
    }
}

impl Default for AppState {
    /// Nothing is remembered yet.
    fn default() -> (state: AppState)
        ensures
            state@ == Seq::<TorrentView>::empty(),
    {
        let state = AppState { torrents: Vec::new() };
        assert(state@ =~= Seq::<TorrentView>::empty());
        state
    }
}

/// What is remembered to begin with.
pub open spec fn loaded(kept: Option<Seq<TorrentView>>) -> Seq<TorrentView> {
    match kept {
        Some(torrents) => torrents,
        None => Seq::<TorrentView>::empty(),
    }
}

impl AppState {
    /// The state to begin with: the one that was kept, where it could be read, or else none.
    pub fn load(kept: Option<AppState>) -> (state: AppState)
        ensures
            state@ == loaded(
                match kept {
                    Some(k) => Some(k@),
                    None => None,
                },
            ),
    {
        match kept {
            Some(state) => state,
            None => AppState::default(),
        }
    }
}

/// A list gives one link for each of its items, in order: a bare link itself, and of a detailed item
/// its magnet link.
pub proof fn law_every_item_gives_its_link(items: Seq<TorrentItem>, i: int)
    requires
        0 <= i < items.len(),
    ensures
        links_of(items).len() == items.len(),
        items[i] matches TorrentItem::Simple(link) ==> links_of(items)[i] == link@,
        items[i] matches TorrentItem::Detailed(detailed) ==> links_of(items)[i] == detailed.magnet@,
{
}

/// Everything that is kept of a torrent is remembered, for each torrent in its place.
pub proof fn law_torrents_are_remembered_whole(state: AppState, i: int)
    requires
        0 <= i < state.torrents@.len(),
    ensures
        state@.len() == state.torrents@.len(),
        state@[i].name == state.torrents@[i].name@,
        state@[i].link == state.torrents@[i].link@,
        state@[i].status == state.torrents@[i].status,
        state@[i].error is Some <==> state.torrents@[i].error is Some,
        state@[i].error is Some ==> state@[i].error->0 == state.torrents@[i].error->0@,
{
}

/// Every torrent that was kept is remembered, and none is made up where nothing was kept.
pub proof fn law_what_was_kept_is_remembered(kept: Seq<TorrentView>)
    ensures
        loaded(Some(kept)) == kept,
        loaded(None).len() == 0,
{
}

} // verus!
