//! What holds from one step of the download manager to the next, and from one run to the next.

use crate::app::{
    all_synced, archive_begun, archive_closed, archive_end, begun, download_begun,
    download_given_up, failed, finished, is_done, is_finished, knows, marked, new_torrent, pending,
    planned, progressed, registered, schedule_of, setback_of, started, status_table, stopping,
    synced, taken_over, unchanged, with_link_statuses, with_links, App, ArchiveStep, Schedule,
    Setback,
};
use crate::config::Config;
use crate::naming::name_of;
use crate::torrent::{TorrentStatus, TorrentView};
use crate::totals::{law_a_new_key_adds_its_number, lemma_total_insert, lemma_total_without};
use crate::trusted::{byte_contents, status_contents};
use vstd::prelude::*;

verus! {

/// A status is held for exactly the links that are remembered.
pub open spec fn coherent(
    torrents: Seq<TorrentView>,
    statuses: Map<Seq<char>, TorrentStatus>,
) -> bool {
    forall|link: Seq<char>| #[trigger] statuses.dom().contains(link) <==> knows(torrents, link)
}

/// No link is remembered twice.
pub open spec fn distinct_links(torrents: Seq<TorrentView>) -> bool {
    forall|i: int, j: int|
        0 <= i < j < torrents.len() ==> #[trigger] torrents[i].link != #[trigger] torrents[j].link
}

proof fn lemma_knows_push(torrents: Seq<TorrentView>, t: TorrentView, link: Seq<char>)
    ensures
        knows(torrents.push(t), link) <==> knows(torrents, link) || t.link == link,
{
    let more = torrents.push(t);
    if knows(torrents, link) {
        let i = choose|i: int| 0 <= i < torrents.len() && #[trigger] torrents[i].link == link;
        assert(more[i].link == link);
    }
    if t.link == link {
        assert(more[torrents.len() as int].link == link);
    }
    if knows(more, link) {
        let i = choose|i: int| 0 <= i < more.len() && #[trigger] more[i].link == link;
        if i < torrents.len() {
            assert(torrents[i].link == link);
        }
    }
}

/// Registering links keeps what is remembered, in its place.
pub proof fn law_registering_keeps_the_known(torrents: Seq<TorrentView>, links: Seq<Seq<char>>)
    ensures
        torrents.is_prefix_of(with_links(torrents, links)),
    decreases links.len(),
{
    if links.len() > 0 {
        law_registering_keeps_the_known(torrents, links.drop_last());
        let before = with_links(torrents, links.drop_last());
        assert(before.take(torrents.len() as int) == torrents);
        if !knows(before, links.last()) {
            assert(before.push(new_torrent(links.last())).take(torrents.len() as int) == torrents);
        }
    } else {
        assert(torrents.take(torrents.len() as int) == torrents);
    }
}

/// After registering, a link is known exactly where it was known before or is among the links.
pub proof fn law_registered_links_are_known(
    torrents: Seq<TorrentView>,
    links: Seq<Seq<char>>,
    link: Seq<char>,
)
    ensures
        knows(with_links(torrents, links), link) <==> knows(torrents, link) || links.contains(link),
    decreases links.len(),
{
    if links.len() > 0 {
        let rest = links.drop_last();
        let before = with_links(torrents, rest);
        law_registered_links_are_known(torrents, rest, link);
        lemma_knows_push(before, new_torrent(links.last()), link);
        assert(links.contains(link) <==> rest.contains(link) || links.last() == link) by {
            if rest.contains(link) {
                let i = choose|i: int| 0 <= i < rest.len() && rest[i] == link;
                assert(links[i] == link);
            }
            if links.last() == link {
                assert(links[links.len() - 1] == link);
            }
            if links.contains(link) {
                let i = choose|i: int| 0 <= i < links.len() && links[i] == link;
                if i < rest.len() {
                    assert(rest[i] == link);
                }
            }
        }
    }
}

/// Registering remembers no link twice.
pub proof fn law_registering_makes_no_duplicates(
    torrents: Seq<TorrentView>,
    links: Seq<Seq<char>>,
)
    requires
        distinct_links(torrents),
    ensures
        distinct_links(with_links(torrents, links)),
    decreases links.len(),
{
    if links.len() > 0 {
        let before = with_links(torrents, links.drop_last());
        law_registering_makes_no_duplicates(torrents, links.drop_last());
        if !knows(before, links.last()) {
            let after = before.push(new_torrent(links.last()));
            assert forall|i: int, j: int| 0 <= i < j < after.len() implies #[trigger] after[i].link
                != #[trigger] after[j].link by {
                assert(after[i] == before[i]);
                if j < before.len() {
                    assert(after[j] == before[j]);
                } else {
                    assert(before[i].link != links.last());
                }
            }
        }
    }
}

proof fn lemma_nothing_new(
    torrents: Seq<TorrentView>,
    statuses: Map<Seq<char>, TorrentStatus>,
    links: Seq<Seq<char>>,
)
    requires
        forall|i: int| 0 <= i < links.len() ==> knows(torrents, #[trigger] links[i]),
    ensures
        with_links(torrents, links) == torrents,
        with_link_statuses(torrents, statuses, links) == statuses,
    decreases links.len(),
{
    if links.len() > 0 {
        assert forall|i: int| 0 <= i < links.drop_last().len() implies knows(
            torrents,
            #[trigger] links.drop_last()[i],
        ) by {
            assert(links.drop_last()[i] == links[i]);
        }
        lemma_nothing_new(torrents, statuses, links.drop_last());
        assert(knows(torrents, links[links.len() - 1]));
    }
}

/// Registering the same links a second time changes nothing.
pub proof fn law_registering_twice_is_registering_once(
    torrents: Seq<TorrentView>,
    statuses: Map<Seq<char>, TorrentStatus>,
    links: Seq<Seq<char>>,
)
    ensures
        with_links(with_links(torrents, links), links) == with_links(torrents, links),
        with_link_statuses(
            with_links(torrents, links),
            with_link_statuses(torrents, statuses, links),
            links,
        ) == with_link_statuses(torrents, statuses, links),
{
    let after = with_links(torrents, links);
    assert forall|i: int| 0 <= i < links.len() implies knows(after, #[trigger] links[i]) by {
        law_registered_links_are_known(torrents, links, links[i]);
    }
    lemma_nothing_new(after, with_link_statuses(torrents, statuses, links), links);
}

/// Registering leaves the status of a known link alone, and a link that is new waits.
pub proof fn law_registering_keeps_statuses(
    torrents: Seq<TorrentView>,
    statuses: Map<Seq<char>, TorrentStatus>,
    links: Seq<Seq<char>>,
    link: Seq<char>,
)
    ensures
        knows(torrents, link) ==> {
            &&& with_link_statuses(torrents, statuses, links).dom().contains(link)
                == statuses.dom().contains(link)
            &&& with_link_statuses(torrents, statuses, links)[link] == statuses[link]
        },
        !knows(torrents, link) && links.contains(link) ==> {
            &&& with_link_statuses(torrents, statuses, links).dom().contains(link)
            &&& with_link_statuses(torrents, statuses, links)[link] == TorrentStatus::Pending
        },
    decreases links.len(),
{
    if links.len() > 0 {
        let rest = links.drop_last();
        law_registering_keeps_statuses(torrents, statuses, rest, link);
        law_registered_links_are_known(torrents, rest, link);
        if links.contains(link) && links.last() != link {
            let i = choose|i: int| 0 <= i < links.len() && links[i] == link;
            assert(rest[i] == link);
        }
    }
}

proof fn lemma_table_domain(torrents: Seq<TorrentView>, link: Seq<char>)
    ensures
        status_table(torrents).dom().contains(link) <==> knows(torrents, link),
    decreases torrents.len(),
{
    if torrents.len() > 0 {
        lemma_table_domain(torrents.drop_last(), link);
        lemma_knows_push(torrents.drop_last(), torrents.last(), link);
        assert(torrents.drop_last().push(torrents.last()) == torrents);
    }
}

/// A run begins with a status for exactly the links that are remembered.
pub proof fn law_runs_begin_coherent(torrents: Seq<TorrentView>)
    ensures
        coherent(torrents, status_table(torrents)),
{
    assert forall|link: Seq<char>| #[trigger]
        status_table(torrents).dom().contains(link) <==> knows(torrents, link) by {
        lemma_table_domain(torrents, link);
    }
}

/// Registering keeps it so that a status is held for exactly the links that are remembered.
pub proof fn law_registering_keeps_coherence(
    torrents: Seq<TorrentView>,
    statuses: Map<Seq<char>, TorrentStatus>,
    links: Seq<Seq<char>>,
)
    requires
        coherent(torrents, statuses),
    ensures
        coherent(with_links(torrents, links), with_link_statuses(torrents, statuses, links)),
    decreases links.len(),
{
    if links.len() > 0 {
        let rest = links.drop_last();
        law_registering_keeps_coherence(torrents, statuses, rest);
        let before = with_links(torrents, rest);
        let table = with_link_statuses(torrents, statuses, rest);
        if !knows(before, links.last()) {
            assert forall|link: Seq<char>| #[trigger]
                table.insert(links.last(), TorrentStatus::Pending).dom().contains(link)
                    <==> knows(before.push(new_torrent(links.last())), link) by {
                lemma_knows_push(before, new_torrent(links.last()), link);
                assert(table.dom().contains(link) <==> knows(before, link));
            }
        }
    }
}

/// Every step of a download or of an archive keeps it so that a status is held for exactly the
/// links that are remembered, as long as it concerns a link that is remembered.
pub proof fn law_steps_keep_coherence(a: App, b: App, link: Seq<char>, bytes: u64, status: TorrentStatus)
    requires
        coherent(a.torrents(), a.statuses()),
        knows(a.torrents(), link),
        started(a, b, link) || progressed(a, b, link, bytes) || finished(a, b, link, bytes)
            || failed(a, b, link) || marked(a, b, link, status),
    ensures
        coherent(b.torrents(), b.statuses()),
{
    assert forall|l: Seq<char>| #[trigger]
        b.statuses().dom().contains(l) <==> knows(b.torrents(), l) by {
        assert(a.statuses().dom().contains(l) <==> knows(a.torrents(), l));
    }
}

/// The running downloads are finite in number.
pub open spec fn is_valid(app: App) -> bool {
    app.active().dom().finite()
}

/// Every step keeps the running downloads finite in number.
pub proof fn law_steps_keep_validity(a: App, b: App, link: Seq<char>, bytes: u64, status: TorrentStatus)
    requires
        is_valid(a),
        started(a, b, link) || progressed(a, b, link, bytes) || finished(a, b, link, bytes)
            || failed(a, b, link) || marked(a, b, link, status),
    ensures
        is_valid(b),
{
    assert(a.active().insert(link, 0).dom() == a.active().dom().insert(link));
    assert(a.active().insert(link, bytes).dom() == a.active().dom().insert(link));
    assert(a.active().remove(link).dom() == a.active().dom().remove(link));
}

proof fn lemma_synced_links(
    torrents: Seq<TorrentView>,
    statuses: Map<Seq<char>, TorrentStatus>,
    link: Seq<char>,
)
    ensures
        knows(all_synced(torrents, statuses), link) <==> knows(torrents, link),
{
    let after = all_synced(torrents, statuses);
    if knows(torrents, link) {
        let i = choose|i: int| 0 <= i < torrents.len() && #[trigger] torrents[i].link == link;
        assert(after[i].link == link);
    }
    if knows(after, link) {
        let i = choose|i: int| 0 <= i < after.len() && #[trigger] after[i].link == link;
        assert(torrents[i].link == link);
    }
}

proof fn lemma_synced_table(
    torrents: Seq<TorrentView>,
    statuses: Map<Seq<char>, TorrentStatus>,
    link: Seq<char>,
)
    requires
        knows(torrents, link),
        statuses.dom().contains(link),
    ensures
        status_table(all_synced(torrents, statuses))[link] == statuses[link],
    decreases torrents.len(),
{
    let after = all_synced(torrents, statuses);
    let rest = torrents.drop_last();
    assert(after.drop_last() == all_synced(rest, statuses));
    assert(after.last() == synced(torrents.last(), statuses));
    lemma_knows_push(rest, torrents.last(), link);
    assert(rest.push(torrents.last()) == torrents);
    if torrents.last().link != link {
        lemma_synced_table(rest, statuses, link);
    }
}

/// A run that goes on from what an earlier one has kept begins with the statuses with which that
/// one ended.
pub proof fn law_next_run_begins_where_the_last_ended(
    torrents: Seq<TorrentView>,
    statuses: Map<Seq<char>, TorrentStatus>,
)
    requires
        coherent(torrents, statuses),
    ensures
        status_table(all_synced(torrents, statuses)) == statuses,
{
    let table = status_table(all_synced(torrents, statuses));
    assert forall|link: Seq<char>| #[trigger] table.dom().contains(link) == statuses.dom().contains(
        link,
    ) by {
        lemma_table_domain(all_synced(torrents, statuses), link);
        lemma_synced_links(torrents, statuses, link);
    }
    assert(table.dom() =~= statuses.dom());
    assert forall|link: Seq<char>| #[trigger] table.dom().contains(link) implies table[link]
        == statuses[link] by {
        assert(statuses.dom().contains(link));
        lemma_synced_table(torrents, statuses, link);
    }
    assert(table =~= statuses);
}

/// Taking the statuses over keeps every torrent, in its place, with its name, link and error.
pub proof fn law_syncing_changes_statuses_alone(
    torrents: Seq<TorrentView>,
    statuses: Map<Seq<char>, TorrentStatus>,
    i: int,
)
    requires
        0 <= i < torrents.len(),
    ensures
        all_synced(torrents, statuses).len() == torrents.len(),
        all_synced(torrents, statuses)[i].name == torrents[i].name,
        all_synced(torrents, statuses)[i].link == torrents[i].link,
        all_synced(torrents, statuses)[i].error == torrents[i].error,
{
}

/// Taking the statuses over a second time changes nothing.
pub proof fn law_syncing_twice_is_syncing_once(
    torrents: Seq<TorrentView>,
    statuses: Map<Seq<char>, TorrentStatus>,
)
    ensures
        all_synced(all_synced(torrents, statuses), statuses) == all_synced(torrents, statuses),
{
    assert(all_synced(all_synced(torrents, statuses), statuses) =~= all_synced(torrents, statuses));
}

/// An interrupted session is resumed: in the next run, after its list is registered, each link of
/// the earlier run is skipped if it was done and started if it was not.
pub proof fn law_sessions_resume(
    torrents: Seq<TorrentView>,
    statuses: Map<Seq<char>, TorrentStatus>,
    links: Seq<Seq<char>>,
    link: Seq<char>,
)
    requires
        coherent(torrents, statuses),
        knows(torrents, link),
    ensures
        ({
            let kept = all_synced(torrents, statuses);
            schedule_of(false, with_link_statuses(kept, status_table(kept), links), link) == (
            if is_finished(statuses[link]) {
                Schedule::Skip
            } else {
                Schedule::Start
            })
        }),
{
    let kept = all_synced(torrents, statuses);
    law_next_run_begins_where_the_last_ended(torrents, statuses);
    lemma_synced_links(torrents, statuses, link);
    law_registering_keeps_statuses(kept, status_table(kept), links, link);
    assert(statuses.dom().contains(link));
}

/// What a download has reported last is what it adds in the end: the total does not change when a
/// download that has come to `bytes` is done with `bytes`.
pub proof fn law_finishing_keeps_the_total(a: App, b: App, c: App, link: Seq<char>, bytes: u64)
    requires
        is_valid(a),
        progressed(a, b, link, bytes),
        finished(b, c, link, bytes),
        a.completed_bytes + bytes <= u64::MAX,
    ensures
        c.total_bytes() == b.total_bytes(),
{
    assert(a.active().insert(link, bytes).dom() == a.active().dom().insert(link));
    lemma_total_without(b.active(), link);
}

/// A download that begins adds nothing to the total yet, and a download that fails takes back
/// what it has added.
pub proof fn law_failing_takes_back_what_was_added(a: App, b: App, c: App, d: App, link: Seq<char>, bytes: u64)
    requires
        is_valid(a),
        !a.active().dom().contains(link),
        started(a, b, link),
        progressed(b, c, link, bytes),
        failed(c, d, link),
    ensures
        b.total_bytes() == a.total_bytes(),
        c.total_bytes() == a.total_bytes() + bytes,
        d.total_bytes() == a.total_bytes(),
{
    lemma_total_insert(a.active(), link, 0);
    assert(a.active().remove(link) == a.active());
    assert(a.active().insert(link, 0).insert(link, bytes) == a.active().insert(link, bytes));
    lemma_total_insert(a.active(), link, bytes);
    assert(c.active().remove(link) == a.active());
}

/// Whatever ends a download, the next run takes it up again unless it was done: one that failed or
/// was interrupted is started again, one that is done is skipped, also once it is archived.
pub proof fn law_only_finished_downloads_are_skipped(
    a: App,
    b: App,
    c: App,
    link: Seq<char>,
    bytes: u64,
)
    requires
        started(a, b, link),
    ensures
        failed(b, c, link) ==> schedule_of(false, c.statuses(), link) == Schedule::Start,
        finished(b, c, link, bytes) ==> schedule_of(false, c.statuses(), link) == Schedule::Skip,
        marked(b, c, link, TorrentStatus::Archived) ==> schedule_of(false, c.statuses(), link)
            == Schedule::Skip,
{
}

/// Archiving a download is recorded for its own link alone: that link ends as archived, or as
/// failed where packing failed, and every other link, also one of the same name, keeps its status.
pub proof fn law_archiving_is_recorded_for_its_link_alone(
    a: App,
    b: App,
    c: App,
    link: Seq<char>,
    end: TorrentStatus,
    other: Seq<char>,
)
    requires
        marked(a, b, link, TorrentStatus::Archiving),
        marked(b, c, link, end),
        other != link,
    ensures
        c.statuses().dom().contains(link) && c.statuses()[link] == end,
        c.statuses().dom().contains(other) == a.statuses().dom().contains(other),
        c.statuses()[other] == a.statuses()[other],
{
}

proof fn lemma_pending(statuses: Map<Seq<char>, TorrentStatus>, links: Seq<Seq<char>>)
    ensures
        pending(statuses, links) <= links.len(),
        pending(statuses, links) == 0 <==> forall|i: int|
            0 <= i < links.len() ==> is_done(statuses, #[trigger] links[i]),
    decreases links.len(),
{
    reveal(Seq::filter);
    let keep = |link: Seq<char>| !is_done(statuses, link);
    if links.len() > 0 {
        lemma_pending(statuses, links.drop_last());
        let rest = links.drop_last();
        if pending(statuses, links) == 0 {
            assert forall|i: int| 0 <= i < links.len() implies is_done(
                statuses,
                #[trigger] links[i],
            ) by {
                if i < rest.len() {
                    assert(rest[i] == links[i]);
                }
            }
        }
        if forall|i: int| 0 <= i < links.len() ==> is_done(statuses, #[trigger] links[i]) {
            assert forall|i: int| 0 <= i < rest.len() implies is_done(
                statuses,
                #[trigger] rest[i],
            ) by {
                assert(rest[i] == links[i]);
            }
            assert(is_done(statuses, links[links.len() - 1]));
        }
    }
}

/// Nothing is pending exactly where every link is done, and never more than there are links.
pub proof fn law_pending_counts_what_is_left(
    statuses: Map<Seq<char>, TorrentStatus>,
    links: Seq<Seq<char>>,
)
    ensures
        pending(statuses, links) <= links.len(),
        pending(statuses, links) == 0 <==> forall|i: int|
            0 <= i < links.len() ==> schedule_of(false, statuses, #[trigger] links[i])
                == Schedule::Skip,
{
    lemma_pending(statuses, links);
}

/// A run begins with the status that was remembered last for each link, and with none for a link
/// that was not remembered.
pub proof fn law_the_last_entry_of_a_link_counts(
    before: Seq<TorrentView>,
    torrent: TorrentView,
    after: Seq<TorrentView>,
    other: Seq<char>,
)
    requires
        forall|i: int| 0 <= i < after.len() ==> (#[trigger] after[i]).link != torrent.link,
    ensures
        status_table(before.push(torrent) + after).dom().contains(torrent.link),
        status_table(before.push(torrent) + after)[torrent.link] == torrent.status,
        (forall|i: int|
            0 <= i < before.push(torrent).len() + after.len() ==> (#[trigger] (before.push(torrent)
                + after)[i]).link != other) ==> !status_table(
            before.push(torrent) + after,
        ).dom().contains(other),
    decreases after.len(),
{
    let all = before.push(torrent) + after;
    if after.len() == 0 {
        assert(all =~= before.push(torrent));
        assert(all.drop_last() =~= before);
    } else {
        let rest = after.drop_last();
        assert forall|i: int| 0 <= i < rest.len() implies (#[trigger] rest[i]).link != torrent.link by {
            assert(rest[i] == after[i]);
        }
        law_the_last_entry_of_a_link_counts(before, torrent, rest, other);
        assert(all.drop_last() =~= before.push(torrent) + rest);
        assert(all.last() == after[after.len() - 1]);
    }
    lemma_table_domain(all, other);
}

/// A link is skipped exactly where it was downloaded or archived, and started where it waits, was
/// being downloaded or archived, has failed or is not known; once the run is to end nothing more is
/// taken up.
pub proof fn law_links_are_scheduled_by_their_status(
    statuses: Map<Seq<char>, TorrentStatus>,
    link: Seq<char>,
)
    ensures
        schedule_of(true, statuses, link) == Schedule::Stop,
        !statuses.dom().contains(link) ==> schedule_of(false, statuses, link) == Schedule::Start,
        statuses.dom().contains(link) ==> schedule_of(false, statuses, link) == (
        match statuses[link] {
            TorrentStatus::Pending => Schedule::Start,
            TorrentStatus::Downloading => Schedule::Start,
            TorrentStatus::Downloaded => Schedule::Skip,
            TorrentStatus::Archiving => Schedule::Start,
            TorrentStatus::Archived => Schedule::Skip,
            TorrentStatus::Failed => Schedule::Start,
        }),
{
}

/// Links are counted as pending one by one: each adds one unless it was downloaded or archived.
pub proof fn law_pending_links_are_counted_one_by_one(
    statuses: Map<Seq<char>, TorrentStatus>,
    links: Seq<Seq<char>>,
    link: Seq<char>,
)
    ensures
        pending(statuses, seq![]) == 0,
        pending(statuses, links.push(link)) == pending(statuses, links) + (if statuses.dom().contains(
            link,
        ) && (statuses[link] == TorrentStatus::Downloaded || statuses[link]
            == TorrentStatus::Archived) {
            0nat
        } else {
            1nat
        }),
{
    reveal(Seq::filter);
    assert(links.push(link).drop_last() =~= links);
    assert(links.push(link).last() == link);
}

/// Links are registered one by one: one that is remembered already changes nothing; one that is not
/// is remembered behind the others, under its name, as a torrent that waits and has no error, and
/// its status is that it waits.
pub proof fn law_links_are_registered_one_by_one(
    torrents: Seq<TorrentView>,
    statuses: Map<Seq<char>, TorrentStatus>,
    links: Seq<Seq<char>>,
    link: Seq<char>,
)
    ensures
        with_links(torrents, seq![]) == torrents,
        with_link_statuses(torrents, statuses, seq![]) == statuses,
        ({
            let before = with_links(torrents, links);
            let known = exists|i: int| 0 <= i < before.len() && (#[trigger] before[i]).link == link;
            let after = with_links(torrents, links.push(link));
            let table = with_link_statuses(torrents, statuses, links);
            let next = with_link_statuses(torrents, statuses, links.push(link));
            &&& known ==> after == before && next == table
            &&& !known ==> {
                &&& after.len() == before.len() + 1
                &&& after.drop_last() == before
                &&& after.last().name == name_of(link)
                &&& after.last().link == link
                &&& after.last().status == TorrentStatus::Pending
                &&& after.last().error is None
                &&& next == table.insert(link, TorrentStatus::Pending)
            }
        }),
{
    let more = links.push(link);
    assert(more.drop_last() =~= links);
    assert(more.last() == link);
    let before = with_links(torrents, links);
    assert(before.push(new_torrent(link)).drop_last() =~= before);
    assert(knows(before, link) <==> exists|i: int|
        0 <= i < before.len() && (#[trigger] before[i]).link == link);
}

/// Taking the statuses over gives each torrent the status that its link has in this run, where it has
/// one, and leaves it its own otherwise.
pub proof fn law_syncing_takes_statuses_over(
    torrents: Seq<TorrentView>,
    statuses: Map<Seq<char>, TorrentStatus>,
    i: int,
)
    requires
        0 <= i < torrents.len(),
    ensures
        statuses.dom().contains(torrents[i].link) ==> all_synced(torrents, statuses)[i].status
            == statuses[torrents[i].link],
        !statuses.dom().contains(torrents[i].link) ==> all_synced(torrents, statuses)[i]
            == torrents[i],
{
}

/// The settings, the torrents that are remembered, the wish to stop and the planned number are
/// untouched.
pub open spec fn is_same_otherwise(a: App, b: App) -> bool {
    &&& a.config == b.config
    &&& a.state@ == b.state@
    &&& a.shutdown == b.shutdown
    &&& a.total_torrents == b.total_torrents
}

/// Every link but `link` has the same status in both, or none in both.
pub open spec fn others_keep_their_status(a: App, b: App, link: Seq<char>) -> bool {
    forall|other: Seq<char>|
        other != link ==> (#[trigger] a.statuses().dom().contains(other)
            == b.statuses().dom().contains(other)) && (a.statuses().dom().contains(other)
            ==> a.statuses()[other] == b.statuses()[other])
}

/// Every link but `link` has the same bytes on their way in both, or none in both.
pub open spec fn others_keep_their_bytes(a: App, b: App, link: Seq<char>) -> bool {
    forall|other: Seq<char>|
        other != link ==> (#[trigger] a.active().dom().contains(other) == b.active().dom().contains(
            other,
        )) && (a.active().dom().contains(other) ==> a.active()[other] == b.active()[other])
}

/// A download that begins is downloading, with no bytes yet; nothing else changes.
pub proof fn law_a_download_begins(a: App, b: App, link: Seq<char>)
    requires
        started(a, b, link),
    ensures
        is_same_otherwise(a, b),
        b.statuses().dom().contains(link) && b.statuses()[link] == TorrentStatus::Downloading,
        others_keep_their_status(a, b, link),
        b.active().dom().contains(link) && b.active()[link] == 0,
        others_keep_their_bytes(a, b, link),
        b.completed_torrents == a.completed_torrents,
        b.completed_bytes == a.completed_bytes,
{
}

/// A download that goes on has the bytes that were reported, however many; nothing else changes.
pub proof fn law_a_download_goes_on(a: App, b: App, link: Seq<char>, bytes: u64)
    requires
        progressed(a, b, link, bytes),
    ensures
        is_same_otherwise(a, b),
        b.statuses() == a.statuses(),
        b.active().dom().contains(link) && b.active()[link] == bytes,
        others_keep_their_bytes(a, b, link),
        b.completed_torrents == a.completed_torrents,
        b.completed_bytes == a.completed_bytes,
{
}

/// A download that is done is downloaded and no longer on its way; one torrent and its bytes are
/// added to what is complete; nothing else changes.
pub proof fn law_a_download_is_done(a: App, b: App, link: Seq<char>, bytes: u64)
    requires
        finished(a, b, link, bytes),
    ensures
        is_same_otherwise(a, b),
        b.statuses().dom().contains(link) && b.statuses()[link] == TorrentStatus::Downloaded,
        others_keep_their_status(a, b, link),
        !b.active().dom().contains(link),
        others_keep_their_bytes(a, b, link),
        a.completed_torrents < usize::MAX ==> b.completed_torrents == a.completed_torrents + 1,
        a.completed_torrents == usize::MAX ==> b.completed_torrents == 0,
        a.completed_bytes + bytes <= u64::MAX ==> b.completed_bytes == a.completed_bytes + bytes,
        a.completed_bytes + bytes > u64::MAX ==> b.completed_bytes == a.completed_bytes + bytes
            - 0x1_0000_0000_0000_0000,
{
}

/// A download that does not succeed is no longer on its way. It has failed, unless the user ended the
/// run: then its status stays. Nothing else changes, and nothing is added to what is complete.
pub proof fn law_a_download_fails(a: App, b: App, link: Seq<char>)
    requires
        failed(a, b, link),
    ensures
        is_same_otherwise(a, b),
        !a.shutdown ==> b.statuses().dom().contains(link) && b.statuses()[link]
            == TorrentStatus::Failed,
        a.shutdown ==> b.statuses() == a.statuses(),
        others_keep_their_status(a, b, link),
        !b.active().dom().contains(link),
        others_keep_their_bytes(a, b, link),
        b.completed_torrents == a.completed_torrents,
        b.completed_bytes == a.completed_bytes,
{
}

/// A link that is marked has the status that it is marked with; nothing else changes.
pub proof fn law_a_link_is_marked(a: App, b: App, link: Seq<char>, status: TorrentStatus)
    requires
        marked(a, b, link, status),
    ensures
        is_same_otherwise(a, b),
        b.statuses().dom().contains(link) && b.statuses()[link] == status,
        others_keep_their_status(a, b, link),
        b.active() == a.active(),
        b.completed_torrents == a.completed_torrents,
        b.completed_bytes == a.completed_bytes,
{
}

/// All bytes are those that are complete, and with each download on its way its own besides.
pub proof fn law_all_bytes_are_counted(a: App, b: App, link: Seq<char>, bytes: u64)
    requires
        is_valid(a),
        !a.active().dom().contains(link),
        b.active() == a.active().insert(link, bytes),
        b.completed_bytes == a.completed_bytes,
    ensures
        b.total_bytes() == a.total_bytes() + bytes,
        a.active().dom() == Set::<Seq<char>>::empty() ==> a.total_bytes() == a.completed_bytes,
{
    law_a_new_key_adds_its_number(a.active(), link, bytes);
}

/// Where nothing changes, nothing does: neither the settings nor what is remembered, nor any status
/// or number.
pub proof fn law_nothing_changes(a: App, b: App)
    requires
        unchanged(a, b),
    ensures
        is_same_otherwise(a, b),
        b.statuses() == a.statuses(),
        b.active() == a.active(),
        b.completed_torrents == a.completed_torrents,
        b.completed_bytes == a.completed_bytes,
{
}

/// A run begins with its settings and with every torrent that is remembered, in its place; nothing is
/// planned, complete or on its way, and nobody has asked it to end.
pub proof fn law_a_run_begins_with_what_is_remembered(
    app: App,
    config: Config,
    torrents: Seq<TorrentView>,
)
    requires
        begun(app, config, torrents),
    ensures
        app.config == config,
        app.state@ == torrents,
        app.statuses() == status_table(torrents),
        app.shutdown == false,
        app.total_torrents == 0 && app.completed_torrents == 0 && app.completed_bytes == 0,
        forall|link: Seq<char>| !#[trigger] app.active().dom().contains(link),
        app.total_bytes() == 0,
{
}

/// Planning counts the links that are pending and changes the planned number alone.
pub proof fn law_planning_changes_the_planned_number_alone(
    a: App,
    b: App,
    links: Seq<Seq<char>>,
    count: nat,
)
    requires
        planned(a, b, links, count),
    ensures
        b.total_torrents == pending(a.statuses(), links),
        count == pending(a.statuses(), links),
        b.config == a.config && b.state@ == a.state@ && b.shutdown == a.shutdown,
        b.statuses() == a.statuses() && b.active() == a.active(),
        b.completed_torrents == a.completed_torrents && b.completed_bytes == a.completed_bytes,
{
}

/// Asking the run to end makes it take up no further link and no further archive, and changes nothing
/// else.
pub proof fn law_a_run_that_is_to_end_takes_up_nothing(
    a: App,
    b: App,
    c: App,
    link: Seq<char>,
    step: ArchiveStep,
)
    requires
        stopping(a, b),
    ensures
        schedule_of(b.shutdown, b.statuses(), link) == Schedule::Stop,
        archive_begun(b, c, link, step) ==> step is Stop,
        b.config == a.config && b.state@ == a.state@ && b.total_torrents == a.total_torrents,
        b.statuses() == a.statuses() && b.active() == a.active(),
        b.completed_torrents == a.completed_torrents && b.completed_bytes == a.completed_bytes,
{
}

/// A download that does not succeed is taken as interrupted, with the bytes that it had, exactly where
/// the run is to end, and as failed otherwise.
pub proof fn law_setbacks_tell_interruption_from_failure(a: App, b: App, link: Seq<char>, bytes: u64)
    requires
        progressed(a, b, link, bytes),
    ensures
        a.shutdown ==> setback_of(b, link) == Setback::Interrupted(bytes),
        !a.shutdown ==> setback_of(b, link) == Setback::Failed,
        a.shutdown && !a.active().dom().contains(link) ==> setback_of(a, link)
            == Setback::Interrupted(0),
{
}

/// Where the run goes on, the download of a link of this run is packed under its name and is being
/// archived, and that of any other link is left alone.
pub proof fn law_archives_are_packed_under_their_names(a: App, b: App, link: Seq<char>, step: ArchiveStep)
    requires
        archive_begun(a, b, link, step),
    ensures
        a.shutdown ==> step is Stop && b.statuses() == a.statuses(),
        !a.shutdown && !a.statuses().dom().contains(link) ==> step is Skip && b.statuses()
            == a.statuses(),
        !a.shutdown && a.statuses().dom().contains(link) ==> {
            &&& step matches ArchiveStep::Pack(name) && name@ == name_of(link)
            &&& b.statuses() == a.statuses().insert(link, TorrentStatus::Archiving)
        },
        is_same_otherwise(a, b),
        b.active() == a.active(),
        b.completed_torrents == a.completed_torrents && b.completed_bytes == a.completed_bytes,
{
}

/// Archiving that succeeds ends as archived, so that the link is skipped from then on; archiving that
/// does not ends as failed, so that the link is taken up again.
pub proof fn law_archiving_ends_as_archived_or_failed(
    statuses: Map<Seq<char>, TorrentStatus>,
    link: Seq<char>,
)
    ensures
        archive_end(true) == TorrentStatus::Archived,
        archive_end(false) == TorrentStatus::Failed,
        schedule_of(false, statuses.insert(link, archive_end(true)), link) == Schedule::Skip,
        schedule_of(false, statuses.insert(link, archive_end(false)), link) == Schedule::Start,
{
}

/// Registering links remembers the new ones and gives them their status; it changes nothing else.
pub proof fn law_registering_remembers_links_alone(a: App, b: App, links: Seq<Seq<char>>)
    requires
        registered(a, b, links),
    ensures
        b.state@ == with_links(a.state@, links),
        b.statuses() == with_link_statuses(a.state@, a.statuses(), links),
        b.config == a.config && b.shutdown == a.shutdown && b.total_torrents == a.total_torrents,
        b.active() == a.active(),
        b.completed_torrents == a.completed_torrents && b.completed_bytes == a.completed_bytes,
{
}

/// Taking the statuses over changes what is remembered and nothing else. A run that begins with what
/// is remembered then has the statuses with which this one ended, if each was held for a link that is
/// remembered.
pub proof fn law_taking_over_keeps_the_run(a: App, b: App, next: App, config: Config)
    requires
        taken_over(a, b),
    ensures
        b.state@ == all_synced(a.state@, a.statuses()),
        b.statuses() == a.statuses(),
        b.config == a.config && b.shutdown == a.shutdown && b.total_torrents == a.total_torrents,
        b.active() == a.active(),
        b.completed_torrents == a.completed_torrents && b.completed_bytes == a.completed_bytes,
        coherent(a.state@, a.statuses()) && begun(next, config, b.state@) ==> next.statuses()
            == a.statuses(),
{
    if coherent(a.state@, a.statuses()) {
        law_next_run_begins_where_the_last_ended(a.state@, a.statuses());
    }
}

/// A download begins under the name of its link, with no bytes yet.
pub proof fn law_a_download_begins_under_its_name(a: App, b: App, link: Seq<char>, name: Seq<char>)
    requires
        download_begun(a, b, link, name),
    ensures
        name == name_of(link),
        b.statuses() == a.statuses().insert(link, TorrentStatus::Downloading),
        b.active() == a.active().insert(link, 0),
        is_same_otherwise(a, b),
        b.completed_torrents == a.completed_torrents,
        b.completed_bytes == a.completed_bytes,
{
}

/// A download that is given up is no longer on its way. Where the run is to end it was interrupted, at
/// the bytes that it had come to, and its status stays; otherwise it has failed.
pub proof fn law_a_download_is_given_up(a: App, b: App, link: Seq<char>, setback: Setback)
    requires
        download_given_up(a, b, link, setback),
    ensures
        !a.shutdown ==> setback == Setback::Failed && b.statuses() == a.statuses().insert(
            link,
            TorrentStatus::Failed,
        ),
        a.shutdown ==> setback is Interrupted && b.statuses() == a.statuses(),
        a.shutdown && a.active().dom().contains(link) ==> setback == Setback::Interrupted(
            a.active()[link],
        ),
        a.shutdown && !a.active().dom().contains(link) ==> setback == Setback::Interrupted(0),
        b.active() == a.active().remove(link),
        is_same_otherwise(a, b),
        b.completed_torrents == a.completed_torrents,
        b.completed_bytes == a.completed_bytes,
{
}

/// Once archiving has ended, the link is archived where it succeeded, and failed where it did not;
/// nothing else changes.
pub proof fn law_an_archive_is_closed(a: App, b: App, link: Seq<char>, success: bool)
    requires
        archive_closed(a, b, link, success),
    ensures
        success ==> b.statuses() == a.statuses().insert(link, TorrentStatus::Archived),
        !success ==> b.statuses() == a.statuses().insert(link, TorrentStatus::Failed),
        b.active() == a.active(),
        is_same_otherwise(a, b),
        b.completed_torrents == a.completed_torrents,
        b.completed_bytes == a.completed_bytes,
{
}

/// The download manager is seen by what it holds: what is remembered, the status of each link and the
/// bytes of each running download.
pub proof fn law_the_manager_is_seen_by_what_it_holds(a: App)
    ensures
        a.torrents() == a.state@,
        a.statuses() == status_contents(a.status_map),
        a.active() == byte_contents(a.active_downloads),
{
}

} // verus!
