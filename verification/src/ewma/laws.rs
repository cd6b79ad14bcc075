//! What holds of the `ewma` policy as a whole.
use vstd::prelude::*;

use crate::bytes::contents;
use crate::ewma::balance::{
    counts, current_state, folded, ran, recorded, refused, resynced, stepped, turn_on,
    waiting_for, RunView, Turn, PEER_FAILED,
};
use crate::ewma::pick::{
    better, candidates, entry_of, gathered, lemma_candidates, lemma_candidates_empty, offered,
    picked, sampled,
};
use crate::ewma::setup::fresh_table;
use crate::ewma::slot::{indexed, key_of, keyed, law_keys_tell_addresses_apart, SlotTableView};
use crate::ewma::table::{
    blank, decayed, elapsed, lemma_slot_before, owns, rebuilt, slot_of, Sample, SlotView,
};
use crate::ewma::{AvailEntry, EwmaConfigView, EwmaPeerDataView, Host, SlotRef};
use crate::peer::{
    available, committed, eligible, exhausted, lemma_choice_is_final, mismatched, named, settled_on, GetStatus,
    ListStep, Peer, PeerDataView, PeerPos, PeersView,
};
use crate::score::Score;
use crate::tried::{covers, lemma_cleared, words_for};

verus! {

/// Every ordered pair of distinct positions comes of exactly one pair of
/// draws, so uniform draws make a uniform choice of two.
pub proof fn law_pairs_are_sampled_once(count: int, i: int, j: int)
    requires
        2 <= count <= usize::MAX,
        0 <= i < count,
        0 <= j < count,
        i != j,
    ensures
        ({
            let d = if j > i {
                j - 1
            } else {
                j
            };
            &&& 0 <= d < count - 1
            &&& sampled(i as usize, d as usize, count) == (i, j)
            &&& forall|r1: usize, r2: usize| #[trigger]
                sampled(r1, r2, count) == (i, j) ==> {
                    &&& r1 as int % count == i
                    &&& r2 as int % (count - 1) == d
                }
        }),
{
    let d = if j > i {
        j - 1
    } else {
        j
    };
    vstd::arithmetic::div_mod::lemma_small_mod(i as nat, count as nat);
    vstd::arithmetic::div_mod::lemma_small_mod(d as nat, (count - 1) as nat);
}

/// Of two candidates the picked one has a score that is at most the other's,
/// and the first is picked when the scores are equal.
pub proof fn law_lower_score_wins(a: AvailEntry, score_a: Score, b: AvailEntry, score_b: Score)
    requires
        !score_a.nan(),
        !score_b.nan(),
    ensures
        ({
            let (e, s) = better(a, score_a, b, score_b);
            &&& s.le(score_a)
            &&& s.le(score_b)
            &&& (e, s) == (a, score_a) || (e, s) == (b, score_b)
            &&& score_a.rank() == score_b.rank() ==> (e, s) == (a, score_a)
        }),
{
}

/// The candidates are the available peers, each once, in list order.
pub proof fn law_candidates_are_the_available(
    tried: Seq<usize>,
    peers: Seq<Peer>,
    t: Seq<SlotView>,
    n: int,
    now: i64,
)
    requires
        0 <= n <= peers.len() <= usize::MAX,
    ensures
        ({
            let all = candidates(tried, peers, t, n, now);
            &&& forall|c: int|
                0 <= c < all.len() ==> {
                    &&& (#[trigger] all[c]).peer_index < n
                    &&& available(
                        tried,
                        peers[all[c].peer_index as int],
                        all[c].peer_index as int,
                        now,
                    )
                    &&& all[c] == entry_of(t, peers, all[c].peer_index as int)
                }
            &&& forall|i: int|
                0 <= i < n && available(tried, #[trigger] peers[i], i, now) ==> all.contains(
                    entry_of(t, peers, i),
                )
            &&& forall|c: int, d: int|
                0 <= c < d < all.len() ==> (#[trigger] all[c]).peer_index < (
                #[trigger] all[d]).peer_index
        }),
    decreases n,
{
    if n > 0 {
        law_candidates_are_the_available(tried, peers, t, n - 1, now);
        let before = candidates(tried, peers, t, n - 1, now);
        let all = candidates(tried, peers, t, n, now);
        if available(tried, peers[n - 1], n - 1, now) {
            assert(all[all.len() - 1] == entry_of(t, peers, n - 1));
            assert forall|i: int|
                0 <= i < n && available(tried, #[trigger] peers[i], i, now) implies all.contains(
                entry_of(t, peers, i),
            ) by {
                if i < n - 1 {
                    assert(before.contains(entry_of(t, peers, i)));
                    let c = choose|c: int|
                        0 <= c < before.len() && before[c] == entry_of(t, peers, i);
                    assert(all[c] == before[c]);
                }
            }
        }
    }
}

/// A peer that is still there after a reload is found with the score, and the
/// time of it, that it had before.
pub proof fn law_survivors_keep_their_score(
    old_table: Seq<SlotView>,
    list: PeersView,
    mean: Score,
    now: usize,
    i: int,
)
    requires
        0 <= i < list.peers.len(),
        i < list.number,
        slot_of(old_table, contents(list.peers[i].sockaddr)) is Some,
    ensures
        ({
            let addr = contents(list.peers[i].sockaddr);
            let t = rebuilt(old_table, list, mean, now);
            let was = slot_of(old_table, addr)->0;
            &&& slot_of(t, addr) matches Some(is) && t[is] == old_table[was]
        }),
{
    let addr = contents(list.peers[i].sockaddr);
    let t = rebuilt(old_table, list, mean, now);
    lemma_slot_before(old_table, addr, old_table.len() as int);
    lemma_slot_before(t, addr, t.len() as int);
    assert(owns(t[i], addr));
}

/// A peer that turns up with a reload starts from the mean as of now, if there
/// is one; else with nothing recorded.
pub proof fn law_new_peers_start_from_the_mean(
    old_table: Seq<SlotView>,
    list: PeersView,
    mean: Score,
    now: usize,
    i: int,
)
    requires
        0 <= i < list.peers.len(),
        i < list.number,
        contents(list.peers[i].sockaddr) matches Some(a) && a.len() > 0,
        slot_of(old_table, contents(list.peers[i].sockaddr)) is None,
    ensures
        ({
            let addr = contents(list.peers[i].sockaddr);
            let t = rebuilt(old_table, list, mean, now);
            slot_of(t, addr) matches Some(is) && t[is] == if mean.positive() {
                SlotView { sockaddr: addr, ewma: mean, last_touched_msec: now }
            } else {
                SlotView { sockaddr: addr, ..blank() }
            }
        }),
{
    let addr = contents(list.peers[i].sockaddr);
    let t = rebuilt(old_table, list, mean, now);
    lemma_slot_before(t, addr, t.len() as int);
    assert(owns(t[i], addr));
}

/// A peer that is gone after a reload has no slot any more.
pub proof fn law_removed_peers_leave(
    old_table: Seq<SlotView>,
    list: PeersView,
    mean: Score,
    now: usize,
    addr: Option<Seq<u8>>,
)
    requires
        forall|i: int|
            0 <= i < list.peers.len() ==> contents((#[trigger] list.peers[i]).sockaddr) != addr,
    ensures
        slot_of(rebuilt(old_table, list, mean, now), addr) is None,
{
    let t = rebuilt(old_table, list, mean, now);
    lemma_slot_before(t, addr, t.len() as int);
    assert forall|i: int| 0 <= i < t.len() implies !owns(#[trigger] t[i], addr) by {
        if i < list.peers.len() {
            assert(contents(list.peers[i].sockaddr) != addr);
        }
    }
}

/// Bringing a table up to date with the same list once more changes nothing,
/// whatever the mean and the time then are.
pub proof fn law_resync_settles(
    old_table: Seq<SlotView>,
    list: PeersView,
    mean: Score,
    now: usize,
    mean2: Score,
    now2: usize,
)
    requires
        forall|i: int|
            0 <= i < list.peers.len() ==> (contents((#[trigger] list.peers[i]).sockaddr) matches Some(
                a,
            ) && a.len() > 0),
    ensures
        ({
            let t = rebuilt(old_table, list, mean, now);
            rebuilt(t, list, mean2, now2) == t
        }),
{
    let t = rebuilt(old_table, list, mean, now);
    assert forall|i: int| 0 <= i < t.len() implies #[trigger] rebuilt(t, list, mean2, now2)[i]
        == t[i] by {
        if i < list.peers.len() {
            let addr = contents(list.peers[i].sockaddr);
            lemma_slot_before(t, addr, t.len() as int);
            assert(owns(t[i], addr));
            let j = slot_of(t, addr)->0;
            assert(owns(t[j], addr));
            if j < list.peers.len() {
                assert(contents(list.peers[j].sockaddr) == addr);
            }
        }
    }
    assert(rebuilt(t, list, mean2, now2) =~= t);
}

/// In a table that has just been set up, the address of a peer finds a slot of
/// that address; where no other peer has the address, it is the slot at the
/// peer's own position.
pub proof fn law_fresh_slots_are_found(list: PeersView, i: int)
    requires
        0 <= i < list.peers.len(),
        i < list.number,
        contents(list.peers[i].sockaddr) matches Some(a) && a.len() > 0,
    ensures
        ({
            let addr = contents(list.peers[i].sockaddr);
            let t = fresh_table(list);
            &&& slot_of(t, addr) matches Some(j) && t[j] == (SlotView {
                sockaddr: addr,
                ..blank()
            })
            &&& (forall|j: int|
                0 <= j < list.peers.len() && j != i ==> contents((#[trigger] list.peers[j]).sockaddr)
                    != addr) ==> slot_of(t, addr) == Some(i)
        }),
{
    let addr = contents(list.peers[i].sockaddr);
    let t = fresh_table(list);
    lemma_slot_before(t, addr, t.len() as int);
    assert(owns(t[i], addr));
    let j = slot_of(t, addr)->0;
    assert(owns(t[j], addr));
    if j < list.peers.len() && j != i {
        assert(contents(list.peers[j].sockaddr) == addr);
    }
}

/// After an attempt on a list the request is of the list's generation, unless
/// the table could not be brought up to date.
pub proof fn law_generation_is_current(rrp: PeerDataView, list: PeersView)
    ensures
        !mismatched(current_state(rrp, list).config, list.config),
        current_state(rrp, list).tried == rrp.tried,
{
}

/// An attempt that selects a peer selects an available one, counts one
/// connection and one reference more on it, changes no other peer, and leaves
/// it unavailable to this request while every other peer stays as it was. Any
/// other attempt leaves the list as it was.
pub proof fn law_attempt_counts_once<D, A, G, R>(
    host: Host<D, A, G, R>,
    turn: Turn,
    primary_name: Option<Seq<u8>>,
    before: RunView,
    list: PeersView,
    step: ListStep,
    after: RunView,
    list_after: PeersView,
    i: int,
) where
    D: Fn(Score, usize) -> Score,
    A: Fn(Vec<Sample>) -> Score,
    G: Fn(usize) -> bool,
    R: Fn() -> usize,

    requires
        stepped(host, turn, primary_name, before, list, step, after, list_after),
        covers(before.rrp.tried, list.peers.len() as int),
        list.peers.len() <= usize::MAX,
        0 <= i < list.peers.len(),
    ensures
        step != ListStep::Selected ==> list_after == list,
        step == ListStep::Selected ==> ({
            let k = after.rrp.current->0.index as int;
            let tried = before.rrp.tried;
            let now = turn.now_sec;
            &&& after.rrp.current is Some
            &&& 0 <= k < list.peers.len()
            &&& available(tried, list.peers[k], k, now)
            &&& list_after == list.holding(list.peers.update(k, committed(list.peers[k], now)))
            &&& available(after.rrp.tried, list_after.peers[i], i, now) == (i != k && available(
                tried,
                list.peers[i],
                i,
                now,
            ))
        }),
{
    if step == ListStep::Selected {
        let rrp = current_state(before.rrp, list);
        let t = after.cfg.of(turn.is_backup);
        let cap = after.cfg.cap();
        let cands = offered(before.our.avail, cap, rrp.tried, list.peers, t, turn.now_sec);
        let k = after.rrp.current->0.index as int;
        let c = choose|c: int| 0 <= c < cands.len() && (#[trigger] cands[c]).peer_index == k;
        let all = candidates(rrp.tried, list.peers, t, list.peers.len() as int, turn.now_sec);
        assert(exists|c: int| 0 <= c < cands.len() && (#[trigger] cands[c]).peer_index == k);
        assert(all[c] == cands[c]);
        lemma_candidates(
            rrp.tried,
            list.peers,
            t,
            list.peers.len() as int,
            turn.now_sec,
            c,
        );
        lemma_choice_is_final(rrp.tried, list.peers, k, i, turn.now_sec);
    }
}

/// An attempt on a list that has been reloaded, with room for the new table,
/// goes on with that list: its table is brought up to date, the request takes
/// over its generation, and an available peer is found.
pub proof fn law_reload_is_served<D, A, G, R>(
    host: Host<D, A, G, R>,
    turn: Turn,
    primary_name: Option<Seq<u8>>,
    before: RunView,
    list: PeersView,
    step: ListStep,
    after: RunView,
    list_after: PeersView,
    i: int,
) where
    D: Fn(Score, usize) -> Score,
    A: Fn(Vec<Sample>) -> Score,
    G: Fn(usize) -> bool,
    R: Fn() -> usize,

    requires
        stepped(host, turn, primary_name, before, list, step, after, list_after),
        mismatched(before.rrp.config, list.config),
        !refused(host, before.cfg, list),
        before.our.avail is Some,
        0 <= i < list.peers.len(),
        list.number > 0,
        available(before.rrp.tried, list.peers[i], i, turn.now_sec),
    ensures
        step == ListStep::Selected,
        resynced(host, turn, before.cfg, list, after.cfg),
        after.rrp.config == list.config->0,
        after.cfg.of(turn.is_backup).len() == list.number,
{
    lemma_candidates_empty(
        before.rrp.tried,
        list.peers,
        after.cfg.of(turn.is_backup),
        list.peers.len() as int,
        turn.now_sec,
    );
}

/// The first step of a run of attempts.
pub proof fn lemma_first_step<D, A, G, R>(
    host: Host<D, A, G, R>,
    start: int,
    now_sec: i64,
    now_msec: usize,
    before: RunView,
    lists: Seq<PeersView>,
    l: int,
    status: GetStatus,
    after: RunView,
    lists_after: Seq<PeersView>,
) -> (r: (ListStep, RunView, PeersView)) where
    D: Fn(Score, usize) -> Score,
    A: Fn(Vec<Sample>) -> Score,
    G: Fn(usize) -> bool,
    R: Fn() -> usize,

    requires
        ran(host, start, now_sec, now_msec, before, lists, l, status, after, lists_after),
    ensures
        stepped(
            host,
            turn_on(lists, l, now_sec, now_msec),
            lists[start].name,
            before,
            lists[l],
            r.0,
            r.1,
            r.2,
        ),
        match r.0 {
            ListStep::Selected => {
                &&& status == GetStatus::Selected
                &&& after == r.1
                &&& lists_after == lists.update(l, r.2)
            },
            ListStep::Busy => {
                &&& status == GetStatus::Busy
                &&& after == r.1
                &&& lists_after == lists
            },
            ListStep::Backup => ran(
                host,
                start,
                now_sec,
                now_msec,
                r.1,
                lists,
                l + 1,
                status,
                after,
                lists_after,
            ),
        },
{
    choose|step: ListStep, mid: RunView, list: PeersView|
        {
            &&& #[trigger] stepped(
                host,
                turn_on(lists, l, now_sec, now_msec),
                lists[start].name,
                before,
                lists[l],
                step,
                mid,
                list,
            )
            &&& match step {
                ListStep::Selected => {
                    &&& status == GetStatus::Selected
                    &&& after == mid
                    &&& lists_after == lists.update(l, list)
                },
                ListStep::Busy => {
                    &&& status == GetStatus::Busy
                    &&& after == mid
                    &&& lists_after == lists
                },
                ListStep::Backup => ran(
                    host,
                    start,
                    now_sec,
                    now_msec,
                    mid,
                    lists,
                    l + 1,
                    status,
                    after,
                    lists_after,
                ),
            }
        }
}

/// The search ends with a peer of the list that it starts on, if that list is
/// not stale, has an available peer, and there is room for a candidate.
pub proof fn law_first_list_wins<D, A, G, R>(
    host: Host<D, A, G, R>,
    start: int,
    now_sec: i64,
    now_msec: usize,
    before: RunView,
    lists: Seq<PeersView>,
    l: int,
    status: GetStatus,
    after: RunView,
    lists_after: Seq<PeersView>,
    i: int,
) where
    D: Fn(Score, usize) -> Score,
    A: Fn(Vec<Sample>) -> Score,
    G: Fn(usize) -> bool,
    R: Fn() -> usize,

    requires
        ran(host, start, now_sec, now_msec, before, lists, l, status, after, lists_after),
        0 <= l < lists.len(),
        !mismatched(before.rrp.config, lists[l].config),
        before.our.avail is Some,
        before.cfg.cap() > 0,
        0 <= i < lists[l].peers.len(),
        available(before.rrp.tried, lists[l].peers[i], i, now_sec),
    ensures
        status == GetStatus::Selected,
        after.rrp.peers == before.rrp.peers,
        lists_after == lists.update(l, lists_after[l]),
{
    let (step, mid, list) = lemma_first_step(
        host,
        start,
        now_sec,
        now_msec,
        before,
        lists,
        l,
        status,
        after,
        lists_after,
    );
    let turn = turn_on(lists, l, now_sec, now_msec);
    lemma_candidates_empty(
        before.rrp.tried,
        lists[l].peers,
        before.cfg.of(turn.is_backup),
        lists[l].peers.len() as int,
        now_sec,
    );
    assert(step == ListStep::Selected);
    assert(lists_after =~= lists.update(l, lists_after[l]));
}

/// When a list that is not stale has no available peer, the search goes on to
/// the next one with none of its peers tried, and an eligible peer there is
/// found.
pub proof fn law_backup_is_reached<D, A, G, R>(
    host: Host<D, A, G, R>,
    start: int,
    now_sec: i64,
    now_msec: usize,
    before: RunView,
    lists: Seq<PeersView>,
    l: int,
    status: GetStatus,
    after: RunView,
    lists_after: Seq<PeersView>,
    i: int,
) where
    D: Fn(Score, usize) -> Score,
    A: Fn(Vec<Sample>) -> Score,
    G: Fn(usize) -> bool,
    R: Fn() -> usize,

    requires
        ran(host, start, now_sec, now_msec, before, lists, l, status, after, lists_after),
        0 <= l < lists.len() - 1,
        !mismatched(before.rrp.config, lists[l].config),
        exhausted(before.rrp.tried, lists[l].peers, now_sec),
        !mismatched(before.rrp.config, lists[l + 1].config),
        before.our.avail is Some,
        before.cfg.cap() > 0,
        0 <= i < lists[l + 1].peers.len(),
        i < lists[l + 1].number,
        words_for(lists[l + 1].number as int) <= before.rrp.tried.len(),
        eligible(lists[l + 1].peers[i], now_sec),
    ensures
        status == GetStatus::Selected,
        after.rrp.peers == Some((l + 1) as usize),
        lists_after == lists.update(l + 1, lists_after[l + 1]),
{
    let turn = turn_on(lists, l, now_sec, now_msec);
    let (step, mid, list) = lemma_first_step(
        host,
        start,
        now_sec,
        now_msec,
        before,
        lists,
        l,
        status,
        after,
        lists_after,
    );
    lemma_candidates_empty(
        before.rrp.tried,
        lists[l].peers,
        before.cfg.of(turn.is_backup),
        lists[l].peers.len() as int,
        now_sec,
    );
    assert(step == ListStep::Backup);
    lemma_cleared(before.rrp.tried, lists[l + 1].number as int, i);
    law_first_list_wins(
        host,
        start,
        now_sec,
        now_msec,
        mid,
        lists,
        l + 1,
        status,
        after,
        lists_after,
        i,
    );
}

/// While no list is stale, giving up means that the list the search started on
/// has no available peer and no further list has an eligible one. It changes
/// no list and no pick, and leaves the connection with the name of the list
/// that the call started on.
pub proof fn law_busy_means_exhausted<D, A, G, R>(
    host: Host<D, A, G, R>,
    start: int,
    now_sec: i64,
    now_msec: usize,
    before: RunView,
    lists: Seq<PeersView>,
    l: int,
    after: RunView,
    lists_after: Seq<PeersView>,
    q: int,
    i: int,
) where
    D: Fn(Score, usize) -> Score,
    A: Fn(Vec<Sample>) -> Score,
    G: Fn(usize) -> bool,
    R: Fn() -> usize,

    requires
        ran(host, start, now_sec, now_msec, before, lists, l, GetStatus::Busy, after, lists_after),
        0 <= l < lists.len(),
        forall|j: int|
            l <= j < lists.len() ==> !mismatched(before.rrp.config, (#[trigger] lists[j]).config),
        forall|j: int|
            l < j < lists.len() ==> words_for((#[trigger] lists[j]).number as int)
                <= before.rrp.tried.len(),
        before.our.avail is Some,
        before.cfg.cap() > 0,
        l <= q < lists.len(),
        0 <= i < lists[q].peers.len(),
        q > l ==> i < lists[q].number,
    ensures
        q == l ==> !available(before.rrp.tried, lists[q].peers[i], i, now_sec),
        q > l ==> !eligible(lists[q].peers[i], now_sec),
        lists_after == lists,
        after.pc == named(before.pc, lists[start].name),
        after.cfg == before.cfg,
        after.our == (EwmaPeerDataView { avail: after.our.avail, ..before.our }),
    decreases lists.len() - l,
{
    let turn = turn_on(lists, l, now_sec, now_msec);
    let status = GetStatus::Busy;
    let (step, mid, list) = lemma_first_step(
        host,
        start,
        now_sec,
        now_msec,
        before,
        lists,
        l,
        status,
        after,
        lists_after,
    );
    assert(!mismatched(before.rrp.config, lists[l].config));
    lemma_candidates_empty(
        before.rrp.tried,
        lists[l].peers,
        before.cfg.of(turn.is_backup),
        lists[l].peers.len() as int,
        now_sec,
    );
    if step == ListStep::Backup {
        if q > l {
            law_busy_means_exhausted(
                host,
                start,
                now_sec,
                now_msec,
                mid,
                lists,
                l + 1,
                after,
                lists_after,
                q,
                i,
            );
            if q == l + 1 {
                lemma_cleared(before.rrp.tried, lists[l + 1].number as int, i);
            }
        } else {
            lemma_busy_leaves(
                host,
                start,
                now_sec,
                now_msec,
                mid,
                lists,
                l + 1,
                after,
                lists_after,
            );
        }
    }
}

proof fn lemma_busy_leaves<D, A, G, R>(
    host: Host<D, A, G, R>,
    start: int,
    now_sec: i64,
    now_msec: usize,
    before: RunView,
    lists: Seq<PeersView>,
    l: int,
    after: RunView,
    lists_after: Seq<PeersView>,
) where
    D: Fn(Score, usize) -> Score,
    A: Fn(Vec<Sample>) -> Score,
    G: Fn(usize) -> bool,
    R: Fn() -> usize,

    requires
        ran(host, start, now_sec, now_msec, before, lists, l, GetStatus::Busy, after, lists_after),
        0 <= l < lists.len(),
        forall|j: int|
            l <= j < lists.len() ==> !mismatched(before.rrp.config, (#[trigger] lists[j]).config),
    ensures
        lists_after == lists,
        after.pc == named(before.pc, lists[start].name),
        after.cfg == before.cfg,
        after.our == (EwmaPeerDataView { avail: after.our.avail, ..before.our }),
    decreases lists.len() - l,
{
    let turn = turn_on(lists, l, now_sec, now_msec);
    let status = GetStatus::Busy;
    let (step, mid, list) = lemma_first_step(
        host,
        start,
        now_sec,
        now_msec,
        before,
        lists,
        l,
        status,
        after,
        lists_after,
    );
    assert(!mismatched(before.rrp.config, lists[l].config));
    if step == ListStep::Backup {
        lemma_busy_leaves(
            host,
            start,
            now_sec,
            now_msec,
            mid,
            lists,
            l + 1,
            after,
            lists_after,
        );
    }
}

/// The pick that waits for its round-trip time names the slot that the address
/// of the selected peer finds, and shows that slot's decayed average.
pub proof fn law_pick_names_the_peers_slot<D, A, G, R>(
    host: Host<D, A, G, R>,
    turn: Turn,
    primary_name: Option<Seq<u8>>,
    before: RunView,
    list: PeersView,
    after: RunView,
    list_after: PeersView,
) where
    D: Fn(Score, usize) -> Score,
    A: Fn(Vec<Sample>) -> Score,
    G: Fn(usize) -> bool,
    R: Fn() -> usize,

    requires
        stepped(
            host,
            turn,
            primary_name,
            before,
            list,
            ListStep::Selected,
            after,
            list_after,
        ),
        list.peers.len() <= usize::MAX,
        after.cfg.of(turn.is_backup).len() <= usize::MAX,
    ensures
        ({
            let k = after.rrp.current->0.index as int;
            let t = after.cfg.of(turn.is_backup);
            let addr = contents(list.peers[k].sockaddr);
            &&& after.rrp.current is Some
            &&& after.rrp.current->0.list == turn.list
            &&& 0 <= k < list.peers.len()
            &&& after.our.pick_valid
            &&& after.our.pick_start_msec == turn.now_msec
            &&& match after.our.pick_slot {
                Some(s) => s.is_backup == turn.is_backup && slot_of(t, addr) == Some(
                    s.index as int,
                ),
                None => slot_of(t, addr) is None,
            }
            &&& decayed(
                host.decay,
                match slot_of(t, addr) {
                    Some(j) => Some(t[j]),
                    None => None,
                },
                turn.now_msec,
                after.our.pick_score,
            )
        }),
{
    let rrp = current_state(before.rrp, list);
    let t = after.cfg.of(turn.is_backup);
    let cap = after.cfg.cap();
    let cands = offered(before.our.avail, cap, rrp.tried, list.peers, t, turn.now_sec);
    let all = candidates(rrp.tried, list.peers, t, list.peers.len() as int, turn.now_sec);
    let pick = choose|pick: (AvailEntry, Score)|
        {
            &&& #[trigger] picked(host, cands, t, turn.now_msec, pick)
            &&& cands.contains(pick.0)
            &&& after.rrp == settled_on(
                rrp,
                PeerPos { list: turn.list, index: pick.0.peer_index },
            )
            &&& after.our == waiting_for(
                gathered(before.our, cap, rrp.tried, list.peers, t, turn.now_sec),
                turn,
                pick,
            )
        };
    let c = choose|c: int| 0 <= c < cands.len() && cands[c] == pick.0;
    assert(all[c] == cands[c]);
    lemma_candidates(rrp.tried, list.peers, t, list.peers.len() as int, turn.now_sec, c);
    let k = pick.0.peer_index as int;
    lemma_slot_before(t, contents(list.peers[k].sockaddr), t.len() as int);
}

/// A call that selects a peer, on whichever list it starts and ends, records
/// the slot that the peer has in the table of its own list, the time, and that
/// slot's decayed average. While no list is stale no table changes.
pub proof fn law_pick_is_in_its_lists_table<D, A, G, R>(
    host: Host<D, A, G, R>,
    start: int,
    now_sec: i64,
    now_msec: usize,
    before: RunView,
    lists: Seq<PeersView>,
    l: int,
    after: RunView,
    lists_after: Seq<PeersView>,
) where
    D: Fn(Score, usize) -> Score,
    A: Fn(Vec<Sample>) -> Score,
    G: Fn(usize) -> bool,
    R: Fn() -> usize,

    requires
        ran(
            host,
            start,
            now_sec,
            now_msec,
            before,
            lists,
            l,
            GetStatus::Selected,
            after,
            lists_after,
        ),
        lists.len() <= usize::MAX,
        forall|j: int| l <= j < lists.len() ==> (#[trigger] lists[j]).peers.len() <= usize::MAX,
        after.cfg.primary.len() <= usize::MAX,
        after.cfg.backup.len() <= usize::MAX,
    ensures
        ({
            let m = after.rrp.current->0.list as int;
            let k = after.rrp.current->0.index as int;
            let t = after.cfg.of(m != 0);
            let addr = contents(lists[m].peers[k].sockaddr);
            &&& after.rrp.current is Some
            &&& l <= m < lists.len()
            &&& 0 <= k < lists[m].peers.len()
            &&& after.our.pick_valid
            &&& after.our.pick_start_msec == now_msec
            &&& match after.our.pick_slot {
                Some(s) => s.is_backup == (m != 0) && slot_of(t, addr) == Some(s.index as int),
                None => slot_of(t, addr) is None,
            }
            &&& decayed(
                host.decay,
                match slot_of(t, addr) {
                    Some(j) => Some(t[j]),
                    None => None,
                },
                now_msec,
                after.our.pick_score,
            )
        }),
        (forall|j: int|
            l <= j < lists.len() ==> !mismatched(before.rrp.config, (#[trigger] lists[j]).config))
            ==> after.cfg == before.cfg,
    decreases lists.len() - l,
{
    let turn = turn_on(lists, l, now_sec, now_msec);
    let (step, mid, list) = lemma_first_step(
        host,
        start,
        now_sec,
        now_msec,
        before,
        lists,
        l,
        GetStatus::Selected,
        after,
        lists_after,
    );
    assert(lists[l].peers.len() <= usize::MAX);
    if step == ListStep::Selected {
        law_pick_names_the_peers_slot(
            host,
            turn,
            lists[start].name,
            before,
            lists[l],
            after,
            list,
        );
    } else {
        law_pick_is_in_its_lists_table(
            host,
            start,
            now_sec,
            now_msec,
            mid,
            lists,
            l + 1,
            after,
            lists_after,
        );
    }
    if forall|j: int|
        l <= j < lists.len() ==> !mismatched(before.rrp.config, (#[trigger] lists[j]).config) {
        assert(!mismatched(before.rrp.config, lists[l].config));
    }
}

/// However a call ends, the tables go on to call the same list the primary
/// one, and a call that starts on a backup list leaves the primary table as it
/// was.
pub proof fn law_primary_table_is_the_primary_lists<D, A, G, R>(
    host: Host<D, A, G, R>,
    start: int,
    now_sec: i64,
    now_msec: usize,
    before: RunView,
    lists: Seq<PeersView>,
    l: int,
    status: GetStatus,
    after: RunView,
    lists_after: Seq<PeersView>,
) where
    D: Fn(Score, usize) -> Score,
    A: Fn(Vec<Sample>) -> Score,
    G: Fn(usize) -> bool,
    R: Fn() -> usize,

    requires
        ran(host, start, now_sec, now_msec, before, lists, l, status, after, lists_after),
    ensures
        before.cfg.primary_peers == Some(0usize) ==> after.cfg.primary_peers == Some(0usize),
        l > 0 ==> after.cfg.primary_peers == before.cfg.primary_peers && after.cfg.primary
            == before.cfg.primary,
    decreases lists.len() - l,
{
    let (step, mid, list) = lemma_first_step(
        host,
        start,
        now_sec,
        now_msec,
        before,
        lists,
        l,
        status,
        after,
        lists_after,
    );
    if step == ListStep::Backup {
        law_primary_table_is_the_primary_lists(
            host,
            start,
            now_sec,
            now_msec,
            mid,
            lists,
            l + 1,
            status,
            after,
            lists_after,
        );
    }
}

/// A failed attempt, an attempt that saw a reload, and the end of an attempt
/// that has been ended before count towards no score.
pub proof fn law_only_good_attempts_count(
    our: EwmaPeerDataView,
    rrp: Option<PeerDataView>,
    primary: Option<PeersView>,
    state: usize,
)
    ensures
        state & PEER_FAILED != 0 ==> !counts(our, rrp, primary, state),
        rrp matches Some(d) && primary matches Some(p) && mismatched(d.config, p.config)
            ==> !counts(our, rrp, primary, state),
        !counts((EwmaPeerDataView { pick_valid: false, ..our }), rrp, primary, state),
{
}

/// Recording a round-trip time changes one slot and nothing else of the
/// tables; the slot keeps its address and is as of now.
pub proof fn law_recording_touches_one_slot<B: Fn(Score, usize, usize) -> Score>(
    blend: B,
    before: EwmaConfigView,
    slot: SlotRef,
    rtt: usize,
    now: usize,
    after: EwmaConfigView,
    is_backup: bool,
    i: int,
)
    requires
        recorded(blend, before, slot, rtt, now, after),
        0 <= i < before.of(is_backup).len(),
    ensures
        after.of(is_backup).len() == before.of(is_backup).len(),
        after.zone == before.zone,
        after.primary_peers == before.primary_peers,
        after.of(is_backup)[i].sockaddr == before.of(is_backup)[i].sockaddr,
        if is_backup == slot.is_backup && i == slot.index {
            after.of(is_backup)[i].last_touched_msec == now
        } else {
            after.of(is_backup)[i] == before.of(is_backup)[i]
        },
{
}

/// The host's two functions come to the same number for an attempt that took no
/// time, whatever finite average that is not negative it is folded into.
pub open spec fn idle_agrees<D: Fn(Score, usize) -> Score, B: Fn(Score, usize, usize) -> Score>(
    decay: D,
    blend: B,
) -> bool {
    forall|e: Score, td: usize, a: Score, b: Score|
        Score::nil().le(e) && e.finite() && #[trigger] call_ensures(decay, (e, td), a)
            && #[trigger] call_ensures(blend, (e, td, 0), b) ==> a.le(b) && b.le(a)
}

/// The host's decay takes a finite score that is not negative towards zero:
/// never below it, and no higher the more time has passed.
pub open spec fn fades<D: Fn(Score, usize) -> Score>(decay: D) -> bool {
    forall|e: Score, short: usize, long: usize, a: Score, b: Score|
        Score::nil().le(e) && e.finite() && short <= long && #[trigger] call_ensures(decay, (e, short), a)
            && #[trigger] call_ensures(decay, (e, long), b) ==> {
            &&& Score::nil().le(b)
            &&& b.le(a)
            &&& a.le(e)
        }
}

/// Where the host's two functions agree on an attempt that took no time, the
/// score that is read of a slot is the number that such an attempt would leave
/// in it: reading and recording take the same average over the same time.
pub proof fn law_reading_is_an_idle_update<
    D: Fn(Score, usize) -> Score,
    B: Fn(Score, usize, usize) -> Score,
>(decay: D, blend: B, slot: SlotView, now: usize, read: Score, updated: SlotView)
    requires
        idle_agrees(decay, blend),
        Score::nil().le(slot.ewma),
        slot.ewma.finite(),
        decayed(decay, Some(slot), now, read),
        folded(blend, slot, 0, now, updated),
    ensures
        read.le(updated.ewma),
        updated.ewma.le(read),
{
}

/// Where the host's decay fades, the score of a slot that nothing is recorded
/// in falls from its average towards zero as time goes on.
pub proof fn law_idle_scores_fall<D: Fn(Score, usize) -> Score>(
    decay: D,
    slot: SlotView,
    sooner: usize,
    later: usize,
    first: Score,
    second: Score,
)
    requires
        fades(decay),
        Score::nil().le(slot.ewma),
        slot.ewma.finite(),
        sooner <= later,
        decayed(decay, Some(slot), sooner, first),
        decayed(decay, Some(slot), later, second),
    ensures
        Score::nil().le(second),
        second.le(first),
        first.le(slot.ewma),
{
    assert(elapsed(slot.last_touched_msec, sooner) <= elapsed(slot.last_touched_msec, later));
}

proof fn lemma_indexed(peers: Seq<Peer>, n: int, addr: Option<Seq<u8>>)
    requires
        0 <= n <= peers.len() <= usize::MAX,
        keyed(addr),
        forall|i: int| 0 <= i < n ==> keyed(contents((#[trigger] peers[i]).sockaddr)),
    ensures
        ({
            let m = indexed(Map::empty(), peers, n);
            let k = key_of(addr);
            &&& m.contains_key(k) ==> {
                &&& m[k] < n
                &&& contents(peers[m[k] as int].sockaddr) == addr
                &&& forall|j: int|
                    m[k] < j < n ==> contents((#[trigger] peers[j]).sockaddr) != addr
            }
            &&& !m.contains_key(k) ==> forall|j: int|
                0 <= j < n ==> contents((#[trigger] peers[j]).sockaddr) != addr
        }),
    decreases n,
{
    if n > 0 {
        lemma_indexed(peers, n - 1, addr);
        law_keys_tell_addresses_apart(contents(peers[n - 1].sockaddr), addr);
    }
}

/// In a table that has just been set up with its index, the index has for an
/// address the last slot that was stamped with it, and none for an address
/// that no slot was stamped with.
pub proof fn law_index_has_last_stamped(peers: Seq<Peer>, n: int, addr: Option<Seq<u8>>)
    requires
        0 <= n <= peers.len() <= usize::MAX,
        keyed(addr),
        forall|i: int| 0 <= i < n ==> keyed(contents((#[trigger] peers[i]).sockaddr)),
    ensures
        ({
            let m = indexed(Map::empty(), peers, n);
            let k = key_of(addr);
            &&& m.contains_key(k) <==> exists|j: int|
                0 <= j < n && contents((#[trigger] peers[j]).sockaddr) == addr
            &&& m.contains_key(k) ==> {
                &&& m[k] < n
                &&& contents(peers[m[k] as int].sockaddr) == addr
                &&& forall|j: int|
                    m[k] < j < n ==> contents((#[trigger] peers[j]).sockaddr) != addr
            }
        }),
{
    lemma_indexed(peers, n, addr);
}

/// Where no two peers share an address, the index finds the same slot as going
/// through the table does.
pub proof fn law_index_agrees_with_table(list: PeersView, addr: Option<Seq<u8>>)
    requires
        list.peers.len() == list.number,
        keyed(addr),
        forall|i: int|
            0 <= i < list.peers.len() ==> keyed(contents((#[trigger] list.peers[i]).sockaddr)),
        forall|i: int, j: int|
            0 <= i < j < list.peers.len() ==> contents((#[trigger] list.peers[i]).sockaddr)
                != contents((#[trigger] list.peers[j]).sockaddr),
    ensures
        ({
            let m = indexed(Map::empty(), list.peers, list.peers.len() as int);
            let t = SlotTableView { slots: fresh_table(list), pool: Some(m), slab: None };
            slot_of(t.slots, addr) == match t.lookup(addr) {
                Some(j) => Some(j as int),
                None => None,
            }
        }),
{
    let n = list.peers.len() as int;
    let m = indexed(Map::empty(), list.peers, n);
    let t = fresh_table(list);
    lemma_indexed(list.peers, n, addr);
    lemma_slot_before(t, addr, n);
    if m.contains_key(key_of(addr)) {
        let j = m[key_of(addr)] as int;
        assert(owns(t[j], addr));
        law_fresh_slots_are_found(list, j);
    } else {
        assert forall|i: int| 0 <= i < n implies !owns(#[trigger] t[i], addr) by {
            assert(contents(list.peers[i].sockaddr) != addr);
        }
    }
}

} // verus!
