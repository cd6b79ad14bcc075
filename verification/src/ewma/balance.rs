//! The calls of the host: a peer for a request, and the end of an attempt.
use vstd::prelude::*;

use crate::bytes::{contents, copy_contents};
use crate::ewma::pick::{
    avail_cap, can_pick, collect_available, gathered, lemma_candidates, lemma_candidates_empty,
    offered, pick_fits, pick_one, picked, slots_for,
};
use crate::ewma::table::{
    elapsed, ewma_update, mean_of, rebuild_slots, rebuilt, room_granted, room_refused,
    slow_start_mean, Sample, SlotView,
};
use crate::ewma::{
    AvailEntry, EwmaConfig, EwmaConfigView, EwmaPeerData, EwmaPeerDataView, Host, SlotRef,
};
use crate::peer::{
    available, busy_with_primary_name, clear_cached_connection, committed, config_mismatch,
    exhausted, headed_for, mismatched, moved_to, named, next_of, none_available, peers_single,
    select_peer, settled_on, switch_peers_and_clear_tried, sync_config_generation, synced,
    uncached, views, GetStatus, ListStep, NextList, PeerConnection, PeerConnectionView, PeerData,
    PeerDataView, PeerPos, Peers, PeersView,
};
use crate::score::Score;
use crate::tried::{words_for, words_needed};

verus! {

/// The bit of an attempt's end state that says that it failed.
pub const PEER_FAILED: usize = 4;

/// One attempt on one list.
#[derive(Clone, Copy, Debug, PartialEq, Eq, Structural)]
pub struct Turn {
    /// The host's number for the list.
    pub list: usize,
    /// Whether it is another list than the primary one, with another table.
    pub is_backup: bool,
    /// The list to fall back to.
    pub next: Option<NextList>,
    pub now_sec: i64,
    pub now_msec: usize,
}

/// All that an attempt works on besides the lists.
#[verifier::ext_equal]
pub struct RunView {
    pub pc: PeerConnectionView,
    pub rrp: PeerDataView,
    pub our: EwmaPeerDataView,
    pub cfg: EwmaConfigView,
}

/// The tables cannot be brought up to date: they are not in a zone, or the
/// zone has no room.
pub open spec fn refused<D, A, G, R>(
    host: Host<D, A, G, R>,
    cfg: EwmaConfigView,
    list: PeersView,
) -> bool where
    D: Fn(Score, usize) -> Score,
    A: Fn(Vec<Sample>) -> Score,
    G: Fn(usize) -> bool,
    R: Fn() -> usize,
 {
    !cfg.zone || room_refused(host.grant, list.number as int, host.slot_size as int)
}

/// The tables after a table has been brought up to date with its list.
pub open spec fn resynced<D, A, G, R>(
    host: Host<D, A, G, R>,
    turn: Turn,
    before: EwmaConfigView,
    list: PeersView,
    after: EwmaConfigView,
) -> bool where
    D: Fn(Score, usize) -> Score,
    A: Fn(Vec<Sample>) -> Score,
    G: Fn(usize) -> bool,
    R: Fn() -> usize,
 {
    &&& before.zone
    &&& room_granted(host.grant, list.number as int, host.slot_size as int)
    &&& exists|mean: Score|
        {
            &&& #[trigger] mean_of(host.average, before.of(turn.is_backup), turn.now_msec, mean)
            &&& after == before.with(
                turn.is_backup,
                rebuilt(before.of(turn.is_backup), list, mean, turn.now_msec),
                turn.list,
            )
        }
}

/// The request's state once its generation is that of the list.
pub open spec fn current_state(rrp: PeerDataView, list: PeersView) -> PeerDataView {
    if mismatched(rrp.config, list.config) {
        synced(rrp, list.config)
    } else {
        rrp
    }
}

/// The request's data once `pick` has been committed.
pub open spec fn waiting_for(
    our: EwmaPeerDataView,
    turn: Turn,
    pick: (AvailEntry, Score),
) -> EwmaPeerDataView {
    EwmaPeerDataView {
        pick_valid: true,
        pick_slot: match pick.0.slot {
            Some(index) => Some(SlotRef { is_backup: turn.is_backup, index }),
            None => None,
        },
        pick_start_msec: turn.now_msec,
        pick_score: pick.1,
        ..our
    }
}

/// The attempt on a list whose table is up to date.
pub open spec fn attempted<D, A, G, R>(
    host: Host<D, A, G, R>,
    turn: Turn,
    primary_name: Option<Seq<u8>>,
    before: RunView,
    list: PeersView,
    step: ListStep,
    after: RunView,
    list_after: PeersView,
) -> bool where
    D: Fn(Score, usize) -> Score,
    A: Fn(Vec<Sample>) -> Score,
    G: Fn(usize) -> bool,
    R: Fn() -> usize,
 {
    let rrp = current_state(before.rrp, list);
    let t = after.cfg.of(turn.is_backup);
    let cap = after.cfg.cap();
    let cands = offered(before.our.avail, cap, rrp.tried, list.peers, t, turn.now_sec);
    let our = gathered(before.our, cap, rrp.tried, list.peers, t, turn.now_sec);
    if cands.len() == 0 {
        &&& list_after == list
        &&& match turn.next {
            Some(n) => {
                &&& step == ListStep::Backup
                &&& after.pc == before.pc
                &&& after.rrp == moved_to(rrp, n)
                &&& after.our == our
            },
            None => {
                &&& step == ListStep::Busy
                &&& after.pc == named(before.pc, primary_name)
                &&& after.rrp == rrp
                &&& after.our == our
            },
        }
    } else {
        exists|pick: (AvailEntry, Score)|
            {
                let k = pick.0.peer_index as int;
                &&& #[trigger] picked(host, cands, t, turn.now_msec, pick)
                &&& cands.contains(pick.0)
                &&& 0 <= k < list.peers.len()
                &&& step == ListStep::Selected
                &&& list_after == list.holding(
                    list.peers.update(k, committed(list.peers[k], turn.now_sec)),
                )
                &&& after.pc == headed_for(before.pc, list.peers[k])
                &&& after.rrp == settled_on(
                    rrp,
                    PeerPos { list: turn.list, index: pick.0.peer_index },
                )
                &&& after.our == waiting_for(our, turn, pick)
            }
    }
}

/// What an attempt on one list may come to, with whatever the host answers.
/// The table of a list of another generation is brought up to date first;
/// where that is refused the attempt ends.
pub open spec fn stepped<D, A, G, R>(
    host: Host<D, A, G, R>,
    turn: Turn,
    primary_name: Option<Seq<u8>>,
    before: RunView,
    list: PeersView,
    step: ListStep,
    after: RunView,
    list_after: PeersView,
) -> bool where
    D: Fn(Score, usize) -> Score,
    A: Fn(Vec<Sample>) -> Score,
    G: Fn(usize) -> bool,
    R: Fn() -> usize,
 {
    if mismatched(before.rrp.config, list.config) {
        ||| {
            &&& refused(host, before.cfg, list)
            &&& step == ListStep::Busy
            &&& after == (RunView { pc: named(before.pc, primary_name), ..before })
            &&& list_after == list
        }
        ||| {
            &&& resynced(host, turn, before.cfg, list, after.cfg)
            &&& attempted(host, turn, primary_name, before, list, step, after, list_after)
        }
    } else {
        &&& after.cfg == before.cfg
        &&& attempted(host, turn, primary_name, before, list, step, after, list_after)
    }
}

/// An attempt on the list may lead on to the next one: no peer is available,
/// or there may be no room for candidates.
pub open spec fn may_pass(rrp: PeerDataView, no_room: bool, list: PeersView, now: i64) -> bool {
    ||| no_room
    ||| mismatched(rrp.config, list.config)
    ||| exhausted(rrp.tried, list.peers, now)
}

/// The attempt on a list can be worked out.
pub open spec fn step_fits(
    rrp: PeerDataView,
    our: EwmaPeerDataView,
    cfg: EwmaConfigView,
    list: PeersView,
    next: Option<NextList>,
    now: i64,
) -> bool {
    (mismatched(rrp.config, list.config) && !cfg.zone) || {
        &&& pick_fits(rrp.tried, list.peers, now)
        &&& next is Some && may_pass(rrp, our.avail is None || cfg.cap() == 0, list, now)
            ==> words_for(next->0.number as int) <= rrp.tried.len()
    }
}

/// Every attempt from list `l` on can be worked out.
pub open spec fn run_fits(
    rrp: PeerDataView,
    zone: bool,
    no_room: bool,
    lists: Seq<PeersView>,
    l: int,
    now: i64,
) -> bool
    decreases lists.len() - l,
{
    if l < 0 || l >= lists.len() || (mismatched(rrp.config, lists[l].config) && !zone) {
        true
    } else {
        &&& pick_fits(rrp.tried, lists[l].peers, now)
        &&& l + 1 < lists.len() && may_pass(rrp, no_room, lists[l], now) ==> {
            &&& words_for(lists[l + 1].number as int) <= rrp.tried.len()
            &&& run_fits(
                moved_to(current_state(rrp, lists[l]), next_of(lists, l)),
                zone,
                no_room || mismatched(rrp.config, lists[l].config),
                lists,
                l + 1,
                now,
            )
        }
    }
}

/// The attempt on list `l`. The first list is the primary one.
pub open spec fn turn_on(
    lists: Seq<PeersView>,
    l: int,
    now_sec: i64,
    now_msec: usize,
) -> Turn {
    Turn {
        list: l as usize,
        is_backup: l != 0,
        next: if l + 1 < lists.len() {
            Some(next_of(lists, l))
        } else {
            None
        },
        now_sec,
        now_msec,
    }
}

/// What the attempts from list `l` on may come to, with whatever the host
/// answers: one list after the other, until one of them ends the search.
pub open spec fn ran<D, A, G, R>(
    host: Host<D, A, G, R>,
    start: int,
    now_sec: i64,
    now_msec: usize,
    before: RunView,
    lists: Seq<PeersView>,
    l: int,
    status: GetStatus,
    after: RunView,
    lists_after: Seq<PeersView>,
) -> bool where
    D: Fn(Score, usize) -> Score,
    A: Fn(Vec<Sample>) -> Score,
    G: Fn(usize) -> bool,
    R: Fn() -> usize,

    decreases lists.len() - l,
{
    let turn = turn_on(lists, l, now_sec, now_msec);
    0 <= l < lists.len() && exists|step: ListStep, mid: RunView, list: PeersView|
        {
            &&& #[trigger] stepped(
                host,
                turn,
                lists[start].name,
                before,
                lists[l],
                step,
                mid,
                list,
            )
            &&& match step {
                ListStep::Selected => {
                    &&& status == GetStatus::Selected
                    &&& after == mid
                    &&& lists_after == lists.update(l, list)
                },
                ListStep::Busy => {
                    &&& status == GetStatus::Busy
                    &&& after == mid
                    &&& lists_after == lists
                },
                ListStep::Backup => ran(
                    host,
                    start,
                    now_sec,
                    now_msec,
                    mid,
                    lists,
                    l + 1,
                    status,
                    after,
                    lists_after,
                ),
            }
        }
}

/// Bring the table of a list up to date after its peers have changed. Peers
/// that are still there keep their score; new ones start from the mean. Fails,
/// and changes nothing, where the tables are not in a zone or the zone has no
/// room.
pub fn resync_slots<D, A, G, R>(
    cfg: &mut EwmaConfig,
    peers: &Peers,
    turn: Turn,
    host: &Host<D, A, G, R>,
) -> (r: Result<(), ()>) where
    D: Fn(Score, usize) -> Score,
    A: Fn(Vec<Sample>) -> Score,
    G: Fn(usize) -> bool,
    R: Fn() -> usize,

    requires
        host.ready(),
    ensures
        match r {
            Ok(_) => resynced(*host, turn, old(cfg)@, peers@, final(cfg)@),
            Err(_) => refused(*host, old(cfg)@, peers@) && final(cfg)@ == old(cfg)@,
        },
{
    if !cfg.zone {
        return Err(());
    }
    let mean = slow_start_mean(slots_for(cfg, turn.is_backup), turn.now_msec, &host.average);
    if peers.number != 0 {
        match peers.number.checked_mul(host.slot_size) {
            None => {
                return Err(());
            },
            Some(bytes) => {
                if !(host.grant)(bytes) {
                    return Err(());
                }
            },
        }
    }
    let new_slots = rebuild_slots(slots_for(cfg, turn.is_backup), peers, mean, turn.now_msec);
    if turn.is_backup {
        cfg.backup_slots = new_slots;
    } else {
        cfg.primary_peers = Some(turn.list);
        cfg.primary_slots = new_slots;
    }
    assert(cfg@ =~= old(cfg)@.with(
        turn.is_backup,
        rebuilt(old(cfg)@.of(turn.is_backup), peers@, mean, turn.now_msec),
        turn.list,
    ));
    Ok(())
}

/// Whether the attempt on a list can be worked out.
pub fn can_try(
    rrp: &PeerData,
    our: &EwmaPeerData,
    cfg: &EwmaConfig,
    peers: &Peers,
    next: Option<NextList>,
    now: i64,
) -> (r: bool)
    ensures
        r == step_fits(rrp@, our@, cfg@, peers@, next, now),
{
    let stale = config_mismatch(rrp, peers);
    if stale && !cfg.zone {
        return true;
    }
    if !can_pick(rrp, peers, now) {
        return false;
    }
    match next {
        None => true,
        Some(n) => {
            let no_room = our.avail_buf.is_none() || avail_cap(cfg) == 0;
            words_needed(n.number) <= rrp.tried.len() || !(no_room || stale || none_available(
                rrp,
                peers,
                now,
            ))
        },
    }
}

/// The attempt on one list, for a host that locks each list on its own. Bring
/// the table up to date if the list has been reloaded; then pick from the
/// list, else move on to the next one, else give up. `primary_name` is the
/// name of the list that the call started on.
pub fn try_list<D, A, G, R>(
    pc: &mut PeerConnection,
    rrp: &mut PeerData,
    our: &mut EwmaPeerData,
    cfg: &mut EwmaConfig,
    peers: &mut Peers,
    turn: Turn,
    primary_name: &Option<Vec<u8>>,
    host: &Host<D, A, G, R>,
) -> (r: ListStep) where
    D: Fn(Score, usize) -> Score,
    A: Fn(Vec<Sample>) -> Score,
    G: Fn(usize) -> bool,
    R: Fn() -> usize,

    requires
        host.ready(),
        step_fits(old(rrp)@, old(our)@, old(cfg)@, old(peers)@, turn.next, turn.now_sec),
    ensures
        stepped(
            *host,
            turn,
            contents(*primary_name),
            (RunView { pc: old(pc)@, rrp: old(rrp)@, our: old(our)@, cfg: old(cfg)@ }),
            old(peers)@,
            r,
            (RunView { pc: final(pc)@, rrp: final(rrp)@, our: final(our)@, cfg: final(cfg)@ }),
            final(peers)@,
        ),
{
    let ghost before = RunView { pc: pc@, rrp: rrp@, our: our@, cfg: cfg@ };
    let ghost list = peers@;
    if config_mismatch(rrp, peers) {
        if resync_slots(cfg, peers, turn, host).is_err() {
            let _ = busy_with_primary_name(pc, Some(primary_name));
            return ListStep::Busy;
        }
        sync_config_generation(rrp, peers);
    }
    assert(rrp@ == current_state(before.rrp, list));
    let count: usize = collect_available(rrp, peers, turn.now_sec, our, cfg, turn.is_backup);
    let ghost t = cfg@.of(turn.is_backup);
    let ghost cands = offered(
        before.our.avail,
        cfg@.cap(),
        rrp@.tried,
        list.peers,
        t,
        turn.now_sec,
    );
    if count == 0 {
        proof {
            lemma_candidates_empty(
                rrp@.tried,
                list.peers,
                t,
                list.peers.len() as int,
                turn.now_sec,
            );
        }
        match turn.next {
            Some(n) => {
                switch_peers_and_clear_tried(rrp, n);
                return ListStep::Backup;
            },
            None => {
                let _ = busy_with_primary_name(pc, Some(primary_name));
                return ListStep::Busy;
            },
        }
    }
    let (entry, score) = match &our.avail_buf {
        Some(buf) => pick_one(buf, slots_for(cfg, turn.is_backup), turn.now_msec, host),
        None => {
            assert(false);
            return ListStep::Busy;
        },
    };
    let k: usize = entry.peer_index;
    proof {
        let c = choose|c: int| 0 <= c < cands.len() && cands[c] == entry;
        assert(list.peers.len() == peers.peers.len());
        lemma_candidates(
            rrp@.tried,
            list.peers,
            t,
            list.peers.len() as int,
            turn.now_sec,
            c,
        );
        assert(available(rrp@.tried, list.peers[k as int], k as int, turn.now_sec));
    }
    select_peer(
        pc,
        rrp,
        &mut peers.peers[k],
        PeerPos { list: turn.list, index: k },
        turn.now_sec,
    );
    our.pick_valid = true;
    our.pick_slot = match entry.slot {
        Some(index) => Some(SlotRef { is_backup: turn.is_backup, index }),
        None => None,
    };
    our.pick_start_msec = turn.now_msec;
    our.pick_score = score;
    assert(picked(*host, cands, t, turn.now_msec, (entry, score)));
    ListStep::Selected
}

/// What a request for a peer may come to. A single server is left to the host;
/// else the attempts on the lists decide.
pub open spec fn got<D, A, G, R>(
    host: Host<D, A, G, R>,
    now_sec: i64,
    now_msec: usize,
    before: RunView,
    lists: Seq<PeersView>,
    status: GetStatus,
    after: RunView,
    lists_after: Seq<PeersView>,
) -> bool where
    D: Fn(Score, usize) -> Score,
    A: Fn(Vec<Sample>) -> Score,
    G: Fn(usize) -> bool,
    R: Fn() -> usize,
 {
    match before.rrp.peers {
        None => {
            &&& status == GetStatus::Busy
            &&& after == (RunView { pc: uncached(before.pc), ..before })
            &&& lists_after == lists
        },
        Some(l) => if lists[l as int].single {
            &&& status == GetStatus::RoundRobin
            &&& after == before
            &&& lists_after == lists
        } else {
            ran(
                host,
                l as int,
                now_sec,
                now_msec,
                (RunView { pc: uncached(before.pc), ..before }),
                lists,
                l as int,
                status,
                after,
                lists_after,
            )
        },
    }
}

/// Find a peer for a request: of two random available peers of the first list
/// that has any, the one with the lower score. `lists` holds the primary list
/// and then the backup lists, each followed by the one to fall back to; scores
/// of the first are in the primary table, those of the others in the backup
/// table, wherever the request starts.
pub fn get_peer<D, A, G, R>(
    pc: &mut PeerConnection,
    rrp: &mut PeerData,
    our: &mut EwmaPeerData,
    cfg: &mut EwmaConfig,
    lists: &mut Vec<Peers>,
    now_sec: i64,
    now_msec: usize,
    host: &Host<D, A, G, R>,
) -> (r: GetStatus) where
    D: Fn(Score, usize) -> Score,
    A: Fn(Vec<Sample>) -> Score,
    G: Fn(usize) -> bool,
    R: Fn() -> usize,

    requires
        host.ready(),
        old(rrp).peers matches Some(l) ==> {
            &&& l < old(lists)@.len()
            &&& !old(lists)@[l as int].single ==> run_fits(
                old(rrp)@,
                old(cfg).zone,
                old(our)@.avail is None || old(cfg)@.cap() == 0,
                views(old(lists)@),
                l as int,
                now_sec,
            )
        },
    ensures
        got(
            *host,
            now_sec,
            now_msec,
            (RunView { pc: old(pc)@, rrp: old(rrp)@, our: old(our)@, cfg: old(cfg)@ }),
            views(old(lists)@),
            r,
            (RunView { pc: final(pc)@, rrp: final(rrp)@, our: final(our)@, cfg: final(cfg)@ }),
            views(final(lists)@),
        ),
{
    let start = match rrp.peers {
        Some(l) => l,
        None => {
            clear_cached_connection(pc);
            return busy_with_primary_name(pc, None);
        },
    };
    if peers_single(Some(&lists[start])) {
        return GetStatus::RoundRobin;
    }
    let primary_name = copy_contents(&lists[start].name);
    clear_cached_connection(pc);

    let ghost seen = views(lists@);
    let ghost s0 = RunView { pc: pc@, rrp: rrp@, our: our@, cfg: cfg@ };
    let ghost mut no_room = our@.avail is None || cfg@.cap() == 0;
    let mut l: usize = start;
    let n: usize = lists.len();
    loop
        invariant
            start <= l < n,
            n == lists@.len(),
            n == seen.len(),
            host.ready(),
            contents(primary_name) == seen[start as int].name,
            views(lists@) == seen,
            seen == views(old(lists)@),
            s0 == (RunView {
                pc: uncached(old(pc)@),
                rrp: old(rrp)@,
                our: old(our)@,
                cfg: old(cfg)@,
            }),
            old(rrp).peers == Some(start),
            start < old(lists)@.len(),
            !old(lists)@[start as int].single,
            our@.avail is None || cfg@.cap() == 0 ==> no_room,
            run_fits(rrp@, cfg@.zone, no_room, seen, l as int, now_sec),
            forall|status: GetStatus, after: RunView, lists_after: Seq<PeersView>|
                ran(
                    *host,
                    start as int,
                    now_sec,
                    now_msec,
                    (RunView { pc: pc@, rrp: rrp@, our: our@, cfg: cfg@ }),
                    seen,
                    l as int,
                    status,
                    after,
                    lists_after,
                ) ==> #[trigger] ran(
                    *host,
                    start as int,
                    now_sec,
                    now_msec,
                    s0,
                    seen,
                    start as int,
                    status,
                    after,
                    lists_after,
                ),
        decreases n - l,
    {
        assert(seen[l as int] == lists@[l as int]@);
        let next = if l + 1 < n {
            assert(seen[l + 1] == lists@[l + 1]@);
            Some(NextList { list: l + 1, number: lists[l + 1].number })
        } else {
            None
        };
        let turn = Turn { list: l, is_backup: l != 0, next, now_sec, now_msec };
        let ghost before = RunView { pc: pc@, rrp: rrp@, our: our@, cfg: cfg@ };
        let step = try_list(pc, rrp, our, cfg, &mut lists[l], turn, &primary_name, host);
        let ghost after = RunView { pc: pc@, rrp: rrp@, our: our@, cfg: cfg@ };
        assert(turn == turn_on(seen, l as int, now_sec, now_msec));
        assert(stepped(
            *host,
            turn,
            seen[start as int].name,
            before,
            seen[l as int],
            step,
            after,
            lists@[l as int]@,
        ));
        match step {
            ListStep::Selected => {
                assert(views(lists@) =~= seen.update(l as int, lists@[l as int]@));
                assert(ran(
                    *host,
                    start as int,
                    now_sec,
                    now_msec,
                    before,
                    seen,
                    l as int,
                    GetStatus::Selected,
                    after,
                    views(lists@),
                ));
                return GetStatus::Selected;
            },
            ListStep::Busy => {
                assert(views(lists@) =~= seen);
                assert(ran(
                    *host,
                    start as int,
                    now_sec,
                    now_msec,
                    before,
                    seen,
                    l as int,
                    GetStatus::Busy,
                    after,
                    views(lists@),
                ));
                return GetStatus::Busy;
            },
            ListStep::Backup => {
                assert(views(lists@) =~= seen);
                proof {
                    lemma_candidates_empty(
                        current_state(before.rrp, seen[l as int]).tried,
                        seen[l as int].peers,
                        after.cfg.of(turn.is_backup),
                        seen[l as int].peers.len() as int,
                        now_sec,
                    );
                    no_room = no_room || mismatched(before.rrp.config, seen[l as int].config);
                }
                l = l + 1;
            },
        }
    }
}

/// What the host does about the connection once an attempt is over.
#[derive(Clone, Copy, Debug, PartialEq, Eq, Structural)]
pub enum FreeStatus {
    /// The host's round-robin frees the peer.
    RoundRobin,
    /// There is nothing to free.
    Nothing,
}

/// The end of an attempt counts towards a score: a pick is waiting, the
/// attempt did not fail, and the lists are still of the request's generation.
pub open spec fn counts(
    our: EwmaPeerDataView,
    rrp: Option<PeerDataView>,
    primary: Option<PeersView>,
    state: usize,
) -> bool {
    &&& our.pick_valid
    &&& primary is Some
    &&& state & PEER_FAILED == 0
    &&& rrp is Some
    &&& !mismatched(rrp->0.config, primary->0.config)
}

/// A slot with a round-trip time of `rtt` folded into it.
pub open spec fn folded<B: Fn(Score, usize, usize) -> Score>(
    blend: B,
    before: SlotView,
    rtt: usize,
    now: usize,
    after: SlotView,
) -> bool {
    &&& call_ensures(
        blend,
        (before.ewma, elapsed(before.last_touched_msec, now), rtt),
        after.ewma,
    )
    &&& after.last_touched_msec == now
    &&& after.sockaddr == before.sockaddr
}

/// The tables after a round-trip time has been folded into one slot.
pub open spec fn recorded<B: Fn(Score, usize, usize) -> Score>(
    blend: B,
    before: EwmaConfigView,
    slot: SlotRef,
    rtt: usize,
    now: usize,
    after: EwmaConfigView,
) -> bool {
    let t = before.of(slot.is_backup);
    let i = slot.index as int;
    if i < t.len() {
        exists|s: SlotView|
            {
                &&& #[trigger] folded(blend, t[i], rtt, now, s)
                &&& after == if slot.is_backup {
                    EwmaConfigView { backup: t.update(i, s), ..before }
                } else {
                    EwmaConfigView { primary: t.update(i, s), ..before }
                }
            }
    } else {
        after == before
    }
}

/// The tables after the end of an attempt: an attempt that counts has its
/// round-trip time folded into the slot that was picked.
pub open spec fn ended<B: Fn(Score, usize, usize) -> Score>(
    blend: B,
    our: EwmaPeerDataView,
    rrp: Option<PeerDataView>,
    primary: Option<PeersView>,
    state: usize,
    now: usize,
    before: EwmaConfigView,
    after: EwmaConfigView,
) -> bool {
    if counts(our, rrp, primary, state) && our.pick_slot is Some {
        recorded(blend, before, our.pick_slot->0, elapsed(our.pick_start_msec, now), now, after)
    } else {
        after == before
    }
}

/// Fold a round-trip time into the slot `at`, if there is one.
fn record<B: Fn(Score, usize, usize) -> Score>(
    cfg: &mut EwmaConfig,
    at: SlotRef,
    rtt: usize,
    now: usize,
    blend: &B,
)
    requires
        forall|e: Score, t: usize, r: usize| call_requires(*blend, (e, t, r)),
    ensures
        recorded(*blend, old(cfg)@, at, rtt, now, final(cfg)@),
{
    let ghost before = cfg@;
    let ghost i = at.index as int;
    if at.is_backup {
        if at.index < cfg.backup_slots.len() {
            ewma_update(&mut cfg.backup_slots[at.index], rtt, now, blend);
            proof {
                let s = cfg.backup_slots@[i]@;
                assert(folded(*blend, before.backup[i], rtt, now, s));
                assert(cfg@.backup =~= before.backup.update(i, s));
            }
        }
    } else if at.index < cfg.primary_slots.len() {
        ewma_update(&mut cfg.primary_slots[at.index], rtt, now, blend);
        proof {
            let s = cfg.primary_slots@[i]@;
            assert(folded(*blend, before.primary[i], rtt, now, s));
            assert(cfg@.primary =~= before.primary.update(i, s));
        }
    }
}

/// The end of an attempt: fold its round-trip time into the score of the peer
/// that was picked, unless the attempt failed or the lists have been reloaded
/// since. Either way no pick is waiting any more, so a second call changes no
/// score. `primary` is the list that the tables call the primary one.
pub fn free_peer<B: Fn(Score, usize, usize) -> Score>(
    our: &mut EwmaPeerData,
    config: &mut Option<EwmaConfig>,
    rrp: Option<&PeerData>,
    primary: Option<&Peers>,
    state: usize,
    now: usize,
    blend: &B,
) -> (r: FreeStatus)
    requires
        forall|e: Score, t: usize, rtt: usize| call_requires(*blend, (e, t, rtt)),
    ensures
        r == (if rrp is Some {
            FreeStatus::RoundRobin
        } else {
            FreeStatus::Nothing
        }),
        final(our)@ == (EwmaPeerDataView { pick_valid: false, ..old(our)@ }),
        *final(config) is Some == *old(config) is Some,
        *old(config) is Some ==> ended(
            *blend,
            old(our)@,
            match rrp {
                Some(d) => Some(d@),
                None => None,
            },
            match primary {
                Some(p) => Some(p@),
                None => None,
            },
            state,
            now,
            old(config)->0@,
            final(config)->0@,
        ),
{
    if our.pick_valid {
        let failed = state & PEER_FAILED != 0;
        if let Some(cfg) = config {
            if let Some(list) = primary {
                let stale = match rrp {
                    Some(d) => config_mismatch(d, list),
                    None => true,
                };
                if !failed && !stale {
                    let rtt: usize = if now >= our.pick_start_msec {
                        now - our.pick_start_msec
                    } else {
                        0
                    };
                    if let Some(at) = our.pick_slot {
                        record(cfg, at, rtt, now, blend);
                    }
                }
            }
        }
        our.pick_valid = false;
    }
    match rrp {
        Some(_) => FreeStatus::RoundRobin,
        None => FreeStatus::Nothing,
    }
}

} // verus!
