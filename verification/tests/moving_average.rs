use std::cell::Cell;

use ngx_balancer_rs::ewma::balance::{
    can_try, free_peer, get_peer, resync_slots, try_list, FreeStatus, Turn, PEER_FAILED,
};
use ngx_balancer_rs::ewma::pick::{
    avail_cap, can_pick, choose_better, collect_available, p2c_pick, pick_of_draws, pick_one,
    sample_two,
    slots_for,
};
use ngx_balancer_rs::ewma::table::{
    decay_score, ewma_update, find_slot_by_sockaddr, rebuild_slots, slow_start_mean,
    slow_start_samples, stamp_slot_identities, zeroed_slots, EwmaSlot, Sample,
};
use ngx_balancer_rs::ewma::{AvailEntry, EwmaConfig, EwmaPeerData, Host, SlotRef};
use ngx_balancer_rs::peer::{
    GetStatus, ListStep, NextList, Peer, PeerConnection, PeerData, PeerPos, Peers,
};
use ngx_balancer_rs::score::Score;

const DECAY_MSEC: f64 = 10_000.0;

fn score(x: f64) -> Score {
    Score { bits: x.to_bits() }
}

fn value(s: Score) -> f64 {
    f64::from_bits(s.bits)
}

fn decay(e: Score, td: usize) -> Score {
    score(value(e) * (-(td as f64) / DECAY_MSEC).exp())
}

fn average(all: Vec<Sample>) -> Score {
    let sum: f64 = all.iter().map(|s| value(decay(s.ewma, s.elapsed))).sum();
    score(sum / all.len() as f64)
}

fn blend(e: Score, td: usize, rtt: usize) -> Score {
    let w = (-(td as f64) / DECAY_MSEC).exp();
    score(value(e) * w + rtt as f64 * (1.0 - w))
}

fn host<R: Fn() -> usize>(
    room: bool,
    random: R,
) -> Host<
    impl Fn(Score, usize) -> Score,
    impl Fn(Vec<Sample>) -> Score,
    impl Fn(usize) -> bool,
    R,
> {
    Host { decay, average, grant: move |_: usize| room, random, slot_size: 32 }
}

fn peer(n: u8) -> Peer {
    Peer {
        sockaddr: Some(vec![2, 0, n]),
        name: vec![b'p', n],
        weight: 1,
        effective_weight: 1,
        current_weight: 0,
        conns: 0,
        max_conns: 0,
        fails: 0,
        max_fails: 1,
        checked: 0,
        fail_timeout: 10,
        down: 0,
        refs: 0,
    }
}

fn list(name: &str, peers: Vec<Peer>) -> Peers {
    Peers {
        name: Some(name.as_bytes().to_vec()),
        number: peers.len(),
        single: false,
        config: None,
        peers,
    }
}

fn slot(n: u8, ewma: f64, at: usize) -> EwmaSlot {
    EwmaSlot { sockaddr: Some(vec![2, 0, n]), ewma: score(ewma), last_touched_msec: at }
}

fn config(primary: Vec<EwmaSlot>, backup: Vec<EwmaSlot>) -> EwmaConfig {
    EwmaConfig {
        primary_peers: Some(0),
        primary_slots: primary,
        backup_slots: backup,
        zone: false,
    }
}

fn ours() -> EwmaPeerData {
    EwmaPeerData {
        avail_buf: Some(vec![]),
        pick_valid: false,
        pick_slot: None,
        pick_start_msec: 0,
        pick_score: score(0.0),
    }
}

fn data() -> PeerData {
    PeerData { config: 0, peers: Some(0), current: None, tried: vec![0] }
}

fn connection() -> PeerConnection {
    PeerConnection { sockaddr: None, name: None, cached: true, connection: Some(1) }
}

fn turn(is_backup: bool, next: Option<NextList>) -> Turn {
    Turn { list: 0, is_backup, next, now_sec: 50, now_msec: 2000 }
}

#[test]
fn addresses_find_their_slots() {
    let slots = vec![slot(1, 0.0, 0), slot(2, 0.0, 0), slot(2, 0.0, 0), zeroed_slots(1).remove(0)];
    assert_eq!(find_slot_by_sockaddr(&slots, &Some(vec![2, 0, 2])), Some(1));
    assert_eq!(find_slot_by_sockaddr(&slots, &Some(vec![2, 0, 3])), None);
    assert_eq!(find_slot_by_sockaddr(&slots, &Some(vec![2, 0])), None);
    assert_eq!(find_slot_by_sockaddr(&slots, &Some(vec![])), None);
    assert_eq!(find_slot_by_sockaddr(&slots, &None), None);
}

#[test]
fn stamping_goes_position_by_position() {
    let l = list("u", vec![peer(1), peer(2)]);
    let mut three = zeroed_slots(3);
    stamp_slot_identities(&l, &mut three);
    let found: Vec<Option<Vec<u8>>> = three.into_iter().map(|s| s.sockaddr).collect();
    assert_eq!(found, vec![Some(vec![2, 0, 1]), Some(vec![2, 0, 2]), None]);
    let mut one = zeroed_slots(1);
    stamp_slot_identities(&l, &mut one);
    assert_eq!(one[0].sockaddr, Some(vec![2, 0, 1]));
}

#[test]
fn scores_decay_towards_zero() {
    let s = slot(1, 100.0, 1000);
    assert_eq!(value(decay_score(Some(&s), 1000, &decay)), 100.0);
    assert_eq!(value(decay_score(Some(&s), 11_000, &decay)), 100.0 * (-1.0f64).exp());
    // The clock went back.
    assert_eq!(value(decay_score(Some(&s), 500, &decay)), 100.0);
    assert_eq!(value(decay_score(None, 1000, &decay)), 0.0);
}

#[test]
fn a_round_trip_is_folded_in() {
    let mut s = slot(1, 100.0, 1000);
    ewma_update(&mut s, 20, 11_000, &blend);
    let w = (-1.0f64).exp();
    assert_eq!(value(s.ewma), 100.0 * w + 20.0 * (1.0 - w));
    assert_eq!(s.last_touched_msec, 11_000);
    assert_eq!(s.sockaddr, Some(vec![2, 0, 1]));
}

#[test]
fn the_mean_is_over_recorded_averages() {
    let slots = vec![slot(1, 30.0, 2000), slot(2, 77.0, 0), slot(3, 10.0, 2500)];
    assert_eq!(
        slow_start_samples(&slots, 2000),
        vec![
            Sample { ewma: score(30.0), elapsed: 0 },
            Sample { ewma: score(10.0), elapsed: 0 }
        ]
    );
    assert_eq!(value(slow_start_mean(&slots, 2000, &average)), 20.0);
    assert_eq!(value(slow_start_mean(&zeroed_slots(2), 2000, &average)), 0.0);
    let fail = |_: Vec<Sample>| -> Score { panic!("nothing to average") };
    assert_eq!(value(slow_start_mean(&vec![], 2000, &fail)), 0.0);
}

#[test]
fn survivors_keep_scores_and_newcomers_get_the_mean() {
    let old = vec![slot(1, 30.0, 2000), slot(2, 10.0, 1500)];
    let l = list("u", vec![peer(3), peer(1)]);
    let new = rebuild_slots(&old, &l, score(20.0), 3000);
    assert_eq!(new.len(), 2);
    assert_eq!(new[0].sockaddr, Some(vec![2, 0, 3]));
    assert_eq!((value(new[0].ewma), new[0].last_touched_msec), (20.0, 3000));
    assert_eq!(new[1].sockaddr, Some(vec![2, 0, 1]));
    assert_eq!((value(new[1].ewma), new[1].last_touched_msec), (30.0, 2000));
    // The peer that left is not found any more.
    assert_eq!(find_slot_by_sockaddr(&new, &Some(vec![2, 0, 2])), None);
}

#[test]
fn without_a_mean_newcomers_start_blank() {
    let l = list("u", vec![peer(3)]);
    for mean in [0.0, -1.0, f64::NAN] {
        let new = rebuild_slots(&vec![], &l, score(mean), 3000);
        assert_eq!((value(new[0].ewma), new[0].last_touched_msec), (0.0, 0));
        assert_eq!(new[0].sockaddr, Some(vec![2, 0, 3]));
    }
}

#[test]
fn the_number_of_peers_sizes_the_table() {
    let mut l = list("u", vec![peer(1), peer(2)]);
    l.number = 3;
    let more = rebuild_slots(&vec![], &l, score(20.0), 3000);
    assert_eq!(more.len(), 3);
    assert_eq!((more[2].sockaddr.is_none(), more[2].last_touched_msec), (true, 0));
    l.number = 1;
    assert_eq!(rebuild_slots(&vec![], &l, score(20.0), 3000).len(), 1);
}

#[test]
fn two_positions_are_distinct_and_cover_all_pairs() {
    assert_eq!(sample_two(0, 0, 2), (0, 1));
    assert_eq!(sample_two(1, 0, 2), (1, 0));
    assert_eq!(sample_two(7, 5, 3), (1, 2));
    let mut seen = vec![];
    for r1 in 0..5 {
        for r2 in 0..4 {
            let (i, j) = sample_two(r1, r2, 5);
            assert_ne!(i, j);
            seen.push((i, j));
        }
    }
    seen.sort();
    seen.dedup();
    assert_eq!(seen.len(), 20);
}

#[test]
fn ties_go_to_the_first() {
    let a = AvailEntry { peer_index: 4, slot: Some(1) };
    let b = AvailEntry { peer_index: 5, slot: None };
    assert_eq!(choose_better(a, score(1.0), b, score(1.0)), (a, score(1.0)));
    assert_eq!(choose_better(a, score(1.0), b, score(2.0)), (a, score(1.0)));
    assert_eq!(choose_better(a, score(3.0), b, score(2.0)), (b, score(2.0)));
    assert_eq!(choose_better(a, score(f64::NAN), b, score(2.0)), (b, score(2.0)));
}

#[test]
fn one_candidate_needs_no_draw() {
    let never = host(true, || -> usize { panic!("no draw") });
    let e = AvailEntry { peer_index: 0, slot: Some(0) };
    let (entry, s) = pick_one(&vec![e], &vec![slot(1, 5.0, 2000)], 2000, &never);
    assert_eq!((entry, value(s)), (e, 5.0));
    let gone = AvailEntry { peer_index: 0, slot: Some(9) };
    let (_, s) = pick_one(&vec![gone], &vec![slot(1, 5.0, 2000)], 2000, &never);
    assert_eq!(value(s), 0.0);
}

#[test]
fn the_better_of_two_is_picked() {
    let slots = vec![slot(1, 5.0, 2000), slot(2, 3.0, 2000), slot(3, 4.0, 2000)];
    let buf: Vec<AvailEntry> =
        (0..3).map(|i| AvailEntry { peer_index: i, slot: Some(i) }).collect();
    let drawn = Cell::new(0);
    let rng = || {
        drawn.set(drawn.get() + 1);
        if drawn.get() == 1 { 0 } else { 3 }
    };
    // Positions 0 and 2.
    let (entry, s) = p2c_pick(&buf, &slots, 2000, &host(true, rng));
    assert_eq!((entry.peer_index, value(s)), (2, 4.0));
    assert_eq!(drawn.get(), 2);
}

#[test]
fn two_draws_make_a_pick() {
    let slots = vec![slot(1, 5.0, 2000), slot(2, 3.0, 2000), slot(3, 4.0, 2000)];
    let buf: Vec<AvailEntry> =
        (0..3).map(|i| AvailEntry { peer_index: i, slot: Some(i) }).collect();
    // Positions 0 and 2, 2 and 0, 1 and 2, and 0 and 1.
    for (r1, r2, index, lower) in [(0, 1, 2, 4.0), (2, 0, 2, 4.0), (1, 1, 1, 3.0), (3, 2, 1, 3.0)] {
        let (entry, s) = pick_of_draws(&buf, &slots, 2000, r1, r2, &decay);
        assert_eq!((entry.peer_index, value(s)), (index, lower));
    }
}

#[test]
fn gathering_asks_for_no_room_to_commit() {
    let mut a = peer(1);
    a.conns = usize::MAX;
    a.refs = usize::MAX;
    let cfg = config(vec![slot(1, 0.0, 0)], vec![]);
    let mut our = ours();
    assert_eq!(collect_available(&data(), &list("u", vec![a]), 50, &mut our, &cfg, false), 1);
}

#[test]
fn candidates_are_the_available_peers() {
    let mut b = peer(2);
    b.down = 1;
    let l = list("u", vec![peer(1), b, peer(3), peer(4)]);
    let cfg = config(vec![slot(4, 0.0, 0), slot(1, 0.0, 0), slot(2, 0.0, 0)], vec![]);
    let mut our = ours();
    assert_eq!(avail_cap(&cfg), 3);
    assert_eq!(collect_available(&data(), &l, 50, &mut our, &cfg, false), 3);
    assert_eq!(
        our.avail_buf,
        Some(vec![
            AvailEntry { peer_index: 0, slot: Some(1) },
            AvailEntry { peer_index: 2, slot: None },
            AvailEntry { peer_index: 3, slot: Some(0) },
        ])
    );
    // No more than there is room for.
    let small = config(vec![slot(4, 0.0, 0)], vec![]);
    assert_eq!(collect_available(&data(), &l, 50, &mut our, &small, false), 1);
    // No room at all.
    let none = config(vec![], vec![]);
    assert_eq!(collect_available(&data(), &l, 50, &mut our, &none, false), 0);
    our.avail_buf = None;
    assert_eq!(collect_available(&data(), &l, 50, &mut our, &cfg, false), 0);
}

#[test]
fn tables_are_told_apart() {
    let cfg = config(vec![slot(1, 1.0, 1)], vec![slot(2, 2.0, 2)]);
    assert_eq!(value(slots_for(&cfg, false)[0].ewma), 1.0);
    assert_eq!(value(slots_for(&cfg, true)[0].ewma), 2.0);
}

#[test]
fn the_faster_peer_wins() {
    let mut lists = vec![list("u", vec![peer(1), peer(2)])];
    let mut cfg = config(vec![slot(1, 80.0, 2000), slot(2, 20.0, 2000)], vec![]);
    for draw in 0..4 {
        let mut pc = connection();
        let mut d = data();
        let mut our = ours();
        let h = host(true, move || draw);
        let r = get_peer(&mut pc, &mut d, &mut our, &mut cfg, &mut lists, 50, 2000, &h);
        assert_eq!(r, GetStatus::Selected);
        assert_eq!(d.current, Some(PeerPos { list: 0, index: 1 }));
        assert_eq!(pc.name, Some(vec![b'p', 2]));
        assert!(!pc.cached);
        assert!(our.pick_valid);
        assert_eq!(our.pick_slot, Some(SlotRef { is_backup: false, index: 1 }));
        assert_eq!((our.pick_start_msec, value(our.pick_score)), (2000, 20.0));
    }
    assert_eq!((lists[0].peers[0].conns, lists[0].peers[1].conns), (0, 4));
}

#[test]
fn retries_go_on_to_the_backup_list() {
    let mut lists = vec![
        list("primary", vec![peer(1), peer(2)]),
        list("backup", vec![peer(3)]),
    ];
    let mut cfg = config(
        vec![slot(1, 0.0, 0), slot(2, 0.0, 0)],
        vec![slot(3, 7.0, 2000)],
    );
    let mut d = data();
    let mut our = ours();
    let h = host(true, || 0);
    let mut seen = vec![];
    for _ in 0..3 {
        let mut pc = connection();
        let r = get_peer(&mut pc, &mut d, &mut our, &mut cfg, &mut lists, 50, 2000, &h);
        assert_eq!(r, GetStatus::Selected);
        let at = d.current.unwrap();
        seen.push((at.list, at.index));
    }
    assert_eq!(our.pick_slot, Some(SlotRef { is_backup: true, index: 0 }));
    assert_eq!(value(our.pick_score), 7.0);
    seen.sort();
    assert_eq!(seen, vec![(0, 0), (0, 1), (1, 0)]);
    let mut pc = connection();
    let r = get_peer(&mut pc, &mut d, &mut our, &mut cfg, &mut lists, 50, 2000, &h);
    assert_eq!(r, GetStatus::Busy);
    assert_eq!(pc.name, Some(b"backup".to_vec()));
}

#[test]
fn retries_on_the_backup_list_go_by_its_own_scores() {
    let mut down = peer(1);
    down.down = 1;
    let mut lists = vec![
        list("primary", vec![down]),
        list("backup", vec![peer(2), peer(3), peer(4)]),
    ];
    let mut cfg = config(
        vec![slot(1, 1.0, 2000)],
        vec![slot(2, 90.0, 2000), slot(3, 10.0, 2000), slot(4, 50.0, 2000)],
    );
    let mut d = data();
    let mut our = ours();
    let h = host(true, || 0);
    for (k, shown) in [(1, 10.0), (2, 50.0), (0, 90.0)] {
        let mut pc = connection();
        let r = get_peer(&mut pc, &mut d, &mut our, &mut cfg, &mut lists, 50, 2000, &h);
        assert_eq!(r, GetStatus::Selected);
        assert_eq!(d.current, Some(PeerPos { list: 1, index: k }));
        assert_eq!(our.pick_slot, Some(SlotRef { is_backup: true, index: k }));
        assert_eq!((our.pick_start_msec, value(our.pick_score)), (2000, shown));
    }
    // The last attempt counts in the backup table.
    let mut cfg = Some(cfg);
    free_peer(&mut our, &mut cfg, Some(&d), Some(&lists[0]), 0, 2100, &blend);
    let cfg = cfg.unwrap();
    assert_eq!(cfg.backup_slots[0].ewma, blend(score(90.0), 100, 100));
    assert_eq!((value(cfg.primary_slots[0].ewma), cfg.primary_slots[0].last_touched_msec), (1.0, 2000));
}

#[test]
fn a_reload_seen_on_the_backup_list_leaves_the_primary_table() {
    let mut b = list("backup", vec![peer(5), peer(2)]);
    b.config = Some(6);
    let mut lists = vec![list("primary", vec![peer(1)]), b];
    let mut cfg = config(vec![slot(1, 80.0, 2000)], vec![slot(2, 20.0, 2000)]);
    cfg.zone = true;
    let mut d = data();
    d.peers = Some(1);
    let mut our = ours();
    let h = host(true, || 0);
    let r = get_peer(&mut connection(), &mut d, &mut our, &mut cfg, &mut lists, 50, 2000, &h);
    assert_eq!(r, GetStatus::Selected);
    assert_eq!(cfg.primary_peers, Some(0));
    assert_eq!(cfg.primary_slots.len(), 1);
    assert_eq!(cfg.primary_slots[0].sockaddr, Some(vec![2, 0, 1]));
    assert_eq!(cfg.backup_slots[0].sockaddr, Some(vec![2, 0, 5]));
    assert_eq!(cfg.backup_slots[1].sockaddr, Some(vec![2, 0, 2]));
    assert!(our.pick_slot.unwrap().is_backup);
}

#[test]
fn when_all_are_down_the_primary_is_named() {
    let mut a = peer(1);
    a.down = 1;
    let mut b = peer(2);
    b.down = 1;
    let mut lists = vec![list("primary", vec![a]), list("backup", vec![b])];
    let mut cfg = config(vec![slot(1, 0.0, 0)], vec![slot(2, 0.0, 0)]);
    let mut pc = connection();
    let mut d = data();
    let h = host(true, || 0);
    let r = get_peer(&mut pc, &mut d, &mut ours(), &mut cfg, &mut lists, 50, 2000, &h);
    assert_eq!(r, GetStatus::Busy);
    assert_eq!(pc.name, Some(b"primary".to_vec()));
    assert_eq!(d.peers, Some(1));
}

#[test]
fn one_server_goes_to_round_robin() {
    let mut l = list("u", vec![peer(1)]);
    l.single = true;
    let mut lists = vec![l];
    let mut cfg = config(vec![slot(1, 0.0, 0)], vec![]);
    let mut our = ours();
    let mut pc = connection();
    let h = host(true, || 0);
    let r = get_peer(&mut pc, &mut data(), &mut our, &mut cfg, &mut lists, 50, 2000, &h);
    assert_eq!(r, GetStatus::RoundRobin);
    assert!(!our.pick_valid);
    assert!(pc.cached);
}

#[test]
fn no_list_means_busy() {
    let mut d = data();
    d.peers = None;
    let mut cfg = config(vec![], vec![]);
    let mut pc = connection();
    let h = host(true, || 0);
    let r = get_peer(&mut pc, &mut d, &mut ours(), &mut cfg, &mut vec![], 50, 2000, &h);
    assert_eq!(r, GetStatus::Busy);
    assert_eq!(pc.name, None);
}

#[test]
fn a_reload_is_taken_over_in_a_zone() {
    let mut l = list("u", vec![peer(2), peer(9)]);
    l.config = Some(6);
    let mut lists = vec![l];
    let mut cfg = config(vec![slot(1, 80.0, 2000), slot(2, 20.0, 2000)], vec![]);
    cfg.zone = true;
    let mut d = data();
    let mut our = ours();
    let h = host(true, || 0);
    let r = get_peer(&mut connection(), &mut d, &mut our, &mut cfg, &mut lists, 50, 2000, &h);
    assert_eq!(r, GetStatus::Selected);
    assert_eq!(d.config, 6);
    // The newcomer starts from the mean of 80 and 20, so the survivor wins.
    assert_eq!(d.current, Some(PeerPos { list: 0, index: 0 }));
    assert_eq!(cfg.primary_peers, Some(0));
    let scores: Vec<f64> = cfg.primary_slots.iter().map(|s| value(s.ewma)).collect();
    assert_eq!(scores, vec![20.0, 50.0]);
    assert_eq!(our.pick_slot, Some(SlotRef { is_backup: false, index: 0 }));
}

#[test]
fn a_reload_without_a_zone_is_busy() {
    let mut l = list("u", vec![peer(2)]);
    l.config = Some(6);
    let mut lists = vec![l];
    let mut cfg = config(vec![slot(1, 80.0, 2000)], vec![]);
    let mut d = data();
    let mut pc = connection();
    let h = host(true, || 0);
    let r = get_peer(&mut pc, &mut d, &mut ours(), &mut cfg, &mut lists, 50, 2000, &h);
    assert_eq!(r, GetStatus::Busy);
    assert_eq!(pc.name, Some(b"u".to_vec()));
    assert_eq!(d.config, 0);
    assert_eq!(cfg.primary_slots[0].sockaddr, Some(vec![2, 0, 1]));
}

#[test]
fn a_full_zone_is_busy() {
    let mut l = list("u", vec![peer(2)]);
    l.config = Some(6);
    let mut cfg = config(vec![slot(1, 80.0, 2000)], vec![]);
    cfg.zone = true;
    let mut d = data();
    let mut pc = connection();
    let h = host(false, || 0);
    let primary = l.name.clone();
    let r = try_list(
        &mut pc,
        &mut d,
        &mut ours(),
        &mut cfg,
        &mut l,
        turn(false, None),
        &primary,
        &h,
    );
    assert_eq!(r, ListStep::Busy);
    assert_eq!((d.config, l.peers[0].conns), (0, 0));
    assert_eq!(value(cfg.primary_slots[0].ewma), 80.0);
}

#[test]
fn an_exhausted_list_leads_on() {
    let mut l = list("u", vec![peer(1)]);
    l.peers[0].down = 1;
    let mut cfg = config(vec![slot(1, 1.0, 1)], vec![]);
    let mut d = data();
    d.tried = vec![1];
    let mut pc = connection();
    let next = Some(NextList { list: 3, number: 2 });
    let h = host(true, || 0);
    let r = try_list(
        &mut pc,
        &mut d,
        &mut ours(),
        &mut cfg,
        &mut l,
        turn(false, next),
        &None,
        &h,
    );
    assert_eq!(r, ListStep::Backup);
    assert_eq!((d.peers, d.tried), (Some(3), vec![0]));
}

#[test]
fn resync_asks_for_the_new_size() {
    let asked = Cell::new(0);
    let h = Host {
        decay,
        average,
        grant: |n: usize| {
            asked.set(n);
            true
        },
        random: || 0usize,
        slot_size: 32,
    };
    let mut cfg = config(vec![slot(1, 8.0, 2000)], vec![slot(5, 4.0, 2000)]);
    assert_eq!(resync_slots(&mut cfg, &list("b", vec![peer(5)]), turn(true, None), &h), Err(()));
    cfg.zone = true;
    let b = list("b", vec![peer(6), peer(5), peer(7)]);
    let t = Turn { list: 11, ..turn(true, None) };
    assert_eq!(resync_slots(&mut cfg, &b, t, &h), Ok(()));
    assert_eq!(asked.get(), 96);
    assert_eq!(cfg.backup_slots.len(), 3);
    assert_eq!(cfg.primary_slots.len(), 1);
    assert_eq!(cfg.primary_peers, Some(0));
    // The same again changes nothing.
    let before: Vec<(u64, usize)> =
        cfg.backup_slots.iter().map(|s| (s.ewma.bits, s.last_touched_msec)).collect();
    assert_eq!(resync_slots(&mut cfg, &b, t, &h), Ok(()));
    let after: Vec<(u64, usize)> =
        cfg.backup_slots.iter().map(|s| (s.ewma.bits, s.last_touched_msec)).collect();
    assert_eq!(before, after);
    // A list without peers needs no room.
    asked.set(0);
    let none = list("p", vec![]);
    let t = Turn { list: 11, ..turn(false, None) };
    assert_eq!(resync_slots(&mut cfg, &none, t, &h), Ok(()));
    assert_eq!((asked.get(), cfg.primary_slots.len(), cfg.primary_peers), (0, 0, Some(11)));
}

#[test]
fn a_resync_that_is_too_large_fails() {
    let mut l = list("u", vec![]);
    l.number = usize::MAX;
    let mut cfg = config(vec![], vec![]);
    cfg.zone = true;
    let h = host(true, || 0);
    assert_eq!(resync_slots(&mut cfg, &l, turn(false, None), &h), Err(()));
}

fn picked_data() -> EwmaPeerData {
    EwmaPeerData {
        pick_valid: true,
        pick_slot: Some(SlotRef { is_backup: false, index: 0 }),
        pick_start_msec: 1000,
        ..ours()
    }
}

#[test]
fn a_good_attempt_counts_once() {
    let l = list("u", vec![peer(1), peer(2)]);
    let mut cfg = Some(config(vec![slot(1, 10.0, 1000), slot(2, 9.0, 1000)], vec![]));
    let mut our = picked_data();
    let d = data();
    let r = free_peer(&mut our, &mut cfg, Some(&d), Some(&l), 0, 1050, &blend);
    assert_eq!(r, FreeStatus::RoundRobin);
    assert!(!our.pick_valid);
    let slots = &cfg.as_ref().unwrap().primary_slots;
    assert_eq!(slots[0].ewma, blend(score(10.0), 50, 50));
    assert_eq!(slots[0].last_touched_msec, 1050);
    assert_eq!((value(slots[1].ewma), slots[1].last_touched_msec), (9.0, 1000));
    let r = free_peer(&mut our, &mut cfg, Some(&d), Some(&l), 0, 9000, &blend);
    assert_eq!(r, FreeStatus::RoundRobin);
    assert_eq!(cfg.unwrap().primary_slots[0].last_touched_msec, 1050);
}

#[test]
fn a_failed_attempt_does_not_count() {
    let l = list("u", vec![peer(1)]);
    let mut cfg = Some(config(vec![slot(1, 10.0, 1000)], vec![]));
    let mut our = picked_data();
    let d = data();
    let state = PEER_FAILED | 1;
    let r = free_peer(&mut our, &mut cfg, Some(&d), Some(&l), state, 1050, &blend);
    assert_eq!(r, FreeStatus::RoundRobin);
    assert!(!our.pick_valid);
    assert_eq!(cfg.unwrap().primary_slots[0].last_touched_msec, 1000);
}

#[test]
fn a_stale_attempt_does_not_count() {
    let mut l = list("u", vec![peer(1)]);
    l.config = Some(1);
    let mut cfg = Some(config(vec![slot(1, 10.0, 1000)], vec![]));
    let mut our = picked_data();
    let d = data();
    free_peer(&mut our, &mut cfg, Some(&d), Some(&l), 0, 1050, &blend);
    assert!(!our.pick_valid);
    assert_eq!(cfg.unwrap().primary_slots[0].last_touched_msec, 1000);
}

#[test]
fn without_state_there_is_nothing_to_free() {
    let l = list("u", vec![peer(1)]);
    let mut cfg = Some(config(vec![slot(1, 10.0, 1000)], vec![]));
    let mut our = picked_data();
    let r = free_peer(&mut our, &mut cfg, None, Some(&l), 0, 1050, &blend);
    assert_eq!(r, FreeStatus::Nothing);
    assert!(!our.pick_valid);
    assert_eq!(cfg.unwrap().primary_slots[0].last_touched_msec, 1000);
    let mut our = picked_data();
    let d = data();
    let mut none = None;
    let r = free_peer(&mut our, &mut none, Some(&d), Some(&l), 0, 1050, &blend);
    assert_eq!(r, FreeStatus::RoundRobin);
    assert!(!our.pick_valid);
}

#[test]
fn a_backup_attempt_counts_in_the_backup_table() {
    let l = list("u", vec![peer(1)]);
    let mut cfg = Some(config(vec![slot(1, 10.0, 1000)], vec![slot(2, 0.0, 0)]));
    let mut our = picked_data();
    our.pick_slot = Some(SlotRef { is_backup: true, index: 0 });
    let d = data();
    free_peer(&mut our, &mut cfg, Some(&d), Some(&l), 0, 1050, &blend);
    let cfg = cfg.unwrap();
    assert_eq!(cfg.primary_slots[0].last_touched_msec, 1000);
    assert_eq!(cfg.backup_slots[0].ewma, blend(score(0.0), 1050, 50));
    // A peer without a slot has nothing to fold into.
    let mut cfg = Some(cfg);
    let mut our = picked_data();
    our.pick_slot = None;
    free_peer(&mut our, &mut cfg, Some(&d), Some(&l), 0, 2050, &blend);
    let cfg = cfg.unwrap();
    assert_eq!(cfg.primary_slots[0].last_touched_msec, 1000);
    assert_eq!(cfg.backup_slots[0].last_touched_msec, 1050);
}

#[test]
fn reading_is_an_idle_update() {
    for average in [0.0, 0.5, 12.5, 1e300, 5e-324] {
        for later in [0, 1, 999, 10_000, 1_000_000, usize::MAX - 1000] {
            let mut s = slot(1, average, 1000);
            let now = 1000 + later;
            let read = value(decay_score(Some(&s), now, &decay));
            ewma_update(&mut s, 0, now, &blend);
            assert_eq!(value(s.ewma), read);
        }
    }
}

#[test]
fn idle_scores_fall() {
    for average in [0.0, 0.5, 12.5, 1e300] {
        let s = slot(1, average, 1000);
        let mut last = average;
        for now in [500, 1000, 1001, 2000, 11_000, 60_000, 10_000_000, usize::MAX] {
            let read = value(decay_score(Some(&s), now, &decay));
            assert!(0.0 <= read && read <= last);
            last = read;
        }
        assert_eq!(last, 0.0);
        assert_eq!(value(s.ewma), average);
    }
}

#[test]
fn an_attempt_is_refused_in_advance() {
    let mut l = list("u", vec![peer(1), peer(2)]);
    let mut cfg = config(vec![slot(1, 0.0, 0), slot(2, 0.0, 0)], vec![]);
    let far = Some(NextList { list: 1, number: 1000 });
    assert!(can_pick(&data(), &l, 50));
    assert!(can_try(&data(), &ours(), &cfg, &l, far, 50));
    // Any available peer may be picked.
    l.peers[1].refs = usize::MAX;
    assert!(!can_pick(&data(), &l, 50));
    assert!(!can_try(&data(), &ours(), &cfg, &l, None, 50));
    l.peers[1].down = 1;
    assert!(can_try(&data(), &ours(), &cfg, &l, far, 50));
    l.peers[0].down = 1;
    assert!(!can_try(&data(), &ours(), &cfg, &l, far, 50));
    assert!(can_try(&data(), &ours(), &cfg, &l, None, 50));
    // A reload without a zone ends the attempt at once.
    l.config = Some(4);
    assert!(can_try(&data(), &ours(), &cfg, &l, far, 50));
    cfg.zone = true;
    assert!(!can_try(&data(), &ours(), &cfg, &l, far, 50));
}

#[test]
fn tables_can_be_copied() {
    let cfg = config(vec![slot(1, 3.0, 7)], vec![]);
    let copy = cfg.clone();
    assert_eq!(copy.primary_slots[0].sockaddr, cfg.primary_slots[0].sockaddr);
    assert_eq!(format!("{:?}", copy), format!("{:?}", cfg));
}
