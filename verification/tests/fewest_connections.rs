use ngx_balancer_rs::least_conn::{
    can_choose, can_try, compare_ratio, get_peer, select_least_conn, try_list, LeastConn, PeerLoad,
    RatioOrder, Selection,
};
use ngx_balancer_rs::peer::{
    GetStatus, ListStep, NextList, Peer, PeerConnection, PeerData, PeerPos, Peers,
};

fn peer(n: u8, conns: usize, weight: isize) -> Peer {
    Peer {
        sockaddr: Some(vec![2, 0, n]),
        name: vec![b'p', n],
        weight,
        effective_weight: weight,
        current_weight: 0,
        conns,
        max_conns: 0,
        fails: 0,
        max_fails: 1,
        checked: 0,
        fail_timeout: 10,
        down: 0,
        refs: 0,
    }
}

fn list(name: &str, peers: Vec<Peer>) -> Peers {
    Peers {
        name: Some(name.as_bytes().to_vec()),
        number: peers.len(),
        single: false,
        config: None,
        peers,
    }
}

fn data() -> PeerData {
    PeerData { config: 0, peers: Some(0), current: None, tried: vec![0] }
}

fn connection() -> PeerConnection {
    PeerConnection { sockaddr: None, name: None, cached: true, connection: Some(1) }
}

fn load(conns: usize, weight: isize) -> PeerLoad {
    PeerLoad { conns, weight }
}

#[test]
fn ratios_are_compared_without_division() {
    assert_eq!(compare_ratio(load(1, 2), load(1, 1)), RatioOrder::Less);
    assert_eq!(compare_ratio(load(2, 2), load(1, 1)), RatioOrder::Equal);
    assert_eq!(compare_ratio(load(3, 2), load(1, 1)), RatioOrder::Greater);
    assert_eq!(compare_ratio(load(0, 5), load(0, 1)), RatioOrder::Equal);
    let m = isize::MAX;
    assert_eq!(compare_ratio(load(usize::MAX, m), load(usize::MAX, m - 1)), RatioOrder::Less);
    assert_eq!(compare_ratio(load(usize::MAX, isize::MIN), load(0, 1)), RatioOrder::Greater);
}

#[test]
fn the_lightest_peer_is_picked() {
    let mut pc = connection();
    let mut d = data();
    let mut l = list("u", vec![peer(0, 3, 1), peer(1, 4, 2), peer(2, 5, 1)]);
    assert_eq!(select_least_conn(&mut pc, &mut d, &mut l, 9, 50), Selection::Selected);
    assert_eq!(d.current, Some(PeerPos { list: 9, index: 1 }));
    assert_eq!(pc.name, Some(vec![b'p', 1]));
    assert_eq!(pc.sockaddr, Some(vec![2, 0, 1]));
    assert_eq!((l.peers[1].conns, l.peers[1].refs, l.peers[1].checked), (5, 1, 50));
    // Nothing was tied, so no weight moved.
    assert!(l.peers.iter().all(|p| p.current_weight == 0));
}

#[test]
fn ties_are_broken_by_weighted_round_robin() {
    let mut l = list("u", vec![peer(0, 0, 1), peer(1, 0, 2)]);
    let mut picks = vec![];
    for _ in 0..3 {
        let mut d = data();
        assert_eq!(
            select_least_conn(&mut connection(), &mut d, &mut l, 0, 50),
            Selection::Selected
        );
        let k = d.current.unwrap().index;
        picks.push(k);
        // The request is over at once.
        l.peers[k].conns -= 1;
        assert_eq!(l.peers[0].current_weight + l.peers[1].current_weight, 0);
    }
    assert_eq!(picks, vec![1, 0, 1]);
    assert!(l.peers.iter().all(|p| p.current_weight == 0));
}

#[test]
fn a_cycle_follows_the_weights() {
    let weights = [5, 1, 1];
    let mut l = list("u", vec![peer(0, 0, 5), peer(1, 0, 1), peer(2, 0, 1)]);
    let mut led = [0; 3];
    for _ in 0..7 {
        let mut d = data();
        select_least_conn(&mut connection(), &mut d, &mut l, 0, 50);
        let k = d.current.unwrap().index;
        led[k] += 1;
        l.peers[k].conns -= 1;
    }
    assert_eq!(led, weights);
    assert!(l.peers.iter().all(|p| p.current_weight == 0));
}

#[test]
fn effective_weights_recover_in_a_round() {
    let mut a = peer(0, 0, 3);
    a.effective_weight = 1;
    let mut l = list("u", vec![a, peer(1, 0, 2)]);
    select_least_conn(&mut connection(), &mut data(), &mut l, 0, 50);
    assert_eq!(l.peers[0].effective_weight, 2);
    assert_eq!(l.peers[1].effective_weight, 2);
    assert_eq!((l.peers[0].current_weight, l.peers[1].current_weight), (1, -1));
}

#[test]
fn only_tied_peers_take_part_in_a_round() {
    let mut l = list("u", vec![peer(0, 4, 1), peer(1, 1, 1), peer(2, 2, 2), peer(3, 9, 1)]);
    let mut d = data();
    select_least_conn(&mut connection(), &mut d, &mut l, 0, 50);
    assert_eq!(d.current.unwrap().index, 2);
    let credits: Vec<isize> = l.peers.iter().map(|p| p.current_weight).collect();
    assert_eq!(credits, vec![0, 1, -1, 0]);
}

#[test]
fn without_an_available_peer_the_backup_is_tried() {
    let mut down = peer(0, 0, 1);
    down.down = 1;
    let mut l = list("u", vec![down]);
    let mut d = data();
    let mut pc = connection();
    assert_eq!(select_least_conn(&mut pc, &mut d, &mut l, 0, 50), Selection::TryBackup);
    assert_eq!(d.current, None);
    assert_eq!(l.peers[0].conns, 0);
}

#[test]
fn a_request_gets_each_peer_once_and_then_the_backup() {
    let mut lists = vec![
        list("primary", vec![peer(0, 0, 1), peer(1, 0, 1)]),
        list("backup", vec![peer(2, 0, 1), peer(3, 0, 1)]),
    ];
    let mut d = data();
    let mut seen = vec![];
    for _ in 0..4 {
        let mut pc = connection();
        assert_eq!(get_peer(&mut pc, &mut d, &mut lists, 50), GetStatus::Selected);
        assert!(!pc.cached);
        assert_eq!(pc.connection, None);
        let at = d.current.unwrap();
        seen.push((at.list, at.index));
    }
    seen.sort();
    assert_eq!(seen, vec![(0, 0), (0, 1), (1, 0), (1, 1)]);
    assert_eq!(d.peers, Some(1));
    let mut pc = connection();
    assert_eq!(get_peer(&mut pc, &mut d, &mut lists, 50), GetStatus::Busy);
    // The last call started on the backup list.
    assert_eq!(pc.name, Some(b"backup".to_vec()));
    let conns: Vec<usize> = lists.iter().flat_map(|l| l.peers.iter().map(|p| p.conns)).collect();
    assert_eq!(conns, vec![1, 1, 1, 1]);
}

#[test]
fn giving_up_on_all_lists_names_the_primary() {
    let mut a = peer(0, 0, 1);
    a.down = 1;
    let mut b = peer(1, 0, 1);
    b.down = 1;
    let mut lists = vec![list("primary", vec![a]), list("backup", vec![b])];
    let mut pc = connection();
    let mut d = data();
    assert_eq!(get_peer(&mut pc, &mut d, &mut lists, 50), GetStatus::Busy);
    assert_eq!(pc.name, Some(b"primary".to_vec()));
    assert_eq!(d.peers, Some(1));
}

#[test]
fn a_reloaded_list_is_not_touched() {
    let mut l = list("primary", vec![peer(0, 0, 1), peer(1, 0, 1)]);
    l.config = Some(5);
    let mut lists = vec![l, list("backup", vec![peer(2, 0, 1)])];
    let mut pc = connection();
    let mut d = data();
    assert_eq!(get_peer(&mut pc, &mut d, &mut lists, 50), GetStatus::Busy);
    assert_eq!(pc.name, Some(b"primary".to_vec()));
    assert_eq!(d.peers, Some(0));
    assert!(lists.iter().all(|l| l.peers.iter().all(|p| p.conns == 0)));
    d.config = 5;
    assert_eq!(get_peer(&mut pc, &mut d, &mut lists, 50), GetStatus::Selected);
}

#[test]
fn a_single_server_is_left_to_round_robin() {
    let mut l = list("u", vec![peer(0, 0, 1)]);
    l.single = true;
    let mut lists = vec![l];
    let mut pc = connection();
    assert_eq!(get_peer(&mut pc, &mut data(), &mut lists, 50), GetStatus::RoundRobin);
    assert!(pc.cached);
    assert_eq!(lists[0].peers[0].conns, 0);
}

#[test]
fn without_a_list_the_request_is_busy() {
    let mut d = data();
    d.peers = None;
    let mut pc = connection();
    pc.name = Some(b"kept".to_vec());
    assert_eq!(get_peer(&mut pc, &mut d, &mut vec![], 50), GetStatus::Busy);
    assert_eq!(pc.name, Some(b"kept".to_vec()));
    assert!(!pc.cached);
}

#[test]
fn one_list_at_a_time() {
    let mut l = list("u", vec![peer(0, 0, 1)]);
    let mut d = data();
    let mut pc = connection();
    let name = Some(b"primary".to_vec());
    let next = Some(NextList { list: 77, number: 1 });
    assert_eq!(try_list(&mut pc, &mut d, &mut l, 5, next, &name, 50), ListStep::Selected);
    assert_eq!(d.current, Some(PeerPos { list: 5, index: 0 }));
    assert_eq!(try_list(&mut pc, &mut d, &mut l, 5, next, &name, 50), ListStep::Backup);
    assert_eq!(d.peers, Some(77));
    assert_eq!(d.tried, vec![0]);
    l.peers[0].down = 1;
    assert_eq!(try_list(&mut pc, &mut d, &mut l, 77, None, &name, 50), ListStep::Busy);
    assert_eq!(pc.name, name);
}

#[test]
fn limits_hold_over_many_requests() {
    let mut a = peer(0, 0, 1);
    a.max_conns = 2;
    let mut b = peer(1, 0, 3);
    b.max_conns = 3;
    let mut lists = vec![list("u", vec![a, b])];
    for _ in 0..5 {
        assert_eq!(
            get_peer(&mut connection(), &mut data(), &mut lists, 50),
            GetStatus::Selected
        );
    }
    assert_eq!((lists[0].peers[0].conns, lists[0].peers[1].conns), (2, 3));
    assert_eq!(get_peer(&mut connection(), &mut data(), &mut lists, 50), GetStatus::Busy);
}

#[test]
fn a_choice_that_would_overflow_is_told() {
    let mut l = list("u", vec![peer(0, 0, 1), peer(1, 5, 1)]);
    assert!(can_choose(&data(), &l, 50));
    // A full counter matters only on the peer that would be chosen.
    l.peers[1].refs = usize::MAX;
    assert!(can_choose(&data(), &l, 50));
    l.peers[0].refs = usize::MAX;
    assert!(!can_choose(&data(), &l, 50));
    let big = isize::MAX / 2 + 1;
    let mut l = list("u", vec![peer(0, 0, big), peer(1, 0, big)]);
    assert!(!can_choose(&data(), &l, 50));
    // Without a tie no weight is added up.
    l.peers[1].conns = 1;
    assert!(can_choose(&data(), &l, 50));
    let mut l = list("u", vec![peer(0, 0, 1), peer(1, 0, 1)]);
    l.peers[1].current_weight = isize::MAX;
    assert!(!can_choose(&data(), &l, 50));
    l.peers[1].current_weight = isize::MIN;
    assert!(can_choose(&data(), &l, 50));
}

#[test]
fn an_attempt_that_cannot_be_made_is_told() {
    let mut l = list("u", vec![peer(0, 0, 1)]);
    let far = Some(NextList { list: 1, number: 1000 });
    // The next list matters only when this one has nobody.
    assert!(can_try(&data(), &l, far, 50));
    l.peers[0].down = 1;
    assert!(can_try(&data(), &l, None, 50));
    assert!(!can_try(&data(), &l, far, 50));
    let mut d = data();
    d.tried = vec![];
    l.peers[0].down = 0;
    assert!(!can_try(&d, &l, None, 50));
    // A list of another generation is not looked at.
    l.config = Some(9);
    assert!(can_try(&d, &l, far, 50));
}

#[test]
fn loads_and_policies_have_defaults() {
    assert_eq!(PeerLoad::default(), load(0, 0));
    assert_eq!(LeastConn::default(), LeastConn);
}
