use ngx_balancer_rs::peer::{
    busy_with_primary_name, can_be_committed, can_gather, clear_cached_connection, config_mismatch,
    none_available, peer_available, peers_single,
    select_peer, switch_peers_and_clear_tried, sync_config_generation, GetStatus, NextList, Peer,
    PeerConnection, PeerData, PeerPos, Peers,
};
use ngx_balancer_rs::tried::{
    clear_tried, has_bits_for, mark_tried, tried_bit, words_needed, PTR_BITS,
};

fn peer() -> Peer {
    Peer {
        sockaddr: Some(vec![2, 0, 31, 144, 10, 0, 0, 1]),
        name: b"10.0.0.1:8080".to_vec(),
        weight: 1,
        effective_weight: 1,
        current_weight: 0,
        conns: 0,
        max_conns: 0,
        fails: 0,
        max_fails: 1,
        checked: 0,
        fail_timeout: 10,
        down: 0,
        refs: 0,
    }
}

fn list(config: Option<usize>) -> Peers {
    Peers { name: Some(b"backend".to_vec()), number: 1, single: false, config, peers: vec![peer()] }
}

fn data(words: usize) -> PeerData {
    PeerData { config: 3, peers: Some(0), current: None, tried: vec![0; words] }
}

fn connection() -> PeerConnection {
    PeerConnection { sockaddr: None, name: None, cached: true, connection: Some(7) }
}

#[test]
fn bits_cross_words() {
    let mut words = vec![0usize; 3];
    for i in [0, 1, PTR_BITS - 1, PTR_BITS, 2 * PTR_BITS + 5] {
        assert!(!tried_bit(&words, i));
        mark_tried(&mut words, i);
        assert!(tried_bit(&words, i));
    }
    assert!(!tried_bit(&words, 2));
    assert!(!tried_bit(&words, PTR_BITS + 1));
    assert_eq!(words, vec![1 | 2 | 1 << (PTR_BITS - 1), 1, 1 << 5]);
}

#[test]
fn clearing_takes_whole_words() {
    let mut words = vec![usize::MAX; 3];
    clear_tried(&mut words, 0);
    assert_eq!(words, vec![usize::MAX; 3]);
    clear_tried(&mut words, 1);
    assert_eq!(words, vec![0, usize::MAX, usize::MAX]);
    clear_tried(&mut words, PTR_BITS);
    assert_eq!(words, vec![0, usize::MAX, usize::MAX]);
    clear_tried(&mut words, PTR_BITS + 1);
    assert_eq!(words, vec![0, 0, usize::MAX]);
}

#[test]
fn a_fresh_peer_is_available() {
    assert!(peer_available(&data(1), &peer(), 0, 100));
}

#[test]
fn a_tried_peer_is_not_available() {
    let mut d = data(1);
    mark_tried(&mut d.tried, 4);
    assert!(!peer_available(&d, &peer(), 4, 100));
    assert!(peer_available(&d, &peer(), 5, 100));
}

#[test]
fn a_peer_that_is_down_is_not_available() {
    let p = Peer { down: 1, ..peer() };
    assert!(!peer_available(&data(1), &p, 0, 100));
}

#[test]
fn quarantine_lasts_for_the_timeout() {
    let p = Peer { fails: 1, checked: 90, ..peer() };
    assert!(!peer_available(&data(1), &p, 0, 95));
    assert!(!peer_available(&data(1), &p, 0, 100));
    assert!(peer_available(&data(1), &p, 0, 101));
    let below = Peer { fails: 1, max_fails: 2, checked: 90, ..peer() };
    assert!(peer_available(&data(1), &below, 0, 95));
    let never = Peer { fails: 9, max_fails: 0, checked: 90, ..peer() };
    assert!(peer_available(&data(1), &never, 0, 95));
}

#[test]
fn the_connection_limit_is_honored() {
    let p = Peer { max_conns: 2, conns: 1, ..peer() };
    assert!(peer_available(&data(1), &p, 0, 100));
    let full = Peer { max_conns: 2, conns: 2, ..peer() };
    assert!(!peer_available(&data(1), &full, 0, 100));
    let unlimited = Peer { max_conns: 0, conns: 1000, ..peer() };
    assert!(peer_available(&data(1), &unlimited, 0, 100));
}

#[test]
fn a_choice_is_committed() {
    let mut pc = connection();
    let mut d = data(1);
    let mut p = peer();
    let at = PeerPos { list: 1, index: 3 };
    select_peer(&mut pc, &mut d, &mut p, at, 100);
    assert_eq!(pc.sockaddr, Some(vec![2, 0, 31, 144, 10, 0, 0, 1]));
    assert_eq!(pc.name, Some(b"10.0.0.1:8080".to_vec()));
    assert_eq!((p.conns, p.refs, p.checked), (1, 1, 100));
    assert_eq!(d.current, Some(at));
    assert_eq!(d.tried, vec![8]);
    assert!(!peer_available(&d, &p, 3, 100));
    select_peer(&mut pc, &mut d, &mut p, PeerPos { list: 1, index: 4 }, 110);
    assert_eq!((p.conns, p.refs, p.checked), (2, 2, 100));
}

#[test]
fn single_lists_are_told() {
    assert!(!peers_single(None));
    assert!(!peers_single(Some(&list(None))));
    assert!(peers_single(Some(&Peers { single: true, ..list(None) })));
}

#[test]
fn cached_connections_are_forgotten() {
    let mut pc = connection();
    clear_cached_connection(&mut pc);
    assert!(!pc.cached);
    assert_eq!(pc.connection, None);
}

#[test]
fn generations_are_compared_and_taken_over() {
    let mut d = data(1);
    assert!(!config_mismatch(&d, &list(None)));
    assert!(!config_mismatch(&d, &list(Some(3))));
    assert!(config_mismatch(&d, &list(Some(4))));
    sync_config_generation(&mut d, &list(None));
    assert_eq!(d.config, 3);
    sync_config_generation(&mut d, &list(Some(4)));
    assert_eq!(d.config, 4);
    assert!(!config_mismatch(&d, &list(Some(4))));
}

#[test]
fn moving_on_clears_the_bitmap() {
    let mut d = data(2);
    d.tried = vec![5, 6];
    switch_peers_and_clear_tried(&mut d, NextList { list: 1, number: 2 });
    assert_eq!(d.peers, Some(1));
    assert_eq!(d.tried, vec![0, 6]);
}

#[test]
fn giving_up_takes_the_primary_name() {
    let mut pc = connection();
    pc.name = Some(b"old".to_vec());
    assert_eq!(busy_with_primary_name(&mut pc, None), GetStatus::Busy);
    assert_eq!(pc.name, Some(b"old".to_vec()));
    let name = Some(b"backend".to_vec());
    assert_eq!(busy_with_primary_name(&mut pc, Some(&name)), GetStatus::Busy);
    assert_eq!(pc.name, Some(b"backend".to_vec()));
    assert_eq!(busy_with_primary_name(&mut pc, Some(&None)), GetStatus::Busy);
    assert_eq!(pc.name, None);
}

#[test]
fn words_are_counted_up() {
    assert_eq!((words_needed(0), words_needed(1), words_needed(PTR_BITS)), (0, 1, 1));
    assert_eq!(words_needed(PTR_BITS + 1), 2);
    assert_eq!(words_needed(usize::MAX), usize::MAX / PTR_BITS + 1);
    assert!(has_bits_for(&vec![], 0));
    assert!(has_bits_for(&vec![0], PTR_BITS));
    assert!(!has_bits_for(&vec![0], PTR_BITS + 1));
}

#[test]
fn limits_are_told_in_advance() {
    assert!(can_be_committed(&peer(), 100));
    assert!(!can_be_committed(&Peer { conns: usize::MAX, ..peer() }, 100));
    assert!(!can_be_committed(&Peer { refs: usize::MAX, ..peer() }, 100));
    assert!(!can_be_committed(&Peer { checked: i64::MIN, ..peer() }, 100));
    let mut l = list(None);
    assert!(can_gather(&data(1), &l, 100));
    assert!(!can_gather(&data(0), &l, 100));
    assert!(!none_available(&data(1), &l, 100));
    l.peers[0].checked = i64::MIN;
    // The clock is read only after failures.
    assert!(can_gather(&data(1), &l, 100));
    l.peers[0].fails = 1;
    assert!(!can_gather(&data(1), &l, 100));
    l.peers[0].down = 1;
    assert!(can_gather(&data(1), &l, 100));
    assert!(none_available(&data(1), &l, 100));
}
