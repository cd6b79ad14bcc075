use std::cell::RefCell;

use ngx_balancer_rs::config::PolicyImpl;
use ngx_balancer_rs::ewma::setup::{
    alloc_slots_shpool, build_config, ewma_pick_data_for, ewma_score_variable, ewma_zone_init,
    init_peer, init_upstream, init_upstream_static, install_config, zone_name, Sizes,
    UpstreamSetup, EWMA_ZONE_SIZE,
};
use ngx_balancer_rs::ewma::table::alloc_slots;
use ngx_balancer_rs::ewma::{Ewma, EwmaPeerData};
use ngx_balancer_rs::least_conn::LeastConn;
use ngx_balancer_rs::peer::{Peer, Peers};
use ngx_balancer_rs::policy::{BalancingPolicy, UpstreamInit};
use ngx_balancer_rs::score::Score;

const SIZES: Sizes = Sizes { slot: 32, config: 48, entry: 24, data: 56 };

fn peer(n: u8) -> Peer {
    Peer {
        sockaddr: Some(vec![2, 0, n]),
        name: vec![b'p', n],
        weight: 1,
        effective_weight: 1,
        current_weight: 0,
        conns: 0,
        max_conns: 0,
        fails: 0,
        max_fails: 1,
        checked: 0,
        fail_timeout: 10,
        down: 0,
        refs: 0,
    }
}

fn list(peers: Vec<Peer>) -> Peers {
    Peers { name: None, number: peers.len(), single: false, config: None, peers }
}

fn yes(_: usize) -> bool {
    true
}

#[test]
fn policies_name_their_set_up() {
    assert_eq!(LeastConn::init_upstream(), UpstreamInit::LeastConn);
    assert_eq!(Ewma::init_upstream(), UpstreamInit::Ewma);
}

#[test]
fn tables_wait_for_a_zone() {
    assert_eq!(init_upstream(false, false), UpstreamSetup::Failed);
    assert_eq!(init_upstream(false, true), UpstreamSetup::Failed);
    assert_eq!(init_upstream(true, false), UpstreamSetup::Static);
    assert_eq!(init_upstream(true, true), UpstreamSetup::Zone);
    assert_eq!(EWMA_ZONE_SIZE, 64 * 1024);
}

#[test]
fn zones_are_named_after_upstreams() {
    assert_eq!(zone_name(&b"backend".to_vec()), b"balancer_rs_ewma_backend".to_vec());
    assert_eq!(zone_name(&vec![]), b"balancer_rs_ewma_".to_vec());
}

#[test]
fn static_tables_are_made_and_installed() {
    let asked = RefCell::new(vec![]);
    let grant = |n: usize| {
        asked.borrow_mut().push(n);
        true
    };
    let lists = vec![list(vec![peer(1), peer(2)]), list(vec![peer(3)])];
    let mut policy = PolicyImpl::Ewma(Ewma::new());
    assert!(init_upstream_static(&mut policy, &lists, SIZES, &grant));
    assert_eq!(*asked.borrow(), vec![64, 32, 48]);
    let cfg = match policy {
        PolicyImpl::Ewma(e) => e.config.unwrap(),
        _ => panic!("another policy"),
    };
    assert!(!cfg.zone);
    assert_eq!(cfg.primary_peers, Some(0));
    assert_eq!(cfg.primary_slots.len(), 2);
    assert_eq!(cfg.primary_slots[1].sockaddr, Some(vec![2, 0, 2]));
    assert_eq!(cfg.primary_slots[1].last_touched_msec, 0);
    assert_eq!(cfg.backup_slots[0].sockaddr, Some(vec![2, 0, 3]));
}

#[test]
fn zone_tables_are_made_and_installed() {
    let lists = vec![list(vec![peer(1)])];
    let mut policy = PolicyImpl::Ewma(Ewma::new());
    assert!(ewma_zone_init(&mut policy, &lists, SIZES, &yes));
    match policy {
        PolicyImpl::Ewma(e) => {
            let cfg = e.config.unwrap();
            assert!(cfg.zone);
            assert_eq!(cfg.primary_slots.len(), 1);
            assert_eq!(cfg.backup_slots.len(), 0);
        }
        _ => panic!("another policy"),
    }
}

#[test]
fn set_up_fails_without_room_or_lists() {
    let lists = vec![list(vec![peer(1), peer(2)]), list(vec![peer(3)])];
    assert!(build_config(&vec![], false, SIZES, &yes).is_none());
    for refused in [64, 32, 48] {
        for zone in [false, true] {
            let grant = |n: usize| n != refused;
            assert!(build_config(&lists, zone, SIZES, &grant).is_none());
        }
    }
    let mut policy = PolicyImpl::Ewma(Ewma::new());
    assert!(!ewma_zone_init(&mut policy, &lists, SIZES, &|n: usize| n != 48));
    assert!(matches!(policy, PolicyImpl::Ewma(Ewma { config: None })));
}

#[test]
fn tables_go_to_their_own_policy_only() {
    let lists = vec![list(vec![peer(1)])];
    let mut policy = PolicyImpl::LeastConn(LeastConn);
    assert!(!init_upstream_static(&mut policy, &lists, SIZES, &yes));
    assert!(matches!(policy, PolicyImpl::LeastConn(_)));
    let mut policy = PolicyImpl::Unset;
    assert!(!install_config(&mut policy, build_config(&lists, false, SIZES, &yes)));
    assert!(matches!(policy, PolicyImpl::Unset));
    let mut policy = PolicyImpl::Ewma(Ewma::new());
    assert!(!install_config(&mut policy, None));
}

#[test]
fn sizes_that_do_not_fit_are_refused_or_capped() {
    let never = |_: usize| -> bool { panic!("not asked") };
    assert!(alloc_slots(usize::MAX, 32, &never).is_none());
    assert_eq!(alloc_slots(0, 32, &never).unwrap().len(), 0);
    assert_eq!(alloc_slots_shpool(0, 32, &never).unwrap().len(), 0);
    let asked = RefCell::new(0);
    let grant = |n: usize| {
        *asked.borrow_mut() = n;
        false
    };
    assert!(alloc_slots_shpool(usize::MAX, 32, &grant).is_none());
    assert_eq!(*asked.borrow(), usize::MAX);
    assert!(alloc_slots_shpool(3, 32, &grant).is_none());
    assert_eq!(*asked.borrow(), 96);
    assert_eq!(alloc_slots(3, 32, &yes).unwrap().len(), 3);
}

#[test]
fn requests_get_fresh_data() {
    let lists = vec![list(vec![peer(1)]), list(vec![peer(2), peer(3)])];
    let mut policy = PolicyImpl::Ewma(Ewma::new());
    assert!(init_peer(&policy, SIZES, &yes).is_none());
    assert!(init_upstream_static(&mut policy, &lists, SIZES, &yes));
    let asked = RefCell::new(vec![]);
    let grant = |n: usize| {
        asked.borrow_mut().push(n);
        true
    };
    let our = init_peer(&policy, SIZES, &grant).unwrap();
    assert_eq!(*asked.borrow(), vec![56, 48]);
    assert_eq!(our.avail_buf, Some(vec![]));
    assert!(!our.pick_valid);
    assert_eq!(our.pick_slot, None);
    assert!(init_peer(&policy, SIZES, &|n: usize| n != 56).is_none());
    assert!(init_peer(&policy, SIZES, &|n: usize| n != 48).is_none());
    assert!(init_peer(&PolicyImpl::Unset, SIZES, &yes).is_none());
    let mut empty = PolicyImpl::Ewma(Ewma::new());
    assert!(init_upstream_static(&mut empty, &vec![list(vec![])], SIZES, &yes));
    assert_eq!(init_peer(&empty, SIZES, &yes).unwrap().avail_buf, None);
}

#[test]
fn the_score_is_shown_while_a_pick_waits() {
    let mut our = EwmaPeerData {
        avail_buf: None,
        pick_valid: true,
        pick_slot: None,
        pick_start_msec: 0,
        pick_score: Score { bits: 12.5f64.to_bits() },
    };
    let ewma = PolicyImpl::Ewma(Ewma::new());
    let shown = ewma_score_variable(Some(&ewma), Some(&our)).unwrap();
    assert_eq!(f64::from_bits(shown.bits), 12.5);
    assert!(ewma_score_variable(Some(&ewma), None).is_none());
    assert!(ewma_score_variable(None, Some(&our)).is_none());
    assert!(ewma_score_variable(Some(&PolicyImpl::Unset), Some(&our)).is_none());
    assert!(ewma_pick_data_for(Some(&ewma), Some(&our)).is_some());
    our.pick_valid = false;
    assert!(ewma_score_variable(Some(&ewma), Some(&our)).is_none());
    assert!(ewma_pick_data_for(Some(&PolicyImpl::LeastConn(LeastConn)), Some(&our)).is_none());
}
