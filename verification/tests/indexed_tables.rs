use std::cell::RefCell;

use ngx_balancer_rs::ewma::slot::{
    alloc_indexed_slots, find_slot_by_sockaddr, stamp_slot_identities, EwmaSlotTable, IndexPlace,
    RoomRefused, SlotIndex, SockaddrKey, SOCKADDR_KEY_BYTES,
};
use ngx_balancer_rs::ewma::table::{self, zeroed_slots};
use ngx_balancer_rs::peer::{Peer, Peers};

fn peer(sockaddr: Option<Vec<u8>>) -> Peer {
    Peer {
        sockaddr,
        name: vec![],
        weight: 1,
        effective_weight: 1,
        current_weight: 0,
        conns: 0,
        max_conns: 0,
        fails: 0,
        max_fails: 1,
        checked: 0,
        fail_timeout: 10,
        down: 0,
        refs: 0,
    }
}

fn list(addresses: Vec<Option<Vec<u8>>>) -> Peers {
    let peers: Vec<Peer> = addresses.into_iter().map(peer).collect();
    Peers { name: None, number: peers.len(), single: false, config: None, peers }
}

fn room() -> bool {
    true
}

fn full() -> bool {
    false
}

fn kept(_: usize) {
    panic!("nothing to give back");
}

fn key(bytes: &[u8]) -> SockaddrKey {
    SockaddrKey::from_raw(&Some(bytes.to_vec())).unwrap()
}

#[test]
fn keys_are_padded_addresses() {
    let k = key(&[7, 8]);
    assert_eq!(k.len, 2);
    assert_eq!(k.bytes[..3], [7, 8, 0]);
    assert!(k.bytes[2..].iter().all(|b| *b == 0));
    assert!(SockaddrKey::from_raw(&None).is_none());
    assert!(SockaddrKey::from_raw(&Some(vec![])).is_none());
    assert!(SockaddrKey::from_raw(&Some(vec![1; SOCKADDR_KEY_BYTES])).is_some());
    assert!(SockaddrKey::from_raw(&Some(vec![1; SOCKADDR_KEY_BYTES + 1])).is_none());
}

#[test]
fn keys_tell_addresses_apart() {
    assert!(key(&[1, 2]).same(&key(&[1, 2])));
    assert!(!key(&[1, 2]).same(&key(&[1, 3])));
    // The padding of one is no match for the zeros of the other.
    assert!(!key(&[1]).same(&key(&[1, 0])));
}

#[test]
fn the_last_entry_of_a_key_counts() {
    let mut index = SlotIndex::new();
    assert_eq!(index.get(&key(&[1])), None);
    assert_eq!(index.try_insert(key(&[1]), 4, &room), Ok(()));
    assert_eq!(index.try_insert(key(&[2]), 5, &full), Err(()));
    assert_eq!(index.get(&key(&[2])), None);
    assert_eq!(index.try_insert(key(&[2]), 5, &room), Ok(()));
    assert_eq!(index.try_insert(key(&[1]), 6, &full), Ok(()));
    assert_eq!((index.get(&key(&[1])), index.get(&key(&[2]))), (Some(6), Some(5)));
}

#[test]
fn tables_without_an_index_find_nothing() {
    let mut t = EwmaSlotTable::from_slots(zeroed_slots(2));
    assert_eq!(t.len(), 2);
    assert_eq!(t.index_slot_at(0, &Some(vec![1]), &room), Err(()));
    assert_eq!(t.get_by_sockaddr(&Some(vec![1])), None);
    assert_eq!(EwmaSlotTable::empty().len(), 0);
}

#[test]
fn slots_are_entered_by_position() {
    for place in [IndexPlace::Pool, IndexPlace::Slab] {
        let mut t = alloc_indexed_slots(place, 2, 32, 64, &|_: usize| true, &kept).unwrap();
        assert_eq!(t.index_slot_at(1, &Some(vec![1]), &room), Ok(()));
        assert_eq!(t.get_by_sockaddr(&Some(vec![1])), Some(1));
        assert_eq!(t.index_slot_at(2, &Some(vec![2]), &room), Err(()));
        assert_eq!(t.index_slot_at(0, &None, &room), Err(()));
        assert_eq!(t.index_slot_at(0, &Some(vec![2]), &full), Err(()));
        t.get_mut(1).unwrap().last_touched_msec = 9;
        assert_eq!(t.slots[1].last_touched_msec, 9);
        assert!(t.get_mut(2).is_none());
        match place {
            IndexPlace::Pool => assert!(t.pool_index.is_some() && t.slab_index.is_none()),
            IndexPlace::Slab => assert!(t.pool_index.is_none() && t.slab_index.is_some()),
        }
    }
}

#[test]
fn the_pool_index_goes_first() {
    let mut pool = SlotIndex::new();
    pool.try_insert(key(&[1]), 1, &room).unwrap();
    let mut slab = SlotIndex::new();
    slab.try_insert(key(&[1]), 2, &room).unwrap();
    let t = EwmaSlotTable::empty().with_pool_index(pool).with_slab_index(slab);
    assert_eq!(t.get_by_sockaddr(&Some(vec![1])), Some(1));
}

fn refusal(
    place: IndexPlace,
    len: usize,
    grant: impl Fn(usize) -> bool,
) -> (Option<RoomRefused>, Vec<usize>) {
    let back = RefCell::new(vec![]);
    let give_back = |n: usize| back.borrow_mut().push(n);
    let r = alloc_indexed_slots(place, len, 32, 100, &grant, &give_back).err();
    (r, back.into_inner())
}

#[test]
fn indexed_tables_need_room_for_both() {
    let no_index = |n: usize| n != 100;
    let no_slots = |n: usize| n != 64;
    let (index, slots) = (Some(RoomRefused::Index), Some(RoomRefused::Slots));
    assert_eq!(refusal(IndexPlace::Slab, 2, no_index), (index, vec![]));
    assert_eq!(refusal(IndexPlace::Pool, 2, no_index), (index, vec![]));
    // A zone gets the room of the index back.
    assert_eq!(refusal(IndexPlace::Slab, 2, no_slots), (slots, vec![100]));
    assert_eq!(refusal(IndexPlace::Pool, 2, no_slots), (slots, vec![]));
    assert_eq!(refusal(IndexPlace::Slab, usize::MAX, |_: usize| true), (slots, vec![100]));
    assert_eq!(refusal(IndexPlace::Slab, 2, |_: usize| true), (None, vec![]));
}

#[test]
fn tables_without_slots_need_room_for_the_index_in_a_zone_only() {
    let only_index = |n: usize| n == 100;
    for place in [IndexPlace::Pool, IndexPlace::Slab] {
        let t = alloc_indexed_slots(place, 0, 32, 100, &only_index, &kept).unwrap();
        assert_eq!(t.len(), 0);
        assert_eq!(t.pool_index.is_some(), place == IndexPlace::Pool);
        assert_eq!(t.slab_index.is_some(), place == IndexPlace::Slab);
    }
    let nothing = |_: usize| false;
    let t = alloc_indexed_slots(IndexPlace::Pool, 0, 32, 100, &nothing, &kept).unwrap();
    assert!(t.len() == 0 && t.pool_index.is_none() && t.slab_index.is_none());
    assert_eq!(refusal(IndexPlace::Slab, 0, nothing), (Some(RoomRefused::Index), vec![]));
}

#[test]
fn stamping_fills_the_index() {
    let l = list(vec![Some(vec![1]), Some(vec![2]), Some(vec![3])]);
    let mut t = alloc_indexed_slots(IndexPlace::Pool, 3, 32, 64, &|_: usize| true, &kept).unwrap();
    assert_eq!(stamp_slot_identities(&l, &mut t, &room), Ok(()));
    for n in 1..4u8 {
        let address = Some(vec![n]);
        let found = find_slot_by_sockaddr(&t, &address);
        assert_eq!(found, Some(n as usize - 1));
        // The index and the table agree.
        assert_eq!(found, table::find_slot_by_sockaddr(&t.slots, &address));
    }
    assert_eq!(find_slot_by_sockaddr(&t, &Some(vec![9])), None);
}

#[test]
fn stamping_asks_for_room_once_for_each_address() {
    let asked = RefCell::new(0);
    let grant = || {
        *asked.borrow_mut() += 1;
        true
    };
    let l = list(vec![Some(vec![1]), Some(vec![1]), Some(vec![2])]);
    let mut t = alloc_indexed_slots(IndexPlace::Pool, 3, 32, 64, &|_: usize| true, &kept).unwrap();
    assert_eq!(stamp_slot_identities(&l, &mut t, &grant), Ok(()));
    assert_eq!(*asked.borrow(), 2);
}

#[test]
fn an_address_stamped_twice_finds_the_last() {
    let l = list(vec![Some(vec![1]), Some(vec![1])]);
    let mut t = alloc_indexed_slots(IndexPlace::Pool, 2, 32, 64, &|_: usize| true, &kept).unwrap();
    assert_eq!(stamp_slot_identities(&l, &mut t, &room), Ok(()));
    assert_eq!(find_slot_by_sockaddr(&t, &Some(vec![1])), Some(1));
}

#[test]
fn stamping_stops_at_the_first_failure() {
    let l = list(vec![Some(vec![1]), None, Some(vec![3])]);
    let mut t = alloc_indexed_slots(IndexPlace::Pool, 3, 32, 64, &|_: usize| true, &kept).unwrap();
    assert_eq!(stamp_slot_identities(&l, &mut t, &room), Err(()));
    assert_eq!(find_slot_by_sockaddr(&t, &Some(vec![1])), Some(0));
    assert_eq!(find_slot_by_sockaddr(&t, &Some(vec![3])), None);
    assert_eq!(t.slots[2].sockaddr, None);
    let mut t = alloc_indexed_slots(IndexPlace::Pool, 3, 32, 64, &|_: usize| true, &kept).unwrap();
    assert_eq!(stamp_slot_identities(&l, &mut t, &full), Err(()));
    assert_eq!(t.slots[0].sockaddr, Some(vec![1]));
    // Without an index nothing can be entered, but an empty table stamps nothing.
    let mut bare = EwmaSlotTable::from_slots(zeroed_slots(1));
    assert_eq!(stamp_slot_identities(&l, &mut bare, &room), Err(()));
    assert_eq!(stamp_slot_identities(&l, &mut EwmaSlotTable::empty(), &room), Ok(()));
}
