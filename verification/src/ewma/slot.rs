//! Slot tables with an index, which finds a slot by its address without going
//! through the table.
use vstd::prelude::*;

use crate::bytes::{contents, copy_contents};
use crate::ewma::table::{
    alloc_slots, blank_table, room_granted, room_refused, stamped, table, EwmaSlot, SlotView,
};
use crate::peer::{Peer, Peers};

verus! {

/// The bytes of the longest socket address.
pub const SOCKADDR_KEY_BYTES: usize = 128;

/// A socket address as the index holds it: its length, and its bytes followed
/// by zeros.
#[derive(Clone, Copy, Debug)]
pub struct SockaddrKey {
    pub len: u32,
    pub bytes: [u8; SOCKADDR_KEY_BYTES],
}

/// What the contracts see of a key.
#[verifier::ext_equal]
pub struct KeyView {
    pub len: u32,
    pub bytes: Seq<u8>,
}

impl View for SockaddrKey {
    type V = KeyView;

    open spec fn view(&self) -> KeyView {
        KeyView { len: self.len, bytes: self.bytes@ }
    }
}

/// The address can be a key: it is there, not empty, and not too long.
pub open spec fn keyed(sockaddr: Option<Seq<u8>>) -> bool {
    sockaddr is Some && 0 < sockaddr->0.len() <= SOCKADDR_KEY_BYTES
}

/// The key of an address.
pub open spec fn key_of(sockaddr: Option<Seq<u8>>) -> KeyView {
    let s = sockaddr->0;
    KeyView {
        len: s.len() as u32,
        bytes: Seq::new(
            SOCKADDR_KEY_BYTES as nat,
            |i: int|
                if i < s.len() {
                    s[i]
                } else {
                    0u8
                },
        ),
    }
}

/// Two addresses have the same key only if they are the same.
pub proof fn law_keys_tell_addresses_apart(a: Option<Seq<u8>>, b: Option<Seq<u8>>)
    requires
        keyed(a),
        keyed(b),
    ensures
        key_of(a) == key_of(b) <==> a == b,
{
    if key_of(a) == key_of(b) {
        assert forall|i: int| 0 <= i < a->0.len() implies a->0[i] == b->0[i] by {
            assert(key_of(a).bytes[i] == key_of(b).bytes[i]);
        }
        assert(a->0 =~= b->0);
    }
}

impl SockaddrKey {
    /// The key of an address, if it can have one.
    pub fn from_raw(sockaddr: &Option<Vec<u8>>) -> (r: Option<SockaddrKey>)
        ensures
            match r {
                Some(key) => keyed(contents(*sockaddr)) && key@ == key_of(contents(*sockaddr)),
                None => !keyed(contents(*sockaddr)),
            },
    {
        let raw = match sockaddr {
            Some(raw) => raw,
            None => {
                return None;
            },
        };
        if raw.len() == 0 || raw.len() > SOCKADDR_KEY_BYTES {
            return None;
        }
        let mut bytes = [0u8; SOCKADDR_KEY_BYTES];
        let mut i: usize = 0;
        while i < raw.len()
            invariant
                i <= raw@.len() <= SOCKADDR_KEY_BYTES,
                forall|j: int|
                    0 <= j < SOCKADDR_KEY_BYTES ==> #[trigger] bytes@[j] == (if j < i {
                        raw@[j]
                    } else {
                        0u8
                    }),
            decreases raw@.len() - i,
        {
            bytes[i] = raw[i];
            i = i + 1;
        }
        let key = SockaddrKey { len: raw.len() as u32, bytes };
        assert(key@ =~= key_of(contents(*sockaddr)));
        Some(key)
    }

    /// Whether two keys are the same.
    pub fn same(&self, other: &SockaddrKey) -> (r: bool)
        ensures
            r == (self@ == other@),
    {
        if self.len != other.len {
            return false;
        }
        let mut i: usize = 0;
        while i < SOCKADDR_KEY_BYTES
            invariant
                i <= SOCKADDR_KEY_BYTES,
                forall|j: int| 0 <= j < i ==> self.bytes@[j] == other.bytes@[j],
            decreases SOCKADDR_KEY_BYTES - i,
        {
            if self.bytes[i] != other.bytes[i] {
                return false;
            }
            i = i + 1;
        }
        assert(self@ =~= other@);
        true
    }
}

/// Which slot an address has.
pub struct SlotIndex {
    entries: Vec<(SockaddrKey, usize)>,
}

spec fn entry_map(entries: Seq<(SockaddrKey, usize)>, n: int) -> Map<KeyView, usize>
    decreases n,
{
    if n <= 0 {
        Map::empty()
    } else {
        entry_map(entries, n - 1).insert(entries[n - 1].0@, entries[n - 1].1)
    }
}

proof fn lemma_entry_map(entries: Seq<(SockaddrKey, usize)>, n: int)
    requires
        0 <= n <= entries.len(),
        forall|i: int, j: int| 0 <= i < j < n ==> entries[i].0@ != entries[j].0@,
    ensures
        forall|i: int|
            0 <= i < n ==> entry_map(entries, n).contains_key((#[trigger] entries[i]).0@)
                && entry_map(entries, n)[entries[i].0@] == entries[i].1,
        forall|k: KeyView| #[trigger]
            entry_map(entries, n).contains_key(k) ==> exists|i: int|
                0 <= i < n && (#[trigger] entries[i]).0@ == k,
    decreases n,
{
    if n > 0 {
        lemma_entry_map(entries, n - 1);
        assert forall|k: KeyView| #[trigger] entry_map(entries, n).contains_key(k) implies exists|
            i: int,
        |
            0 <= i < n && (#[trigger] entries[i]).0@ == k by {
            if k == entries[n - 1].0@ {
            } else {
                assert(entry_map(entries, n - 1).contains_key(k));
                let i = choose|i: int| 0 <= i < n - 1 && (#[trigger] entries[i]).0@ == k;
                assert(entries[i].0@ == k);
            }
        }
    }
}

impl View for SlotIndex {
    type V = Map<KeyView, usize>;

    closed spec fn view(&self) -> Map<KeyView, usize> {
        entry_map(self.entries@, self.entries@.len() as int)
    }
}

impl SlotIndex {
    /// No key has two entries.
    #[verifier::type_invariant]
    spec fn keys_once(self) -> bool {
        forall|i: int, j: int|
            0 <= i < j < self.entries@.len() ==> self.entries@[i].0@ != self.entries@[j].0@
    }

    /// An index of nothing.
    pub fn new() -> (r: Self)
        ensures
            r@ == Map::<KeyView, usize>::empty(),
    {
        SlotIndex { entries: Vec::new() }
    }

    fn position(&self, key: &SockaddrKey) -> (r: Option<usize>)
        ensures
            match r {
                Some(i) => i < self.entries@.len() && self.entries@[i as int].0@ == key@,
                None => forall|i: int|
                    0 <= i < self.entries@.len() ==> (#[trigger] self.entries@[i]).0@ != key@,
            },
    {
        let mut i: usize = 0;
        while i < self.entries.len()
            invariant
                i <= self.entries@.len(),
                forall|j: int| 0 <= j < i ==> (#[trigger] self.entries@[j]).0@ != key@,
            decreases self.entries@.len() - i,
        {
            if self.entries[i].0.same(key) {
                return Some(i);
            }
            i = i + 1;
        }
        None
    }

    /// The slot of a key.
    pub fn get(&self, key: &SockaddrKey) -> (r: Option<usize>)
        ensures
            r == (if self@.contains_key(key@) {
                Some(self@[key@])
            } else {
                None
            }),
    {
        proof {
            use_type_invariant(self);
            lemma_entry_map(self.entries@, self.entries@.len() as int);
        }
        match self.position(key) {
            Some(i) => {
                assert(self.entries@[i as int].0@ == key@);
                Some(self.entries[i].1)
            },
            None => None,
        }
    }

    /// Enter a key with its slot. A key that is there already gets the new
    /// slot; another one needs room, and without it nothing changes.
    pub fn try_insert<G: Fn() -> bool>(&mut self, key: SockaddrKey, slot: usize, grant: &G) -> (r:
        Result<(), ()>)
        requires
            call_requires(*grant, ()),
        ensures
            match r {
                Ok(_) => {
                    &&& final(self)@ == old(self)@.insert(key@, slot)
                    &&& old(self)@.contains_key(key@) || call_ensures(*grant, (), true)
                },
                Err(_) => {
                    &&& final(self)@ == old(self)@
                    &&& !old(self)@.contains_key(key@)
                    &&& call_ensures(*grant, (), false)
                },
            },
    {
        proof {
            use_type_invariant(&*self);
            lemma_entry_map(self.entries@, self.entries@.len() as int);
        }
        let ghost before = self.entries@;
        match self.position(&key) {
            Some(i) => {
                let mut entries: Vec<(SockaddrKey, usize)> = Vec::new();
                std::mem::swap(&mut entries, &mut self.entries);
                entries[i] = (key, slot);
                proof {
                    assert forall|a: int, b: int| 0 <= a < b < entries@.len() implies entries@[a].0@
                        != entries@[b].0@ by {
                        assert(before[a].0@ != before[b].0@);
                    }
                    lemma_entry_map(entries@, entries@.len() as int);
                    lemma_same_map(before, entries@, i as int);
                }
                self.entries = entries;
                Ok(())
            },
            None => if grant() {
                let mut entries: Vec<(SockaddrKey, usize)> = Vec::new();
                std::mem::swap(&mut entries, &mut self.entries);
                entries.push((key, slot));
                proof {
                    lemma_prefix_map(before, entries@, before.len() as int);
                }
                self.entries = entries;
                Ok(())
            } else {
                Err(())
            },
        }
    }
}

proof fn lemma_prefix_map(
    a: Seq<(SockaddrKey, usize)>,
    b: Seq<(SockaddrKey, usize)>,
    n: int,
)
    requires
        0 <= n <= a.len(),
        n <= b.len(),
        forall|i: int| 0 <= i < n ==> a[i] == b[i],
    ensures
        entry_map(a, n) == entry_map(b, n),
    decreases n,
{
    if n > 0 {
        lemma_prefix_map(a, b, n - 1);
    }
}

proof fn lemma_same_map(a: Seq<(SockaddrKey, usize)>, b: Seq<(SockaddrKey, usize)>, i: int)
    requires
        0 <= i < a.len(),
        a.len() == b.len(),
        b == a.update(i, b[i]),
        b[i].0@ == a[i].0@,
        forall|x: int, y: int| 0 <= x < y < a.len() ==> a[x].0@ != a[y].0@,
        forall|x: int, y: int| 0 <= x < y < b.len() ==> b[x].0@ != b[y].0@,
    ensures
        entry_map(b, b.len() as int) == entry_map(a, a.len() as int).insert(b[i].0@, b[i].1),
{
    let n = a.len() as int;
    lemma_entry_map(a, n);
    lemma_entry_map(b, n);
    let ma = entry_map(a, n).insert(b[i].0@, b[i].1);
    let mb = entry_map(b, n);
    assert forall|k: KeyView|
        #![trigger ma.dom().contains(k)]
        #![trigger mb.dom().contains(k)]
        #![trigger ma[k]]
        ma.dom().contains(k) == mb.dom().contains(k) && (ma.dom().contains(k) ==> ma[k]
            == mb[k]) by {
        if mb.contains_key(k) {
            let j = choose|j: int| 0 <= j < n && (#[trigger] b[j]).0@ == k;
            assert(a[j].0@ == k);
            assert(entry_map(a, n).contains_key(a[j].0@));
            assert(mb[b[j].0@] == b[j].1);
            if j != i {
                assert(a[j] == b[j]);
                assert(k != b[i].0@) by {
                    if j < i {
                        assert(b[j].0@ != b[i].0@);
                    } else {
                        assert(b[i].0@ != b[j].0@);
                    }
                }
            }
        } else if ma.contains_key(k) {
            if k != b[i].0@ {
                let j = choose|j: int| 0 <= j < n && (#[trigger] a[j]).0@ == k;
                assert(b[j].0@ == k);
            }
            assert(mb.contains_key(b[i].0@));
        }
    }
    assert(ma =~= mb);
}

/// A table and its index. A table in the memory of the configuration has its
/// index there, a table in a zone in the zone.
pub struct EwmaSlotTable {
    pub slots: Vec<EwmaSlot>,
    pub pool_index: Option<SlotIndex>,
    pub slab_index: Option<SlotIndex>,
}

/// What the contracts see of a table and its index.
#[verifier::ext_equal]
pub struct SlotTableView {
    pub slots: Seq<SlotView>,
    pub pool: Option<Map<KeyView, usize>>,
    pub slab: Option<Map<KeyView, usize>>,
}

impl View for EwmaSlotTable {
    type V = SlotTableView;

    open spec fn view(&self) -> SlotTableView {
        SlotTableView {
            slots: table(self.slots@),
            pool: match self.pool_index {
                Some(index) => Some(index@),
                None => None,
            },
            slab: match self.slab_index {
                Some(index) => Some(index@),
                None => None,
            },
        }
    }
}

impl SlotTableView {
    /// The index that is used.
    pub open spec fn index(self) -> Option<Map<KeyView, usize>> {
        if self.pool is Some {
            self.pool
        } else {
            self.slab
        }
    }

    /// The same with other entries in the index that is used.
    pub open spec fn with_index(self, index: Map<KeyView, usize>) -> SlotTableView {
        if self.pool is Some {
            SlotTableView { pool: Some(index), ..self }
        } else if self.slab is Some {
            SlotTableView { slab: Some(index), ..self }
        } else {
            self
        }
    }

    /// The slot that the index has for an address.
    pub open spec fn lookup(self, sockaddr: Option<Seq<u8>>) -> Option<usize> {
        if keyed(sockaddr) && self.index() is Some && self.index()->0.contains_key(
            key_of(sockaddr),
        ) {
            Some(self.index()->0[key_of(sockaddr)])
        } else {
            None
        }
    }
}

/// What entering a slot under an address may come to. It fails where the
/// address can have no key, where there is no index, and where a new entry
/// finds no room.
pub open spec fn entered<G: Fn() -> bool>(
    grant: G,
    before: SlotTableView,
    sockaddr: Option<Seq<u8>>,
    slot: usize,
    ok: bool,
    after: SlotTableView,
) -> bool {
    let key = key_of(sockaddr);
    if ok {
        &&& keyed(sockaddr)
        &&& before.index() is Some
        &&& before.index()->0.contains_key(key) || call_ensures(grant, (), true)
        &&& after == before.with_index(before.index()->0.insert(key, slot))
    } else {
        &&& after == before
        &&& {
            ||| !keyed(sockaddr)
            ||| before.index() is None
            ||| !before.index()->0.contains_key(key) && call_ensures(grant, (), false)
        }
    }
}

/// The entries once the first `n` peers have been entered, each under its own
/// position.
pub open spec fn indexed(m: Map<KeyView, usize>, peers: Seq<Peer>, n: int) -> Map<KeyView, usize>
    decreases n,
{
    if n <= 0 {
        m
    } else {
        indexed(m, peers, n - 1).insert(key_of(contents(peers[n - 1].sockaddr)), (n - 1) as usize)
    }
}

/// The table with the addresses of the first `n` peers in its slots and the
/// first `e` of them in its index.
pub open spec fn stamped_to(
    before: SlotTableView,
    peers: Seq<Peer>,
    n: int,
    e: int,
) -> SlotTableView {
    let t = SlotTableView { slots: stamped(before.slots, peers.take(n)), ..before };
    if before.index() is Some {
        t.with_index(indexed(before.index()->0, peers, e))
    } else {
        t
    }
}

/// How many slots a list stamps.
pub open spec fn stamp_count(before: SlotTableView, peers: Seq<Peer>) -> int {
    if before.slots.len() <= peers.len() {
        before.slots.len() as int
    } else {
        peers.len() as int
    }
}

impl EwmaSlotTable {
    /// A table of these slots, without an index.
    pub fn from_slots(slots: Vec<EwmaSlot>) -> (r: Self)
        ensures
            r@ == (SlotTableView { slots: table(slots@), pool: None, slab: None }),
    {
        EwmaSlotTable { slots, pool_index: None, slab_index: None }
    }

    /// A table without slots and without an index.
    pub fn empty() -> (r: Self)
        ensures
            r@ == (SlotTableView { slots: Seq::empty(), pool: None, slab: None }),
    {
        let r = EwmaSlotTable { slots: Vec::new(), pool_index: None, slab_index: None };
        assert(r@.slots =~= Seq::<SlotView>::empty());
        r
    }

    /// The table with an index in the memory of the configuration.
    pub fn with_pool_index(self, index: SlotIndex) -> (r: Self)
        ensures
            r@ == (SlotTableView { pool: Some(index@), ..self@ }),
    {
        EwmaSlotTable { slots: self.slots, pool_index: Some(index), slab_index: self.slab_index }
    }

    /// The table with an index in the zone.
    pub fn with_slab_index(self, index: SlotIndex) -> (r: Self)
        ensures
            r@ == (SlotTableView { slab: Some(index@), ..self@ }),
    {
        EwmaSlotTable { slots: self.slots, pool_index: self.pool_index, slab_index: Some(index) }
    }

    /// How many slots the table has.
    pub fn len(&self) -> (r: usize)
        ensures
            r == self@.slots.len(),
    {
        self.slots.len()
    }

    /// The slot at position `i`, to be changed.
    pub fn get_mut(&mut self, i: usize) -> (r: Option<&mut EwmaSlot>)
        ensures
            match r {
                Some(slot) => {
                    &&& i < old(self).slots@.len()
                    &&& *slot == old(self).slots@[i as int]
                    &&& final(self)@ == (SlotTableView {
                        slots: old(self)@.slots.update(i as int, final(slot)@),
                        ..old(self)@
                    })
                },
                None => i >= old(self).slots@.len() && final(self)@ == old(self)@,
            },
    {
        if i < self.slots.len() {
            proof {
                assert forall|v: EwmaSlot|
                    table(#[trigger] self.slots@.update(i as int, v)) == table(self.slots@).update(
                        i as int,
                        v@,
                    ) by {
                    assert(table(self.slots@.update(i as int, v)) =~= table(self.slots@).update(
                        i as int,
                        v@,
                    ));
                }
            }
            Some(&mut self.slots[i])
        } else {
            None
        }
    }

    /// Enter the slot at position `i` under an address.
    pub fn index_slot_at<G: Fn() -> bool>(
        &mut self,
        i: usize,
        sockaddr: &Option<Vec<u8>>,
        grant: &G,
    ) -> (r: Result<(), ()>)
        requires
            call_requires(*grant, ()),
        ensures
            if i < old(self)@.slots.len() {
                entered(*grant, old(self)@, contents(*sockaddr), i, r is Ok, final(self)@)
            } else {
                r is Err && final(self)@ == old(self)@
            },
    {
        if i >= self.slots.len() {
            return Err(());
        }
        self.index_slot(sockaddr, i, grant)
    }

    fn index_slot<G: Fn() -> bool>(
        &mut self,
        sockaddr: &Option<Vec<u8>>,
        slot: usize,
        grant: &G,
    ) -> (r: Result<(), ()>)
        requires
            call_requires(*grant, ()),
        ensures
            entered(*grant, old(self)@, contents(*sockaddr), slot, r is Ok, final(self)@),
            final(self).slots == old(self).slots,
    {
        let key = match SockaddrKey::from_raw(sockaddr) {
            Some(key) => key,
            None => {
                return Err(());
            },
        };
        if let Some(index) = &mut self.pool_index {
            return index.try_insert(key, slot, grant);
        }
        if let Some(index) = &mut self.slab_index {
            return index.try_insert(key, slot, grant);
        }
        Err(())
    }

    /// The slot that the index has for an address.
    pub fn get_by_sockaddr(&self, sockaddr: &Option<Vec<u8>>) -> (r: Option<usize>)
        ensures
            r == self@.lookup(contents(*sockaddr)),
    {
        let key = match SockaddrKey::from_raw(sockaddr) {
            Some(key) => key,
            None => {
                return None;
            },
        };
        if let Some(index) = &self.pool_index {
            return index.get(&key);
        }
        if let Some(index) = &self.slab_index {
            return index.get(&key);
        }
        None
    }
}

/// Where the index of a table is.
#[derive(Clone, Copy, Debug, PartialEq, Eq, Structural)]
pub enum IndexPlace {
    Pool,
    Slab,
}

/// Why a table and its index could not be had.
#[derive(Clone, Copy, Debug, PartialEq, Eq, Structural)]
pub enum RoomRefused {
    /// There is no room for the index. Nothing has been taken.
    Index,
    /// There is room for the index, but not for the slots.
    Slots,
}

/// A table of `len` blank slots with an empty index.
pub open spec fn blank_indexed(place: IndexPlace, len: int) -> SlotTableView {
    let none = Map::<KeyView, usize>::empty();
    match place {
        IndexPlace::Pool => SlotTableView {
            slots: blank_table(len),
            pool: Some(none),
            slab: None,
        },
        IndexPlace::Slab => SlotTableView {
            slots: blank_table(len),
            pool: None,
            slab: Some(none),
        },
    }
}

/// A table of `len` blank slots with an empty index, if the host grants the
/// room: `index_size` bytes for the index, and `slot_size` bytes for each slot.
/// Where a zone has no room for the slots, the room of the index is given back
/// to it; the memory of the configuration is given back as a whole, and not
/// before. There, a table without slots can be had without an index.
pub fn alloc_indexed_slots<G: Fn(usize) -> bool, B: Fn(usize)>(
    place: IndexPlace,
    len: usize,
    slot_size: usize,
    index_size: usize,
    grant: &G,
    give_back: &B,
) -> (r: Result<EwmaSlotTable, RoomRefused>)
    requires
        forall|n: usize| call_requires(*grant, (n,)),
        forall|n: usize| call_requires(*give_back, (n,)),
    ensures
        match r {
            Ok(t) => {
                ||| {
                    &&& t@ == blank_indexed(place, len as int)
                    &&& call_ensures(*grant, (index_size,), true)
                    &&& room_granted(*grant, len as int, slot_size as int)
                }
                ||| {
                    &&& place == IndexPlace::Pool
                    &&& len == 0
                    &&& call_ensures(*grant, (index_size,), false)
                    &&& t@ == (SlotTableView { slots: Seq::empty(), pool: None, slab: None })
                }
            },
            Err(RoomRefused::Index) => {
                &&& call_ensures(*grant, (index_size,), false)
                &&& place == IndexPlace::Slab || len > 0
            },
            Err(RoomRefused::Slots) => {
                &&& call_ensures(*grant, (index_size,), true)
                &&& room_refused(*grant, len as int, slot_size as int)
                &&& place == IndexPlace::Slab ==> call_ensures(*give_back, (index_size,), ())
            },
        },
{
    if !grant(index_size) {
        return match place {
            IndexPlace::Pool => if len == 0 {
                Ok(EwmaSlotTable::empty())
            } else {
                Err(RoomRefused::Index)
            },
            IndexPlace::Slab => Err(RoomRefused::Index),
        };
    }
    let index = SlotIndex::new();
    match alloc_slots(len, slot_size, grant) {
        Some(slots) => {
            let t = EwmaSlotTable::from_slots(slots);
            Ok(
                match place {
                    IndexPlace::Pool => t.with_pool_index(index),
                    IndexPlace::Slab => t.with_slab_index(index),
                },
            )
        },
        None => {
            match place {
                IndexPlace::Pool => {},
                IndexPlace::Slab => give_back(index_size),
            }
            Err(RoomRefused::Slots)
        },
    }
}

/// Give each slot the address of the peer at the same position, and enter it
/// in the index under that address. Stops at the first that cannot be entered.
pub fn stamp_slot_identities<G: Fn() -> bool>(
    peers: &Peers,
    slots: &mut EwmaSlotTable,
    grant: &G,
) -> (r: Result<(), ()>)
    requires
        call_requires(*grant, ()),
    ensures
        match r {
            Ok(_) => {
                let n = stamp_count(old(slots)@, peers.peers@);
                &&& final(slots)@ == stamped_to(old(slots)@, peers.peers@, n, n)
                &&& forall|i: int|
                    0 <= i < n ==> keyed(contents((#[trigger] peers.peers@[i]).sockaddr))
                &&& n > 0 ==> old(slots)@.index() is Some
                &&& forall|i: int|
                    0 <= i < n ==> (indexed(old(slots)@.index()->0, peers.peers@, i).contains_key(
                        key_of(contents((#[trigger] peers.peers@[i]).sockaddr)),
                    ) || call_ensures(*grant, (), true))
            },
            Err(_) => exists|m: int|
                {
                    &&& 0 <= m < stamp_count(old(slots)@, peers.peers@)
                    &&& final(slots)@ == #[trigger] stamped_to(
                        old(slots)@,
                        peers.peers@,
                        m + 1,
                        m,
                    )
                    &&& entered(
                        *grant,
                        final(slots)@,
                        contents(peers.peers@[m].sockaddr),
                        m as usize,
                        false,
                        final(slots)@,
                    )
                },
        },
{
    let ghost before = slots@;
    let ghost list = peers.peers@;
    let mut i: usize = 0;
    proof {
        assert(stamped(before.slots, list.take(0)) =~= before.slots);
        assert(slots@ =~= stamped_to(before, list, 0, 0));
    }
    while i < slots.slots.len() && i < peers.peers.len()
        invariant
            call_requires(*grant, ()),
            list == peers.peers@,
            before == old(slots)@,
            i <= before.slots.len(),
            i <= list.len(),
            slots@ == stamped_to(before, list, i as int, i as int),
            slots.slots@.len() == before.slots.len(),
            forall|j: int| 0 <= j < i ==> keyed(contents((#[trigger] list[j]).sockaddr)),
            i > 0 ==> before.index() is Some,
            forall|j: int|
                0 <= j < i ==> (indexed(before.index()->0, list, j).contains_key(
                    key_of(contents((#[trigger] list[j]).sockaddr)),
                ) || call_ensures(*grant, (), true)),
        decreases before.slots.len() - i,
    {
        let ghost here = slots@;
        slots.slots[i].sockaddr = copy_contents(&peers.peers[i].sockaddr);
        proof {
            assert(slots@.slots =~= stamped(before.slots, list.take(i + 1))) by {
                assert forall|j: int| 0 <= j < slots@.slots.len() implies #[trigger] slots@.slots[j]
                    == stamped(before.slots, list.take(i + 1))[j] by {
                    assert(here.slots[j] == stamped(before.slots, list.take(i as int))[j]);
                }
            }
            assert(slots@ =~= stamped_to(before, list, i + 1, i as int));
        }
        match slots.index_slot(&peers.peers[i].sockaddr, i, grant) {
            Ok(_) => {},
            Err(_) => {
                return Err(());
            },
        }
        proof {
            assert(slots@ =~= stamped_to(before, list, i + 1, i + 1));
        }
        i = i + 1;
    }
    Ok(())
}

/// The slot that belongs to `sockaddr`, through the index.
pub fn find_slot_by_sockaddr(slots: &EwmaSlotTable, sockaddr: &Option<Vec<u8>>) -> (r: Option<usize>)
    ensures
        r == slots@.lookup(contents(*sockaddr)),
{
    slots.get_by_sockaddr(sockaddr)
}

} // verus!
