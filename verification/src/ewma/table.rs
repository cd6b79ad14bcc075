//! The slot tables: one score for each peer, found by socket address.
use vstd::prelude::*;

use crate::bytes::{bytes_eq, contents, copy_contents};
use crate::peer::{Peer, Peers, PeersView};
use crate::score::Score;

verus! {

/// The score of one peer.
///
/// The socket address says which peer the slot belongs to. It is what stays
/// the same: positions in a list shift when a zone takes peers out.
#[derive(Clone, Debug)]
pub struct EwmaSlot {
    pub sockaddr: Option<Vec<u8>>,
    /// The moving average of the round-trip time, as of `last_touched_msec`.
    pub ewma: Score,
    /// When the average was last set, or 0 for never.
    pub last_touched_msec: usize,
}

/// What the contracts see of a slot.
#[verifier::ext_equal]
pub struct SlotView {
    pub sockaddr: Option<Seq<u8>>,
    pub ewma: Score,
    pub last_touched_msec: usize,
}

impl View for EwmaSlot {
    type V = SlotView;

    open spec fn view(&self) -> SlotView {
        SlotView {
            sockaddr: contents(self.sockaddr),
            ewma: self.ewma,
            last_touched_msec: self.last_touched_msec,
        }
    }
}

/// One recorded average and the time that has passed since.
#[derive(Clone, Copy, Debug, PartialEq, Eq, Structural)]
pub struct Sample {
    pub ewma: Score,
    pub elapsed: usize,
}

/// What the contracts see of a table.
pub open spec fn table(slots: Seq<EwmaSlot>) -> Seq<SlotView> {
    Seq::new(slots.len(), |i: int| slots[i]@)
}

/// A slot that nothing has been recorded in.
pub open spec fn blank() -> SlotView {
    SlotView { sockaddr: None, ewma: Score::nil(), last_touched_msec: 0 }
}

/// A table of blank slots.
pub open spec fn blank_table(len: int) -> Seq<SlotView> {
    Seq::new(len as nat, |i: int| blank())
}

/// The slot belongs to the peer at `sockaddr`. An absent or empty address
/// belongs to nobody.
pub open spec fn owns(slot: SlotView, sockaddr: Option<Seq<u8>>) -> bool {
    sockaddr is Some && sockaddr->0.len() > 0 && slot.sockaddr == sockaddr
}

/// The first of the first `n` slots that belongs to `sockaddr`.
pub open spec fn slot_before(t: Seq<SlotView>, sockaddr: Option<Seq<u8>>, n: int) -> Option<int>
    decreases n,
{
    if n <= 0 {
        None
    } else {
        match slot_before(t, sockaddr, n - 1) {
            Some(i) => Some(i),
            None => if owns(t[n - 1], sockaddr) {
                Some(n - 1)
            } else {
                None
            },
        }
    }
}

/// The slot that belongs to `sockaddr`, the first where several do.
pub open spec fn slot_of(t: Seq<SlotView>, sockaddr: Option<Seq<u8>>) -> Option<int> {
    slot_before(t, sockaddr, t.len() as int)
}

/// The time from `then` to `now`, or none where the clock went back.
pub open spec fn elapsed(then: usize, now: usize) -> usize {
    if now >= then {
        (now - then) as usize
    } else {
        0
    }
}

/// The table with the addresses of the peers in it, position by position.
pub open spec fn stamped(t: Seq<SlotView>, peers: Seq<Peer>) -> Seq<SlotView> {
    Seq::new(
        t.len(),
        |i: int|
            if i < peers.len() {
                SlotView { sockaddr: contents(peers[i].sockaddr), ..t[i] }
            } else {
                t[i]
            },
    )
}

/// The recorded averages of the first `n` slots.
pub open spec fn samples(t: Seq<SlotView>, n: int, now: usize) -> Seq<Sample>
    decreases n,
{
    if n <= 0 {
        Seq::empty()
    } else {
        let before = samples(t, n - 1, now);
        let s = t[n - 1];
        if s.last_touched_msec == 0 {
            before
        } else {
            before.push(Sample { ewma: s.ewma, elapsed: elapsed(s.last_touched_msec, now) })
        }
    }
}

/// What `decay` may make of the slot's average at `now`. Without a slot the
/// score is zero.
pub open spec fn decayed<D: Fn(Score, usize) -> Score>(
    decay: D,
    slot: Option<SlotView>,
    now: usize,
    score: Score,
) -> bool {
    match slot {
        None => score == Score::nil(),
        Some(s) => call_ensures(decay, (s.ewma, elapsed(s.last_touched_msec, now)), score),
    }
}

/// What `average` may make of all recorded averages at `now`. Where none has
/// been recorded the mean is zero.
pub open spec fn mean_of<A: Fn(Vec<Sample>) -> Score>(
    average: A,
    t: Seq<SlotView>,
    now: usize,
    mean: Score,
) -> bool {
    let all = samples(t, t.len() as int, now);
    if all.len() == 0 {
        mean == Score::nil()
    } else {
        exists|v: Vec<Sample>| v@ == all && #[trigger] call_ensures(average, (v,), mean)
    }
}

/// The slot of a peer in a rebuilt table: its old score where it had one, else
/// the mean as of now where there is one, else nothing recorded.
pub open spec fn carried(
    old_table: Seq<SlotView>,
    sockaddr: Option<Seq<u8>>,
    mean: Score,
    now: usize,
) -> SlotView {
    match slot_of(old_table, sockaddr) {
        Some(j) => SlotView { sockaddr, ..old_table[j] },
        None => if mean.positive() {
            SlotView { sockaddr, ewma: mean, last_touched_msec: now }
        } else {
            SlotView { sockaddr, ..blank() }
        },
    }
}

/// The table of a list whose peers have changed.
pub open spec fn rebuilt(
    old_table: Seq<SlotView>,
    list: PeersView,
    mean: Score,
    now: usize,
) -> Seq<SlotView> {
    Seq::new(
        list.number as nat,
        |i: int|
            if i < list.peers.len() {
                carried(old_table, contents(list.peers[i].sockaddr), mean, now)
            } else {
                blank()
            },
    )
}

/// Room for `len` slots of `slot_size` bytes has been had: none is needed for
/// an empty table, else the host granted it.
pub open spec fn room_granted<G: Fn(usize) -> bool>(grant: G, len: int, slot_size: int) -> bool {
    len == 0 || (len * slot_size <= usize::MAX && call_ensures(
        grant,
        ((len * slot_size) as usize,),
        true,
    ))
}

/// Room for `len` slots of `slot_size` bytes could not be had: there is no
/// such number of bytes, or the host refused it.
pub open spec fn room_refused<G: Fn(usize) -> bool>(grant: G, len: int, slot_size: int) -> bool {
    len > 0 && (len * slot_size > usize::MAX || call_ensures(
        grant,
        ((len * slot_size) as usize,),
        false,
    ))
}

/// What an address finds, said directly.
pub proof fn lemma_slot_before(t: Seq<SlotView>, sockaddr: Option<Seq<u8>>, n: int)
    requires
        0 <= n <= t.len(),
    ensures
        match slot_before(t, sockaddr, n) {
            Some(i) => {
                &&& 0 <= i < n
                &&& owns(t[i], sockaddr)
                &&& forall|j: int| 0 <= j < i ==> !owns(#[trigger] t[j], sockaddr)
            },
            None => forall|j: int| 0 <= j < n ==> !owns(#[trigger] t[j], sockaddr),
        },
    decreases n,
{
    if n > 0 {
        lemma_slot_before(t, sockaddr, n - 1);
    }
}

/// Find the slot that belongs to `sockaddr`.
pub fn find_slot_by_sockaddr(slots: &Vec<EwmaSlot>, sockaddr: &Option<Vec<u8>>) -> (r: Option<
    usize,
>)
    ensures
        slot_of(table(slots@), contents(*sockaddr)) == match r {
            Some(i) => Some(i as int),
            None => None,
        },
        match r {
            Some(i) => {
                &&& i < slots@.len()
                &&& owns(slots@[i as int]@, contents(*sockaddr))
                &&& forall|j: int| 0 <= j < i ==> !owns((#[trigger] slots@[j])@, contents(*sockaddr))
            },
            None => forall|j: int|
                0 <= j < slots@.len() ==> !owns((#[trigger] slots@[j])@, contents(*sockaddr)),
        },
{
    let ghost t = table(slots@);
    let ghost addr = contents(*sockaddr);
    let needle = match sockaddr {
        Some(bytes) => bytes,
        None => {
            proof {
                lemma_slot_before(t, addr, t.len() as int);
            }
            return None;
        },
    };
    if needle.len() == 0 {
        proof {
            lemma_slot_before(t, addr, t.len() as int);
        }
        return None;
    }
    let mut i: usize = 0;
    while i < slots.len()
        invariant
            i <= slots@.len(),
            t == table(slots@),
            addr == Some(needle@),
            addr == contents(*sockaddr),
            needle@.len() > 0,
            slot_before(t, addr, i as int) is None,
            forall|j: int| 0 <= j < i ==> !owns((#[trigger] slots@[j])@, addr),
        decreases slots@.len() - i,
    {
        if let Some(bytes) = &slots[i].sockaddr {
            if bytes_eq(bytes, needle) {
                proof {
                    assert(owns(t[i as int], addr));
                    assert(slot_before(t, addr, i + 1) == Some(i as int));
                    lemma_slot_stays(t, addr, i + 1, t.len() as int);
                }
                return Some(i);
            }
        }
        i = i + 1;
    }
    None
}

proof fn lemma_slot_stays(t: Seq<SlotView>, sockaddr: Option<Seq<u8>>, m: int, n: int)
    requires
        m <= n,
        slot_before(t, sockaddr, m) is Some,
    ensures
        slot_before(t, sockaddr, n) == slot_before(t, sockaddr, m),
    decreases n - m,
{
    if m < n {
        lemma_slot_stays(t, sockaddr, m, n - 1);
    }
}

/// Give each slot the address of the peer at the same position.
pub fn stamp_slot_identities(peers: &Peers, slots: &mut Vec<EwmaSlot>)
    ensures
        table(final(slots)@) == stamped(table(old(slots)@), peers.peers@),
{
    let ghost before = table(slots@);
    let mut i: usize = 0;
    while i < slots.len() && i < peers.peers.len()
        invariant
            i <= slots@.len(),
            i <= peers.peers@.len(),
            slots@.len() == before.len(),
            forall|j: int|
                0 <= j < slots@.len() ==> (#[trigger] slots@[j])@ == (if j < i {
                    SlotView { sockaddr: contents(peers.peers@[j].sockaddr), ..before[j] }
                } else {
                    before[j]
                }),
        decreases slots@.len() - i,
    {
        assert(slots@[i as int]@ == before[i as int]);
        slots[i].sockaddr = copy_contents(&peers.peers[i].sockaddr);
        i = i + 1;
    }
    assert(table(slots@) =~= stamped(before, peers.peers@));
}

fn since(then: usize, now: usize) -> (r: usize)
    ensures
        r == elapsed(then, now),
{
    if now >= then {
        now - then
    } else {
        0
    }
}

/// The slot's average decayed forward to `now`. Without a slot the score is
/// zero. `decay` takes the average and the milliseconds that have passed.
pub fn decay_score<D: Fn(Score, usize) -> Score>(
    slot: Option<&EwmaSlot>,
    now: usize,
    decay: &D,
) -> (r: Score)
    requires
        forall|e: Score, t: usize| call_requires(*decay, (e, t)),
    ensures
        decayed(
            *decay,
            match slot {
                Some(s) => Some(s@),
                None => None,
            },
            now,
            r,
        ),
{
    match slot {
        None => Score::zero(),
        Some(s) => {
            let td: usize = since(s.last_touched_msec, now);
            decay(s.ewma, td)
        },
    }
}

/// The averages of all slots that one has been recorded in, in table order.
pub fn slow_start_samples(slots: &Vec<EwmaSlot>, now: usize) -> (r: Vec<Sample>)
    ensures
        r@ == samples(table(slots@), slots@.len() as int, now),
{
    let ghost t = table(slots@);
    let mut r: Vec<Sample> = Vec::new();
    let mut i: usize = 0;
    while i < slots.len()
        invariant
            i <= slots@.len(),
            t == table(slots@),
            r@ == samples(t, i as int, now),
        decreases slots@.len() - i,
    {
        let s = &slots[i];
        assert(s@ == t[i as int]);
        if s.last_touched_msec != 0 {
            r.push(Sample { ewma: s.ewma, elapsed: since(s.last_touched_msec, now) });
        }
        i = i + 1;
    }
    r
}

/// The mean of the recorded averages, each decayed to `now`: what a peer that
/// turns up starts from, so that a zero score does not draw every request to
/// it. Zero where nothing has been recorded yet.
pub fn slow_start_mean<A: Fn(Vec<Sample>) -> Score>(
    slots: &Vec<EwmaSlot>,
    now: usize,
    average: &A,
) -> (r: Score)
    requires
        forall|v: Vec<Sample>| call_requires(*average, (v,)),
    ensures
        mean_of(*average, table(slots@), now, r),
{
    let all = slow_start_samples(slots, now);
    if all.len() == 0 {
        Score::zero()
    } else {
        average(all)
    }
}

/// Fold a round-trip time into the slot's average as of `now`. `blend` takes
/// the average, the milliseconds that have passed and the round-trip time.
pub fn ewma_update<B: Fn(Score, usize, usize) -> Score>(
    slot: &mut EwmaSlot,
    rtt: usize,
    now: usize,
    blend: &B,
)
    requires
        forall|e: Score, t: usize, r: usize| call_requires(*blend, (e, t, r)),
    ensures
        call_ensures(
            *blend,
            (old(slot).ewma, elapsed(old(slot).last_touched_msec, now), rtt),
            final(slot).ewma,
        ),
        final(slot).last_touched_msec == now,
        final(slot)@.sockaddr == old(slot)@.sockaddr,
{
    let td: usize = since(slot.last_touched_msec, now);
    slot.ewma = blend(slot.ewma, td, rtt);
    slot.last_touched_msec = now;
}

/// A table of `len` blank slots.
pub fn zeroed_slots(len: usize) -> (r: Vec<EwmaSlot>)
    ensures
        r@.len() == len,
        table(r@) == blank_table(len as int),
{
    let mut r: Vec<EwmaSlot> = Vec::new();
    let mut i: usize = 0;
    while i < len
        invariant
            i <= len,
            r@.len() == i,
            forall|j: int| 0 <= j < i ==> (#[trigger] r@[j])@ == blank(),
        decreases len - i,
    {
        r.push(EwmaSlot { sockaddr: None, ewma: Score::zero(), last_touched_msec: 0 });
        i = i + 1;
    }
    assert(table(r@) =~= blank_table(len as int));
    r
}

/// A table of `len` blank slots of `slot_size` bytes each, if the host grants
/// the room. An empty table needs none.
pub fn alloc_slots<G: Fn(usize) -> bool>(len: usize, slot_size: usize, grant: &G) -> (r: Option<
    Vec<EwmaSlot>,
>)
    requires
        forall|n: usize| call_requires(*grant, (n,)),
    ensures
        match r {
            Some(slots) => {
                &&& table(slots@) == blank_table(len as int)
                &&& room_granted(*grant, len as int, slot_size as int)
            },
            None => room_refused(*grant, len as int, slot_size as int),
        },
{
    if len == 0 {
        return Some(zeroed_slots(0));
    }
    match len.checked_mul(slot_size) {
        None => None,
        Some(bytes) => if grant(bytes) {
            Some(zeroed_slots(len))
        } else {
            None
        },
    }
}

/// The table of a list whose peers have changed: a peer whose address has a
/// slot in the old table keeps its score, a new one starts from the mean.
pub fn rebuild_slots(old_slots: &Vec<EwmaSlot>, peers: &Peers, mean: Score, now: usize) -> (r: Vec<
    EwmaSlot,
>)
    ensures
        table(r@) == rebuilt(table(old_slots@), peers@, mean, now),
{
    let mut r = zeroed_slots(peers.number);
    let ghost t = table(old_slots@);
    assert(forall|j: int| 0 <= j < r@.len() ==> table(r@)[j] == (#[trigger] r@[j])@);
    let mut i: usize = 0;
    while i < peers.number && i < peers.peers.len()
        invariant
            i <= peers.number,
            i <= peers.peers@.len(),
            r@.len() == peers.number,
            t == table(old_slots@),
            forall|j: int|
                0 <= j < peers.number ==> (#[trigger] r@[j])@ == (if j < i {
                    carried(t, contents(peers.peers@[j].sockaddr), mean, now)
                } else {
                    blank()
                }),
        decreases peers.number - i,
    {
        let peer = &peers.peers[i];
        assert(r@[i as int]@ == blank());
        r[i].sockaddr = copy_contents(&peer.sockaddr);
        match find_slot_by_sockaddr(old_slots, &peer.sockaddr) {
            Some(j) => {
                assert(t[j as int] == old_slots@[j as int]@);
                r[i].ewma = old_slots[j].ewma;
                r[i].last_touched_msec = old_slots[j].last_touched_msec;
            },
            None => if mean.is_positive() {
                r[i].ewma = mean;
                r[i].last_touched_msec = now;
            },
        }
        i = i + 1;
    }
    assert(table(r@) =~= rebuilt(t, peers@, mean, now));
    r
}

} // verus!
