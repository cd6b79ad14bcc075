//! Who can be picked, and who is.
use vstd::prelude::*;

use crate::bytes::contents;
use crate::ewma::table::{
    decay_score, decayed, find_slot_by_sockaddr, slot_of, table, EwmaSlot, Sample, SlotView,
};
use crate::ewma::{AvailEntry, EwmaConfig, EwmaPeerData, EwmaPeerDataView, Host};
use crate::peer::{
    available, can_be_committed, can_commit, can_gather, clock_fits, clock_read, gather_fits,
    peer_available, Peer, PeerData, Peers,
};
use crate::score::Score;
use crate::tried::covers;

verus! {

/// The entry of the peer at position `i`.
pub open spec fn entry_of(t: Seq<SlotView>, peers: Seq<Peer>, i: int) -> AvailEntry {
    AvailEntry {
        peer_index: i as usize,
        slot: match slot_of(t, contents(peers[i].sockaddr)) {
            Some(j) => Some(j as usize),
            None => None,
        },
    }
}

/// The entries of the available peers among the first `n`, in list order.
pub open spec fn candidates(
    tried: Seq<usize>,
    peers: Seq<Peer>,
    t: Seq<SlotView>,
    n: int,
    now: i64,
) -> Seq<AvailEntry>
    decreases n,
{
    if n <= 0 {
        Seq::empty()
    } else {
        let before = candidates(tried, peers, t, n - 1, now);
        if available(tried, peers[n - 1], n - 1, now) {
            before.push(entry_of(t, peers, n - 1))
        } else {
            before
        }
    }
}

/// The candidates that a request with this room holds: the first `cap` of
/// them, or none where there is no room.
pub open spec fn offered(
    avail: Option<Seq<AvailEntry>>,
    cap: int,
    tried: Seq<usize>,
    peers: Seq<Peer>,
    t: Seq<SlotView>,
    now: i64,
) -> Seq<AvailEntry> {
    let all = candidates(tried, peers, t, peers.len() as int, now);
    if avail is None || cap == 0 {
        Seq::empty()
    } else if all.len() <= cap {
        all
    } else {
        all.take(cap)
    }
}

/// The request's data once the candidates have been gathered.
pub open spec fn gathered(
    our: EwmaPeerDataView,
    cap: int,
    tried: Seq<usize>,
    peers: Seq<Peer>,
    t: Seq<SlotView>,
    now: i64,
) -> EwmaPeerDataView {
    if our.avail is None || cap == 0 {
        our
    } else {
        EwmaPeerDataView { avail: Some(offered(our.avail, cap, tried, peers, t, now)), ..our }
    }
}

/// A peer can be picked from the list: the available ones can be told, and
/// whichever is picked can be committed.
pub open spec fn pick_fits(tried: Seq<usize>, peers: Seq<Peer>, now: i64) -> bool {
    &&& gather_fits(tried, peers, now)
    &&& forall|i: int|
        0 <= i < peers.len() && available(tried, #[trigger] peers[i], i, now) ==> can_commit(
            peers[i],
            now,
        )
}

/// The second of two distinct positions below `count`, from a draw below
/// `count - 1`: positions from the first one on move up by one.
pub open spec fn other_position(i: int, draw: int) -> int {
    if draw >= i {
        draw + 1
    } else {
        draw
    }
}

/// The two positions below `count` that two random numbers stand for.
pub open spec fn sampled(r1: usize, r2: usize, count: int) -> (int, int) {
    let i = r1 as int % count;
    (i, other_position(i, r2 as int % (count - 1)))
}

/// The slot that an entry names.
pub open spec fn slot_at(t: Seq<SlotView>, slot: Option<usize>) -> Option<SlotView> {
    match slot {
        Some(j) => if j < t.len() {
            Some(t[j as int])
        } else {
            None
        },
        None => None,
    }
}

/// The lower of two scores wins, the first where neither is lower.
pub open spec fn better(
    a: AvailEntry,
    score_a: Score,
    b: AvailEntry,
    score_b: Score,
) -> (AvailEntry, Score) {
    if score_a.le(score_b) {
        (a, score_a)
    } else {
        (b, score_b)
    }
}

/// The entry and score that two random numbers and two decayed scores lead to.
pub open spec fn sampled_pick<D: Fn(Score, usize) -> Score>(
    decay: D,
    cands: Seq<AvailEntry>,
    t: Seq<SlotView>,
    now: usize,
    r1: usize,
    r2: usize,
    score_a: Score,
    score_b: Score,
    pick: (AvailEntry, Score),
) -> bool {
    let (i, j) = sampled(r1, r2, cands.len() as int);
    &&& decayed(decay, slot_at(t, cands[i].slot), now, score_a)
    &&& decayed(decay, slot_at(t, cands[j].slot), now, score_b)
    &&& pick == better(cands[i], score_a, cands[j], score_b)
}

/// What power of two choices may pick, with whatever the host draws and works
/// out. A single candidate is picked without a draw.
pub open spec fn picked<D, A, G, R>(
    host: Host<D, A, G, R>,
    cands: Seq<AvailEntry>,
    t: Seq<SlotView>,
    now: usize,
    pick: (AvailEntry, Score),
) -> bool where
    D: Fn(Score, usize) -> Score,
    A: Fn(Vec<Sample>) -> Score,
    G: Fn(usize) -> bool,
    R: Fn() -> usize,
 {
    if cands.len() == 1 {
        pick.0 == cands[0] && decayed(host.decay, slot_at(t, cands[0].slot), now, pick.1)
    } else {
        exists|r1: usize, r2: usize, score_a: Score, score_b: Score|
            {
                &&& call_ensures(host.random, (), r1)
                &&& call_ensures(host.random, (), r2)
                &&& #[trigger] sampled_pick(
                    host.decay,
                    cands,
                    t,
                    now,
                    r1,
                    r2,
                    score_a,
                    score_b,
                    pick,
                )
            }
    }
}

/// The candidates of a longer stretch of the list start with those of a
/// shorter one.
proof fn lemma_candidates_prefix(
    tried: Seq<usize>,
    peers: Seq<Peer>,
    t: Seq<SlotView>,
    m: int,
    n: int,
    now: i64,
)
    requires
        0 <= m <= n,
    ensures
        candidates(tried, peers, t, m, now).len() <= candidates(tried, peers, t, n, now).len(),
        candidates(tried, peers, t, n, now).take(
            candidates(tried, peers, t, m, now).len() as int,
        ) == candidates(tried, peers, t, m, now),
    decreases n - m,
{
    let short = candidates(tried, peers, t, m, now);
    if m < n {
        lemma_candidates_prefix(tried, peers, t, m, n - 1, now);
        let before = candidates(tried, peers, t, n - 1, now);
        let all = candidates(tried, peers, t, n, now);
        assert(all.take(short.len() as int) =~= before.take(short.len() as int));
    } else {
        assert(short.take(short.len() as int) =~= short);
    }
}

/// Every candidate stands for an available peer, and names the slot that its
/// address finds.
pub proof fn lemma_candidates(
    tried: Seq<usize>,
    peers: Seq<Peer>,
    t: Seq<SlotView>,
    n: int,
    now: i64,
    c: int,
)
    requires
        0 <= n <= peers.len() <= usize::MAX,
        0 <= c < candidates(tried, peers, t, n, now).len(),
    ensures
        ({
            let e = candidates(tried, peers, t, n, now)[c];
            let i = e.peer_index as int;
            &&& 0 <= i < n
            &&& available(tried, peers[i], i, now)
            &&& e == entry_of(t, peers, i)
        }),
    decreases n,
{
    if n > 0 {
        let before = candidates(tried, peers, t, n - 1, now);
        if c < before.len() {
            lemma_candidates(tried, peers, t, n - 1, now, c);
        }
    }
}

/// There is a candidate exactly when a peer is available.
pub proof fn lemma_candidates_empty(
    tried: Seq<usize>,
    peers: Seq<Peer>,
    t: Seq<SlotView>,
    n: int,
    now: i64,
)
    requires
        0 <= n <= peers.len(),
    ensures
        candidates(tried, peers, t, n, now).len() == 0 <==> forall|i: int|
            0 <= i < n ==> !available(tried, #[trigger] peers[i], i, now),
    decreases n,
{
    if n > 0 {
        lemma_candidates_empty(tried, peers, t, n - 1, now);
        if available(tried, peers[n - 1], n - 1, now) {
        } else {
            assert(candidates(tried, peers, t, n, now) == candidates(tried, peers, t, n - 1, now));
        }
    }
}

/// The table of the primary or of the backup list.
pub fn slots_for(cfg: &EwmaConfig, is_backup: bool) -> (r: &Vec<EwmaSlot>)
    ensures
        table(r@) == cfg@.of(is_backup),
{
    if is_backup {
        &cfg.backup_slots
    } else {
        &cfg.primary_slots
    }
}

/// How many candidates a request can hold.
pub fn avail_cap(cfg: &EwmaConfig) -> (r: usize)
    ensures
        r == cfg@.cap(),
{
    let a: usize = cfg.primary_slots.len();
    let b: usize = cfg.backup_slots.len();
    if a >= b {
        a
    } else {
        b
    }
}

/// Whether a peer can be picked from the list.
pub fn can_pick(rrp: &PeerData, peers: &Peers, now: i64) -> (r: bool)
    ensures
        r == pick_fits(rrp.tried@, peers.peers@, now),
{
    if !can_gather(rrp, peers, now) {
        return false;
    }
    let n: usize = peers.peers.len();
    let ghost tried = rrp.tried@;
    let ghost list = peers.peers@;
    let mut i: usize = 0;
    while i < n
        invariant
            i <= n,
            n == list.len(),
            tried == rrp.tried@,
            list == peers.peers@,
            gather_fits(tried, list, now),
            forall|j: int|
                0 <= j < i && available(tried, #[trigger] list[j], j, now) ==> can_commit(
                    list[j],
                    now,
                ),
        decreases n - i,
    {
        let peer = &peers.peers[i];
        assert(covers(tried, i + 1));
        assert(clock_read(tried, list[i as int], i as int) ==> clock_fits(*peer, now));
        if peer_available(rrp, peer, i, now) && !can_be_committed(peer, now) {
            return false;
        }
        i = i + 1;
    }
    true
}

/// Gather every available peer of the list, with its slot, and say how many
/// there are.
pub fn collect_available(
    rrp: &PeerData,
    peers: &Peers,
    now: i64,
    our: &mut EwmaPeerData,
    cfg: &EwmaConfig,
    is_backup: bool,
) -> (r: usize)
    requires
        gather_fits(rrp.tried@, peers.peers@, now),
    ensures
        r == offered(
            old(our)@.avail,
            cfg@.cap(),
            rrp.tried@,
            peers.peers@,
            cfg@.of(is_backup),
            now,
        ).len(),
        final(our)@ == gathered(
            old(our)@,
            cfg@.cap(),
            rrp.tried@,
            peers.peers@,
            cfg@.of(is_backup),
            now,
        ),
{
    let cap: usize = avail_cap(cfg);
    if our.avail_buf.is_none() || cap == 0 {
        return 0;
    }
    let slots = slots_for(cfg, is_backup);
    let ghost t = cfg@.of(is_backup);
    let ghost tried = rrp.tried@;
    let ghost list = peers.peers@;
    let mut buf: Vec<AvailEntry> = Vec::new();
    let n: usize = peers.peers.len();
    let mut index: usize = 0;
    while index < n && buf.len() < cap
        invariant
            index <= n,
            n == list.len(),
            list == peers.peers@,
            tried == rrp.tried@,
            t == table(slots@),
            gather_fits(tried, list, now),
            buf@ == candidates(tried, list, t, index as int, now),
            buf@.len() <= cap,
        decreases n - index,
    {
        let peer = &peers.peers[index];
        assert(clock_read(tried, list[index as int], index as int) ==> clock_fits(*peer, now));
        assert(covers(tried, index + 1));
        if peer_available(rrp, peer, index, now) {
            let slot = find_slot_by_sockaddr(slots, &peer.sockaddr);
            buf.push(AvailEntry { peer_index: index, slot });
        }
        index = index + 1;
    }
    proof {
        lemma_candidates_prefix(tried, list, t, index as int, n as int, now);
        let all = candidates(tried, list, t, n as int, now);
        assert(all.take(all.len() as int) =~= all);
    }
    let count: usize = buf.len();
    our.avail_buf = Some(buf);
    count
}

/// Two distinct positions below `count`, from two random numbers.
pub fn sample_two(r1: usize, r2: usize, count: usize) -> (r: (usize, usize))
    requires
        count >= 2,
    ensures
        (r.0 as int, r.1 as int) == sampled(r1, r2, count as int),
        r.0 < count,
        r.1 < count,
        r.0 != r.1,
{
    let i: usize = r1 % count;
    let mut j: usize = r2 % (count - 1);
    if j >= i {
        j = j + 1;
    }
    (i, j)
}

/// The entry with the lower score, and that score. Ties go to the first.
pub fn choose_better(a: AvailEntry, score_a: Score, b: AvailEntry, score_b: Score) -> (r: (
    AvailEntry,
    Score,
))
    ensures
        r == better(a, score_a, b, score_b),
{
    if score_a.at_most(score_b) {
        (a, score_a)
    } else {
        (b, score_b)
    }
}

/// The decayed score of the slot that an entry names.
fn entry_score<D: Fn(Score, usize) -> Score>(
    slots: &Vec<EwmaSlot>,
    entry: AvailEntry,
    now: usize,
    decay: &D,
) -> (r: Score)
    requires
        forall|e: Score, t: usize| call_requires(*decay, (e, t)),
    ensures
        decayed(*decay, slot_at(table(slots@), entry.slot), now, r),
{
    match entry.slot {
        Some(j) => if j < slots.len() {
            decay_score(Some(&slots[j]), now, decay)
        } else {
            decay_score(None, now, decay)
        },
        None => decay_score(None, now, decay),
    }
}

/// Look at the two candidates that two draws stand for, and pick the one whose
/// decayed score is lower.
pub fn pick_of_draws<D: Fn(Score, usize) -> Score>(
    buf: &Vec<AvailEntry>,
    slots: &Vec<EwmaSlot>,
    now: usize,
    r1: usize,
    r2: usize,
    decay: &D,
) -> (r: (AvailEntry, Score))
    requires
        buf@.len() >= 2,
        forall|e: Score, t: usize| call_requires(*decay, (e, t)),
    ensures
        exists|score_a: Score, score_b: Score| #[trigger]
            sampled_pick(*decay, buf@, table(slots@), now, r1, r2, score_a, score_b, r),
        buf@.contains(r.0),
{
    let (i, j) = sample_two(r1, r2, buf.len());
    let a = buf[i];
    let b = buf[j];
    let score_a = entry_score(slots, a, now, decay);
    let score_b = entry_score(slots, b, now, decay);
    let pick = choose_better(a, score_a, b, score_b);
    assert(sampled_pick(*decay, buf@, table(slots@), now, r1, r2, score_a, score_b, pick));
    pick
}

/// Look at two random candidates and pick the one whose decayed score is
/// lower.
pub fn p2c_pick<D, A, G, R>(
    buf: &Vec<AvailEntry>,
    slots: &Vec<EwmaSlot>,
    now: usize,
    host: &Host<D, A, G, R>,
) -> (r: (AvailEntry, Score)) where
    D: Fn(Score, usize) -> Score,
    A: Fn(Vec<Sample>) -> Score,
    G: Fn(usize) -> bool,
    R: Fn() -> usize,

    requires
        buf@.len() >= 2,
        host.ready(),
    ensures
        picked(*host, buf@, table(slots@), now, r),
        buf@.contains(r.0),
{
    let r1: usize = (host.random)();
    let r2: usize = (host.random)();
    pick_of_draws(buf, slots, now, r1, r2, &host.decay)
}

/// Pick one of the candidates, with its decayed score.
pub fn pick_one<D, A, G, R>(
    buf: &Vec<AvailEntry>,
    slots: &Vec<EwmaSlot>,
    now: usize,
    host: &Host<D, A, G, R>,
) -> (r: (AvailEntry, Score)) where
    D: Fn(Score, usize) -> Score,
    A: Fn(Vec<Sample>) -> Score,
    G: Fn(usize) -> bool,
    R: Fn() -> usize,

    requires
        buf@.len() >= 1,
        host.ready(),
    ensures
        picked(*host, buf@, table(slots@), now, r),
        buf@.contains(r.0),
{
    if buf.len() == 1 {
        let entry = buf[0];
        let score = entry_score(slots, entry, now, &host.decay);
        assert(buf@[0] == entry);
        (entry, score)
    } else {
        p2c_pick(buf, slots, now, host)
    }
}

} // verus!
