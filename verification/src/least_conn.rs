//! The `least_conn` policy.
//!
//! Selection rule: pick the available peer that minimizes `conns / weight`.
//! Ratios are compared by cross-products (`a.conns * b.weight <
//! b.conns * a.weight`), so nothing is divided. Among peers of equal ratio a
//! round of weighted round-robin decides.
use vstd::prelude::*;

use crate::bytes::{contents, copy_contents};
use crate::peer::{
    available, busy_with_primary_name, can_be_committed, can_commit, can_gather,
    clear_cached_connection, clock_fits, clock_read, committed, config_mismatch, gather_fits,
    headed_for, mismatched, moved_to, named, next_of, peer_available, peers_single, select_peer,
    settled_on, switch_peers_and_clear_tried, uncached, views, GetStatus, ListStep, NextList, Peer,
    PeerConnection, PeerConnectionView, PeerData, PeerDataView, PeerPos, Peers, PeersView,
};
use crate::policy::{BalancingPolicy, UpstreamInit};
use crate::tried::{covers, words_for, words_needed};

pub mod laws;
pub mod rounds;

verus! {

/// The policy that picks the peer with the fewest connections, weighted.
#[derive(Clone, Copy, Debug, PartialEq, Eq, Structural)]
pub struct LeastConn;

impl BalancingPolicy for LeastConn {
    fn init_upstream() -> (r: UpstreamInit)
        ensures
            r == UpstreamInit::LeastConn,
    {
        UpstreamInit::LeastConn
    }
}

impl Default for LeastConn {
    /// The policy itself.
    fn default() -> (r: Self)
        ensures
            r == LeastConn,
    {
        LeastConn
    }
}

/// What the selection rule reads of a peer.
#[derive(Clone, Copy, Debug, PartialEq, Eq, Structural)]
pub struct PeerLoad {
    pub conns: usize,
    pub weight: isize,
}

impl PeerLoad {
    /// The load of `peer`.
    pub fn from_peer(peer: &Peer) -> (r: Self)
        ensures
            r == load_of(*peer),
    {
        PeerLoad { conns: peer.conns, weight: peer.weight }
    }
}

impl Default for PeerLoad {
    /// No load, and no weight.
    fn default() -> (r: Self)
        ensures
            r == (PeerLoad { conns: 0, weight: 0 }),
    {
        PeerLoad { conns: 0, weight: 0 }
    }
}

/// How two ratios compare.
#[derive(Clone, Copy, Debug, PartialEq, Eq, Structural)]
pub enum RatioOrder {
    Less,
    Equal,
    Greater,
}

/// How the choice from one list ends.
#[derive(Clone, Copy, Debug, PartialEq, Eq, Structural)]
pub enum Selection {
    Selected,
    TryBackup,
}

/// The load of a peer.
pub open spec fn load_of(p: Peer) -> PeerLoad {
    PeerLoad { conns: p.conns, weight: p.weight }
}

/// `a.conns / a.weight` is below `b.conns / b.weight`.
pub open spec fn lighter(a: PeerLoad, b: PeerLoad) -> bool {
    a.conns * b.weight < b.conns * a.weight
}

/// `a.conns / a.weight` equals `b.conns / b.weight`.
pub open spec fn balanced(a: PeerLoad, b: PeerLoad) -> bool {
    a.conns * b.weight == b.conns * a.weight
}

/// The lightest of the first `n` peers that are available, the earliest where
/// several are, and whether there are several.
pub open spec fn lightest(tried: Seq<usize>, peers: Seq<Peer>, n: int, now: i64) -> (
    Option<int>,
    bool,
)
    decreases n,
{
    if n <= 0 {
        (None, false)
    } else {
        let i = n - 1;
        let before = lightest(tried, peers, i, now);
        if !available(tried, peers[i], i, now) {
            before
        } else {
            match before.0 {
                None => (Some(i), false),
                Some(b) => if lighter(load_of(peers[i]), load_of(peers[b])) {
                    (Some(i), false)
                } else if balanced(load_of(peers[i]), load_of(peers[b])) {
                    (Some(b), true)
                } else {
                    before
                },
            }
        }
    }
}

/// The peer at `i` takes part in the round that decides among the peers as
/// light as the one at `b`.
pub open spec fn ties(tried: Seq<usize>, peers: Seq<Peer>, b: int, i: int, now: i64) -> bool {
    &&& b <= i < peers.len()
    &&& available(tried, peers[i], i, now)
    &&& balanced(load_of(peers[i]), load_of(peers[b]))
}

/// What a peer stands at once a round has given it its share.
pub open spec fn credit(p: Peer) -> int {
    p.current_weight + p.effective_weight
}

/// A peer that took part in a round: it has its share, and its effective
/// weight is one step nearer to the configured one.
pub open spec fn bumped(p: Peer) -> Peer {
    Peer {
        current_weight: credit(p) as isize,
        effective_weight: if p.effective_weight < p.weight {
            (p.effective_weight + 1) as isize
        } else {
            p.effective_weight
        },
        ..p
    }
}

/// All that a round hands out to the peers before position `n`.
pub open spec fn handed_out(
    tried: Seq<usize>,
    peers: Seq<Peer>,
    b: int,
    n: int,
    now: i64,
) -> int
    decreases n - b,
{
    if n <= b {
        0
    } else {
        handed_out(tried, peers, b, n - 1, now) + if ties(tried, peers, b, n - 1, now) {
            peers[n - 1].effective_weight as int
        } else {
            0
        }
    }
}

/// The peer before position `n` with the highest credit in a round, the
/// earliest where several have it.
pub open spec fn leader(tried: Seq<usize>, peers: Seq<Peer>, b: int, n: int, now: i64) -> int
    decreases n - b,
{
    if n <= b + 1 {
        b
    } else {
        let l = leader(tried, peers, b, n - 1, now);
        if ties(tried, peers, b, n - 1, now) && credit(peers[n - 1]) > credit(peers[l]) {
            n - 1
        } else {
            l
        }
    }
}

/// The list after a round: every participant has had its share, and the leader
/// has paid for all of them.
pub open spec fn after_round(tried: Seq<usize>, peers: Seq<Peer>, b: int, now: i64) -> Seq<Peer> {
    let n = peers.len() as int;
    let k = leader(tried, peers, b, n, now);
    Seq::new(
        peers.len(),
        |i: int|
            if ties(tried, peers, b, i, now) {
                let p = bumped(peers[i]);
                if i == k {
                    Peer {
                        current_weight: (credit(peers[i]) - handed_out(tried, peers, b, n, now)) as isize,
                        ..p
                    }
                } else {
                    p
                }
            } else {
                peers[i]
            },
    )
}

/// The peer that the policy picks from a list.
pub open spec fn choice(tried: Seq<usize>, peers: Seq<Peer>, now: i64) -> Option<int> {
    let n = peers.len() as int;
    match lightest(tried, peers, n, now) {
        (None, _) => None,
        (Some(b), many) => Some(
            if many {
                leader(tried, peers, b, n, now)
            } else {
                b
            },
        ),
    }
}

/// The list once the weights have decided, before the choice is committed.
pub open spec fn weighed(tried: Seq<usize>, peers: Seq<Peer>, now: i64) -> Seq<Peer> {
    match lightest(tried, peers, peers.len() as int, now) {
        (Some(b), true) => after_round(tried, peers, b, now),
        _ => peers,
    }
}

/// The list once the peer at `k` has been picked and committed.
pub open spec fn after_choice(tried: Seq<usize>, peers: Seq<Peer>, k: int, now: i64) -> Seq<Peer> {
    let w = weighed(tried, peers, now);
    w.update(k, committed(w[k], now))
}

/// The sums of a round stay within the host's integers.
pub open spec fn round_fits(tried: Seq<usize>, peers: Seq<Peer>, b: int, now: i64) -> bool {
    let n = peers.len() as int;
    let k = leader(tried, peers, b, n, now);
    &&& forall|i: int| #[trigger]
        ties(tried, peers, b, i, now) ==> isize::MIN <= credit(peers[i]) <= isize::MAX
    &&& forall|m: int|
        b <= m <= n ==> isize::MIN <= #[trigger] handed_out(tried, peers, b, m, now) <= isize::MAX
    &&& isize::MIN <= credit(peers[k]) - handed_out(tried, peers, b, n, now) <= isize::MAX
}

/// A choice from the list can be worked out and committed: the bitmap is long
/// enough, and no number that is needed leaves the host's integers.
pub open spec fn choice_fits(tried: Seq<usize>, peers: Seq<Peer>, now: i64) -> bool {
    &&& gather_fits(tried, peers, now)
    &&& choice(tried, peers, now) matches Some(k) ==> can_commit(peers[k], now)
    &&& lightest(tried, peers, peers.len() as int, now) matches (Some(b), true) ==> round_fits(
        tried,
        peers,
        b,
        now,
    )
}

/// Every configured weight is at least one.
pub open spec fn weights_positive(peers: Seq<Peer>) -> bool {
    forall|i: int| 0 <= i < peers.len() ==> (#[trigger] peers[i]).weight > 0
}

/// One side of a comparison of ratios.
fn cross(conns: usize, weight: isize) -> (r: i128)
    ensures
        r == conns * weight,
{
    proof {
        let c = conns as int;
        let w = weight as int;
        assert(-0x8000_0000_0000_0000 * 0x1_0000_0000_0000_0000 <= c * w <= 0x8000_0000_0000_0000
            * 0x1_0000_0000_0000_0000) by (nonlinear_arith)
            requires
                0 <= c <= 0x1_0000_0000_0000_0000 - 1,
                -0x8000_0000_0000_0000 <= w <= 0x7fff_ffff_ffff_ffff,
        ;
        assert(c * w < 0x8000_0000_0000_0000 * 0x1_0000_0000_0000_0000) by (nonlinear_arith)
            requires
                0 <= c <= 0x1_0000_0000_0000_0000 - 1,
                -0x8000_0000_0000_0000 <= w <= 0x7fff_ffff_ffff_ffff,
        ;
    }
    (conns as i128) * (weight as i128)
}

/// Order `peer.conns / peer.weight` against `other.conns / other.weight`.
pub fn compare_ratio(peer: PeerLoad, other: PeerLoad) -> (r: RatioOrder)
    ensures
        r == (if lighter(peer, other) {
            RatioOrder::Less
        } else if balanced(peer, other) {
            RatioOrder::Equal
        } else {
            RatioOrder::Greater
        }),
{
    let lhs: i128 = cross(peer.conns, other.weight);
    let rhs: i128 = cross(other.conns, peer.weight);
    if lhs < rhs {
        RatioOrder::Less
    } else if lhs == rhs {
        RatioOrder::Equal
    } else {
        RatioOrder::Greater
    }
}

proof fn lemma_lightest_bounds(tried: Seq<usize>, peers: Seq<Peer>, n: int, now: i64)
    requires
        0 <= n <= peers.len(),
    ensures
        lightest(tried, peers, n, now).0 matches Some(b) ==> 0 <= b < n && available(
            tried,
            peers[b],
            b,
            now,
        ),
        lightest(tried, peers, n, now).0 is None <==> forall|i: int|
            0 <= i < n ==> !available(tried, #[trigger] peers[i], i, now),
        lightest(tried, peers, n, now).0 is None ==> !lightest(tried, peers, n, now).1,
    decreases n,
{
    if n > 0 {
        lemma_lightest_bounds(tried, peers, n - 1, now);
        if lightest(tried, peers, n, now).0 is None {
            assert forall|i: int| 0 <= i < n implies !available(
                tried,
                #[trigger] peers[i],
                i,
                now,
            ) by {
                if i < n - 1 {
                    assert(!available(tried, peers[i], i, now));
                }
            }
        } else {
            if available(tried, peers[n - 1], n - 1, now) {
            } else {
                let b = lightest(tried, peers, n, now).0->0;
                assert(available(tried, peers[b], b, now));
            }
        }
    }
}

proof fn lemma_leader_bounds(tried: Seq<usize>, peers: Seq<Peer>, b: int, n: int, now: i64)
    requires
        b < n <= peers.len(),
        ties(tried, peers, b, b, now),
    ensures
        b <= leader(tried, peers, b, n, now) < n,
        ties(tried, peers, b, leader(tried, peers, b, n, now), now),
    decreases n - b,
{
    if n > b + 1 {
        lemma_leader_bounds(tried, peers, b, n - 1, now);
    }
}

/// Find the lightest of the available peers, the earliest where several are,
/// and whether there are several.
fn find_lightest(rrp: &PeerData, peers: &Peers, now: i64) -> (r: (Option<usize>, bool))
    requires
        gather_fits(rrp.tried@, peers.peers@, now),
    ensures
        r.1 == lightest(rrp.tried@, peers.peers@, peers.peers@.len() as int, now).1,
        match r.0 {
            None => lightest(rrp.tried@, peers.peers@, peers.peers@.len() as int, now).0 is None,
            Some(b) => {
                &&& b < peers.peers@.len()
                &&& lightest(rrp.tried@, peers.peers@, peers.peers@.len() as int, now).0 == Some(
                    b as int,
                )
            },
        },
{
    let ghost tried = rrp.tried@;
    let ghost list = peers.peers@;
    let n: usize = peers.peers.len();
    let mut best: Option<usize> = None;
    let mut best_load = PeerLoad::default();
    let mut many = false;
    let mut index: usize = 0;
    while index < n
        invariant
            index <= n,
            n == list.len(),
            tried == rrp.tried@,
            list == peers.peers@,
            gather_fits(tried, list, now),
            many == lightest(tried, list, index as int, now).1,
            match best {
                None => lightest(tried, list, index as int, now).0 is None,
                Some(b) => {
                    &&& lightest(tried, list, index as int, now).0 == Some(b as int)
                    &&& b < index
                    &&& best_load == load_of(list[b as int])
                },
            },
        decreases n - index,
    {
        let peer = &peers.peers[index];
        assert(clock_read(tried, list[index as int], index as int) ==> clock_fits(*peer, now));
        assert(covers(tried, index + 1));
        if peer_available(rrp, peer, index, now) {
            let load = PeerLoad::from_peer(peer);
            match best {
                None => {
                    best = Some(index);
                    best_load = load;
                    many = false;
                },
                Some(_) => match compare_ratio(load, best_load) {
                    RatioOrder::Less => {
                        best = Some(index);
                        best_load = load;
                        many = false;
                    },
                    RatioOrder::Equal => {
                        many = true;
                    },
                    RatioOrder::Greater => {},
                },
            }
        }
        index = index + 1;
    }
    (best, many)
}

/// Whether a sum stays within the host's integers.
fn fits_isize(sum: i128) -> (r: bool)
    ensures
        r == (isize::MIN <= sum <= isize::MAX),
{
    isize::MIN as i128 <= sum && sum <= isize::MAX as i128
}

/// Whether a choice from the list can be worked out and committed.
pub fn can_choose(rrp: &PeerData, peers: &Peers, now: i64) -> (r: bool)
    ensures
        r == choice_fits(rrp.tried@, peers.peers@, now),
{
    if !can_gather(rrp, peers, now) {
        return false;
    }
    let ghost tried = rrp.tried@;
    let ghost list = peers.peers@;
    let n: usize = peers.peers.len();
    let (best, many) = find_lightest(rrp, peers, now);
    proof {
        lemma_lightest_bounds(tried, list, n as int, now);
    }
    let first = match best {
        None => {
            return true;
        },
        Some(b) => b,
    };
    let ghost b = first as int;
    if !many {
        return can_be_committed(&peers.peers[first], now);
    }
    assert(ties(tried, list, b, b, now));
    let best_load = PeerLoad::from_peer(&peers.peers[first]);
    let mut total: i128 = 0;
    let mut chosen: usize = first;
    let mut best_credit: i128 = 0;
    let mut index: usize = first;
    while index < n
        invariant
            first <= index <= n,
            n == list.len(),
            b == first as int,
            tried == rrp.tried@,
            list == peers.peers@,
            gather_fits(tried, list, now),
            lightest(tried, list, n as int, now) == (Some(b), true),
            ties(tried, list, b, b, now),
            best_load == load_of(list[b]),
            total == handed_out(tried, list, b, index as int, now),
            chosen == leader(tried, list, b, index as int, now),
            index > first ==> chosen < index && best_credit == credit(list[chosen as int]),
            index == first ==> chosen == first,
            forall|i: int|
                i < index && #[trigger] ties(tried, list, b, i, now) ==> isize::MIN <= credit(
                    list[i],
                ) <= isize::MAX,
            forall|m: int|
                b <= m <= index ==> isize::MIN <= #[trigger] handed_out(tried, list, b, m, now)
                    <= isize::MAX,
        decreases n - index,
    {
        let ghost i = index as int;
        let peer = &peers.peers[index];
        assert(clock_read(tried, list[i], i) ==> clock_fits(list[i], now));
        assert(covers(tried, index + 1));
        assert(isize::MIN <= handed_out(tried, list, b, i, now) <= isize::MAX);
        let taking_part = peer_available(rrp, peer, index, now) && matches!(
            compare_ratio(PeerLoad::from_peer(peer), best_load),
            RatioOrder::Equal
        );
        assert(taking_part == ties(tried, list, b, i, now));
        if taking_part {
            let stands_at: i128 = peer.current_weight as i128 + peer.effective_weight as i128;
            total = total + peer.effective_weight as i128;
            assert(total == handed_out(tried, list, b, i + 1, now));
            if !fits_isize(stands_at) || !fits_isize(total) {
                return false;
            }
            if index == chosen {
                best_credit = stands_at;
            } else if stands_at > best_credit {
                chosen = index;
                best_credit = stands_at;
            }
        }
        index = index + 1;
    }
    proof {
        lemma_leader_bounds(tried, list, b, n as int, now);
    }
    fits_isize(best_credit - total) && can_be_committed(&peers.peers[chosen], now)
}

/// Pick a peer from one list and commit the choice, or find that none is
/// available. `list` is the host's number for the list.
pub fn select_least_conn(
    pc: &mut PeerConnection,
    rrp: &mut PeerData,
    peers: &mut Peers,
    list: usize,
    now: i64,
) -> (r: Selection)
    requires
        choice_fits(old(rrp).tried@, old(peers).peers@, now),
    ensures
        match choice(old(rrp).tried@, old(peers).peers@, now) {
            None => {
                &&& r == Selection::TryBackup
                &&& final(pc)@ == old(pc)@
                &&& final(rrp)@ == old(rrp)@
                &&& final(peers)@ == old(peers)@
            },
            Some(k) => {
                &&& r == Selection::Selected
                &&& 0 <= k < old(peers).peers@.len()
                &&& final(pc)@ == headed_for(old(pc)@, old(peers).peers@[k])
                &&& final(rrp)@ == settled_on(
                    old(rrp)@,
                    PeerPos { list, index: k as usize },
                )
                &&& final(peers)@ == old(peers)@.holding(
                    after_choice(old(rrp).tried@, old(peers).peers@, k, now),
                )
            },
        },
{
    let ghost tried = rrp.tried@;
    let ghost before = peers.peers@;
    let n: usize = peers.peers.len();

    let (best, many) = find_lightest(rrp, peers, now);
    proof {
        lemma_lightest_bounds(tried, before, n as int, now);
    }

    let first = match best {
        None => {
            return Selection::TryBackup;
        },
        Some(b) => b,
    };
    let ghost b = first as int;
    let mut chosen: usize = first;

    if many {
        let best_load = PeerLoad::from_peer(&peers.peers[first]);
        proof {
            assert(ties(tried, before, b, b, now));
            assert(round_fits(tried, before, b, now));
        }
        let mut total: isize = 0;
        let mut best_current_weight: isize = isize::MIN;
        let mut index: usize = first;
        while index < n
            invariant
                first <= index <= n,
                n == before.len(),
                b == first as int,
                peers.peers@.len() == n,
                peers@ == old(peers)@.holding(peers.peers@),
                rrp@ == old(rrp)@,
                rrp.tried@ == tried,
                pc@ == old(pc)@,
                choice_fits(tried, before, now),
                round_fits(tried, before, b, now),
                ties(tried, before, b, b, now),
                best_load == load_of(before[b]),
                forall|i: int|
                    0 <= i < n ==> #[trigger] peers.peers@[i] == (if i < index && ties(
                        tried,
                        before,
                        b,
                        i,
                        now,
                    ) {
                        bumped(before[i])
                    } else {
                        before[i]
                    }),
                total == handed_out(tried, before, b, index as int, now),
                chosen == leader(tried, before, b, index as int, now),
                index > first ==> chosen < index && best_current_weight == credit(
                    before[chosen as int],
                ),
                index == first ==> chosen == first,
            decreases n - index,
        {
            let ghost i = index as int;
            assert(peers.peers@[i] == before[i]);
            assert(clock_read(tried, before[i], i) ==> clock_fits(before[i], now));
            assert(covers(tried, index + 1));
            let taking_part = peer_available(rrp, &peers.peers[index], index, now) && matches!(
                compare_ratio(PeerLoad::from_peer(&peers.peers[index]), best_load),
                RatioOrder::Equal
            );
            assert(taking_part == ties(tried, before, b, i, now));
            if taking_part {
                proof {
                    assert(isize::MIN <= handed_out(tried, before, b, i + 1, now) <= isize::MAX);
                }
                let peer = &mut peers.peers[index];
                peer.current_weight = peer.current_weight + peer.effective_weight;
                total = total + peer.effective_weight;
                if peer.effective_weight < peer.weight {
                    peer.effective_weight = peer.effective_weight + 1;
                }
                if index == chosen {
                    best_current_weight = peer.current_weight;
                } else if peer.current_weight > best_current_weight {
                    chosen = index;
                    best_current_weight = peer.current_weight;
                }
            }
            index = index + 1;
        }
        proof {
            lemma_leader_bounds(tried, before, b, n as int, now);
            assert(peers.peers@[chosen as int] == bumped(before[chosen as int]));
        }
        peers.peers[chosen].current_weight = peers.peers[chosen].current_weight - total;
        assert(peers.peers@ =~= after_round(tried, before, b, now));
    }
    assert(peers.peers@ == weighed(tried, before, now));
    select_peer(pc, rrp, &mut peers.peers[chosen], PeerPos { list, index: chosen }, now);
    assert(peers.peers@ =~= after_choice(tried, before, chosen as int, now));
    Selection::Selected
}

/// The attempt on a list can be worked out.
pub open spec fn step_fits(
    rrp: PeerDataView,
    list: PeersView,
    next: Option<NextList>,
    now: i64,
) -> bool {
    mismatched(rrp.config, list.config) || {
        &&& choice_fits(rrp.tried, list.peers, now)
        &&& choice(rrp.tried, list.peers, now) is None && next is Some ==> words_for(
            next->0.number as int,
        ) <= rrp.tried.len()
    }
}

/// Whether the attempt on a list can be worked out.
pub fn can_try(rrp: &PeerData, peers: &Peers, next: Option<NextList>, now: i64) -> (r: bool)
    ensures
        r == step_fits(rrp@, peers@, next, now),
{
    if config_mismatch(rrp, peers) {
        return true;
    }
    if !can_choose(rrp, peers, now) {
        return false;
    }
    match next {
        None => true,
        Some(n) => words_needed(n.number) <= rrp.tried.len() || find_lightest(
            rrp,
            peers,
            now,
        ).0.is_some(),
    }
}

/// The attempt on one list, for a host that locks each list on its own: give
/// up on a list of another generation, else choose from it, else move on to
/// `next`, else give up. `list` is the host's number for the list, and
/// `primary_name` the name of the list that the call started on.
pub fn try_list(
    pc: &mut PeerConnection,
    rrp: &mut PeerData,
    peers: &mut Peers,
    list: usize,
    next: Option<NextList>,
    primary_name: &Option<Vec<u8>>,
    now: i64,
) -> (r: ListStep)
    requires
        step_fits(old(rrp)@, old(peers)@, next, now),
    ensures
        if mismatched(old(rrp).config, old(peers).config) {
            &&& r == ListStep::Busy
            &&& final(pc)@ == named(old(pc)@, contents(*primary_name))
            &&& final(rrp)@ == old(rrp)@
            &&& final(peers)@ == old(peers)@
        } else {
            match choice(old(rrp).tried@, old(peers).peers@, now) {
                Some(k) => {
                    &&& r == ListStep::Selected
                    &&& 0 <= k < old(peers).peers@.len()
                    &&& final(pc)@ == headed_for(old(pc)@, old(peers).peers@[k])
                    &&& final(rrp)@ == settled_on(
                        old(rrp)@,
                        PeerPos { list, index: k as usize },
                    )
                    &&& final(peers)@ == old(peers)@.holding(
                        after_choice(old(rrp).tried@, old(peers).peers@, k, now),
                    )
                },
                None => {
                    &&& final(peers)@ == old(peers)@
                    &&& match next {
                        Some(n) => {
                            &&& r == ListStep::Backup
                            &&& final(pc)@ == old(pc)@
                            &&& final(rrp)@ == moved_to(old(rrp)@, n)
                        },
                        None => {
                            &&& r == ListStep::Busy
                            &&& final(pc)@ == named(old(pc)@, contents(*primary_name))
                            &&& final(rrp)@ == old(rrp)@
                        },
                    }
                },
            }
        },
{
    if config_mismatch(rrp, peers) {
        let _ = busy_with_primary_name(pc, Some(primary_name));
        return ListStep::Busy;
    }
    match select_least_conn(pc, rrp, peers, list, now) {
        Selection::Selected => ListStep::Selected,
        Selection::TryBackup => match next {
            Some(n) => {
                switch_peers_and_clear_tried(rrp, n);
                ListStep::Backup
            },
            None => {
                let _ = busy_with_primary_name(pc, Some(primary_name));
                ListStep::Busy
            },
        },
    }
}

/// Where the search for a peer ends: the request's state before a choice is
/// committed, and the position of the peer in the list it is on.
#[verifier::ext_equal]
pub struct Journey {
    pub rrp: PeerDataView,
    pub taken: Option<int>,
}

/// The search for a peer from list `l` on: it ends on a list of another
/// generation, on a list with an available peer, or after the last list.
pub open spec fn journey(rrp: PeerDataView, lists: Seq<PeersView>, l: int, now: i64) -> Journey
    decreases lists.len() - l,
{
    if l < 0 || l >= lists.len() || mismatched(rrp.config, lists[l].config) {
        Journey { rrp, taken: None }
    } else {
        match choice(rrp.tried, lists[l].peers, now) {
            Some(k) => Journey { rrp, taken: Some(k) },
            None => if l + 1 < lists.len() {
                journey(moved_to(rrp, next_of(lists, l)), lists, l + 1, now)
            } else {
                Journey { rrp, taken: None }
            },
        }
    }
}

/// Every step of the search can be worked out.
pub open spec fn journey_fits(rrp: PeerDataView, lists: Seq<PeersView>, l: int, now: i64) -> bool
    decreases lists.len() - l,
{
    if l < 0 || l >= lists.len() || mismatched(rrp.config, lists[l].config) {
        true
    } else {
        &&& choice_fits(rrp.tried, lists[l].peers, now)
        &&& choice(rrp.tried, lists[l].peers, now) is None && l + 1 < lists.len() ==> {
            &&& words_for(lists[l + 1].number as int) <= rrp.tried.len()
            &&& journey_fits(moved_to(rrp, next_of(lists, l)), lists, l + 1, now)
        }
    }
}

/// What a request for a peer comes to. A single server is left to the host; else
/// the search decides, and what it finds is committed.
pub open spec fn got(
    pc: PeerConnectionView,
    rrp: PeerDataView,
    lists: Seq<PeersView>,
    now: i64,
    status: GetStatus,
    pc_after: PeerConnectionView,
    rrp_after: PeerDataView,
    lists_after: Seq<PeersView>,
) -> bool {
    match rrp.peers {
        None => {
            &&& status == GetStatus::Busy
            &&& pc_after == uncached(pc)
            &&& rrp_after == rrp
            &&& lists_after == lists
        },
        Some(l) => if lists[l as int].single {
            &&& status == GetStatus::RoundRobin
            &&& pc_after == pc
            &&& rrp_after == rrp
            &&& lists_after == lists
        } else {
            let end = journey(rrp, lists, l as int, now);
            match end.taken {
                Some(k) => {
                    let m = end.rrp.peers->0 as int;
                    let on = lists[m];
                    &&& status == GetStatus::Selected
                    &&& end.rrp.peers is Some
                    &&& l <= m < lists.len()
                    &&& 0 <= k < on.peers.len()
                    &&& pc_after == headed_for(uncached(pc), on.peers[k])
                    &&& rrp_after == settled_on(
                        end.rrp,
                        PeerPos { list: m as usize, index: k as usize },
                    )
                    &&& lists_after == lists.update(
                        m,
                        on.holding(after_choice(end.rrp.tried, on.peers, k, now)),
                    )
                },
                None => {
                    &&& status == GetStatus::Busy
                    &&& pc_after == named(uncached(pc), lists[l as int].name)
                    &&& rrp_after == end.rrp
                    &&& lists_after == lists
                },
            }
        },
    }
}

/// Find a peer for a request: the available peer with the fewest connections,
/// weighted, of the first list that has one. `lists` holds the primary list
/// and then the backup lists, each followed by the one to fall back to.
pub fn get_peer(
    pc: &mut PeerConnection,
    rrp: &mut PeerData,
    lists: &mut Vec<Peers>,
    now: i64,
) -> (r: GetStatus)
    requires
        old(rrp).peers matches Some(l) ==> {
            &&& l < old(lists)@.len()
            &&& !old(lists)@[l as int].single ==> journey_fits(
                old(rrp)@,
                views(old(lists)@),
                l as int,
                now,
            )
        },
    ensures
        got(
            old(pc)@,
            old(rrp)@,
            views(old(lists)@),
            now,
            r,
            final(pc)@,
            final(rrp)@,
            views(final(lists)@),
        ),
{
    let start = match rrp.peers {
        Some(l) => l,
        None => {
            clear_cached_connection(pc);
            return busy_with_primary_name(pc, None);
        },
    };
    if peers_single(Some(&lists[start])) {
        return GetStatus::RoundRobin;
    }
    let primary_name = copy_contents(&lists[start].name);
    clear_cached_connection(pc);

    let mut l: usize = start;
    let n: usize = lists.len();
    loop
        invariant
            start <= l < n,
            n == lists@.len(),
            rrp@.peers == Some(l),
            contents(primary_name) == views(old(lists)@)[start as int].name,
            pc@ == uncached(old(pc)@),
            views(lists@) == views(old(lists)@),
            journey_fits(rrp@, views(old(lists)@), l as int, now),
            journey(rrp@, views(old(lists)@), l as int, now) == journey(
                old(rrp)@,
                views(old(lists)@),
                start as int,
                now,
            ),
            old(rrp).peers == Some(start),
            !old(lists)@[start as int].single,
            start < old(lists)@.len(),
        decreases n - l,
    {
        let ghost seen = views(lists@);
        assert(seen[l as int] == lists@[l as int]@);
        let next = if l + 1 < n {
            assert(seen[l + 1] == lists@[l + 1]@);
            Some(NextList { list: l + 1, number: lists[l + 1].number })
        } else {
            None
        };
        let step = try_list(pc, rrp, &mut lists[l], l, next, &primary_name, now);
        match step {
            ListStep::Selected => {
                assert(views(lists@) =~= seen.update(l as int, lists@[l as int]@));
                return GetStatus::Selected;
            },
            ListStep::Busy => {
                assert(views(lists@) =~= seen);
                return GetStatus::Busy;
            },
            ListStep::Backup => {
                assert(views(lists@) =~= seen);
                l = l + 1;
            },
        }
    }
}

} // verus!
