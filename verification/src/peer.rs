//! What every policy shares: the peer lists of an upstream, the state of one
//! request on them, the eligibility rule, and the bookkeeping that follows a
//! choice.
use vstd::prelude::*;

use crate::bytes::{contents, copy_contents};
use crate::tried::{
    clear_tried, cleared, covers, has_bits_for, is_tried, lemma_cleared, lemma_with_tried,
    mark_tried, tried_bit, with_tried, words_for,
};

pub mod laws;

verus! {

/// One server of an upstream.
pub struct Peer {
    /// The socket address, or `None` where the host has none.
    pub sockaddr: Option<Vec<u8>>,
    pub name: Vec<u8>,
    /// The configured weight.
    pub weight: isize,
    /// The weight that counts in a round; it recovers towards `weight`.
    pub effective_weight: isize,
    /// The running credit of weighted round-robin.
    pub current_weight: isize,
    /// Active connections.
    pub conns: usize,
    /// The most connections allowed, or 0 for no limit.
    pub max_conns: usize,
    /// Recent failures.
    pub fails: usize,
    /// The failures that put the peer into quarantine, or 0 for never.
    pub max_fails: usize,
    /// When the failures were last looked at, in seconds.
    pub checked: i64,
    /// How long a quarantine lasts, in seconds.
    pub fail_timeout: i64,
    /// Nonzero when taken out of service by the administrator.
    pub down: usize,
    /// How many requests hold on to the peer.
    pub refs: usize,
}

/// One list of peers: the primary servers, or the backup servers.
pub struct Peers {
    /// The name shown when no peer can be had.
    pub name: Option<Vec<u8>>,
    /// How many peers the host says there are.
    pub number: usize,
    /// Whether the upstream is a single server with nothing to choose.
    pub single: bool,
    /// The generation of the list, for one that lives in a shared zone.
    pub config: Option<usize>,
    pub peers: Vec<Peer>,
}

/// What the contracts see of a list.
#[verifier::ext_equal]
pub struct PeersView {
    pub name: Option<Seq<u8>>,
    pub number: usize,
    pub single: bool,
    pub config: Option<usize>,
    pub peers: Seq<Peer>,
}

impl View for Peers {
    type V = PeersView;

    open spec fn view(&self) -> PeersView {
        PeersView {
            name: contents(self.name),
            number: self.number,
            single: self.single,
            config: self.config,
            peers: self.peers@,
        }
    }
}

impl PeersView {
    /// The same list with other peers in it.
    pub open spec fn holding(self, peers: Seq<Peer>) -> PeersView {
        PeersView { peers, ..self }
    }
}

/// A peer by the number of its list and its position there.
#[derive(Clone, Copy, Debug, PartialEq, Eq, Structural)]
pub struct PeerPos {
    pub list: usize,
    pub index: usize,
}

/// The list to fall back to: its number, and how many peers it says it has.
#[derive(Clone, Copy, Debug, PartialEq, Eq, Structural)]
pub struct NextList {
    pub list: usize,
    pub number: usize,
}

/// The state of one request on the peer lists.
pub struct PeerData {
    /// The generation of the lists that the request was set up on.
    pub config: usize,
    /// The number of the list that the request is on.
    pub peers: Option<usize>,
    /// The peer chosen last.
    pub current: Option<PeerPos>,
    /// Which peers of the list have been tried.
    pub tried: Vec<usize>,
}

/// What the contracts see of a request's state.
#[verifier::ext_equal]
pub struct PeerDataView {
    pub config: usize,
    pub peers: Option<usize>,
    pub current: Option<PeerPos>,
    pub tried: Seq<usize>,
}

impl View for PeerData {
    type V = PeerDataView;

    open spec fn view(&self) -> PeerDataView {
        PeerDataView {
            config: self.config,
            peers: self.peers,
            current: self.current,
            tried: self.tried@,
        }
    }
}

/// The connection that a request is about to open.
pub struct PeerConnection {
    pub sockaddr: Option<Vec<u8>>,
    pub name: Option<Vec<u8>>,
    /// Whether `connection` was taken from a keepalive cache.
    pub cached: bool,
    /// The host's handle of a connection that is already open.
    pub connection: Option<usize>,
}

/// What the contracts see of a connection.
#[verifier::ext_equal]
pub struct PeerConnectionView {
    pub sockaddr: Option<Seq<u8>>,
    pub name: Option<Seq<u8>>,
    pub cached: bool,
    pub connection: Option<usize>,
}

impl View for PeerConnection {
    type V = PeerConnectionView;

    open spec fn view(&self) -> PeerConnectionView {
        PeerConnectionView {
            sockaddr: contents(self.sockaddr),
            name: contents(self.name),
            cached: self.cached,
            connection: self.connection,
        }
    }
}

/// How a request for a peer ends.
#[derive(Clone, Copy, Debug, PartialEq, Eq, Structural)]
pub enum GetStatus {
    /// A peer has been chosen and committed.
    Selected,
    /// No peer can be had.
    Busy,
    /// There is nothing to choose: the host's round-robin takes over.
    RoundRobin,
}

/// How the attempt on one list ends.
#[derive(Clone, Copy, Debug, PartialEq, Eq, Structural)]
pub enum ListStep {
    /// A peer has been chosen and committed.
    Selected,
    /// No peer can be had, on this list or any further one.
    Busy,
    /// The request has moved on to the next list.
    Backup,
}

/// Too many recent failures, too short a time ago.
pub open spec fn quarantined(p: Peer, now: i64) -> bool {
    p.max_fails != 0 && p.fails >= p.max_fails && now - p.checked <= p.fail_timeout
}

/// As many connections as the peer may have.
pub open spec fn saturated(p: Peer) -> bool {
    p.max_conns != 0 && p.conns >= p.max_conns
}

/// The peer itself could take a request now.
pub open spec fn eligible(p: Peer, now: i64) -> bool {
    p.down == 0 && !quarantined(p, now) && !saturated(p)
}

/// The peer at position `i` could take this request now: the request has not
/// tried it, and it is eligible.
pub open spec fn available(tried: Seq<usize>, p: Peer, i: int, now: i64) -> bool {
    !is_tried(tried, i) && eligible(p, now)
}

/// The time since the peer was last checked can be told.
pub open spec fn clock_fits(p: Peer, now: i64) -> bool {
    i64::MIN <= now - p.checked <= i64::MAX
}

/// Finding out whether the peer is available takes a look at the clock.
pub open spec fn clock_read(tried: Seq<usize>, p: Peer, i: int) -> bool {
    !is_tried(tried, i) && p.down == 0 && p.max_fails != 0 && p.fails >= p.max_fails
}

/// The available peers of a list can be told: the bitmap is long enough, and
/// the clock can be read where it is needed.
pub open spec fn gather_fits(tried: Seq<usize>, peers: Seq<Peer>, now: i64) -> bool {
    &&& covers(tried, peers.len() as int)
    &&& forall|i: int|
        0 <= i < peers.len() && clock_read(tried, #[trigger] peers[i], i) ==> clock_fits(
            peers[i],
            now,
        )
}

/// No peer of the list is available.
pub open spec fn exhausted(tried: Seq<usize>, peers: Seq<Peer>, now: i64) -> bool {
    forall|i: int| 0 <= i < peers.len() ==> !available(tried, #[trigger] peers[i], i, now)
}

/// The peer after it has been chosen: one connection and one reference more,
/// and its failures looked at now if that was longer ago than a quarantine
/// lasts.
pub open spec fn committed(p: Peer, now: i64) -> Peer {
    Peer {
        checked: if now - p.checked > p.fail_timeout {
            now
        } else {
            p.checked
        },
        conns: (p.conns + 1) as usize,
        refs: (p.refs + 1) as usize,
        ..p
    }
}

/// The peer can be chosen: the clock can be read, and neither count is full.
pub open spec fn can_commit(p: Peer, now: i64) -> bool {
    clock_fits(p, now) && p.conns < usize::MAX && p.refs < usize::MAX
}

/// The connection once it is headed for `p`.
pub open spec fn headed_for(pc: PeerConnectionView, p: Peer) -> PeerConnectionView {
    PeerConnectionView { sockaddr: contents(p.sockaddr), name: Some(p.name@), ..pc }
}

/// The request's state once the peer at `at` has been chosen.
pub open spec fn settled_on(rrp: PeerDataView, at: PeerPos) -> PeerDataView {
    PeerDataView {
        current: Some(at),
        tried: with_tried(rrp.tried, at.index as int),
        ..rrp
    }
}

/// The request's state once it has moved on to the list `next`.
pub open spec fn moved_to(rrp: PeerDataView, next: NextList) -> PeerDataView {
    PeerDataView {
        peers: Some(next.list),
        tried: cleared(rrp.tried, next.number as int),
        ..rrp
    }
}

/// The connection without a kept-alive connection to reuse.
pub open spec fn uncached(pc: PeerConnectionView) -> PeerConnectionView {
    PeerConnectionView { cached: false, connection: None, ..pc }
}

/// The connection under another name.
pub open spec fn named(pc: PeerConnectionView, name: Option<Seq<u8>>) -> PeerConnectionView {
    PeerConnectionView { name, ..pc }
}

/// What the contracts see of several lists.
pub open spec fn views(lists: Seq<Peers>) -> Seq<PeersView> {
    Seq::new(lists.len(), |i: int| lists[i]@)
}

/// The list that follows list `l`.
pub open spec fn next_of(lists: Seq<PeersView>, l: int) -> NextList {
    NextList { list: (l + 1) as usize, number: lists[l + 1].number }
}

/// The request's state once it has taken over the generation of a list.
pub open spec fn synced(rrp: PeerDataView, list: Option<usize>) -> PeerDataView {
    match list {
        Some(generation) => PeerDataView { config: generation, ..rrp },
        None => rrp,
    }
}

/// The list lives in a zone and is of another generation than `config`.
pub open spec fn mismatched(config: usize, list: Option<usize>) -> bool {
    list is Some && list->0 != config
}

/// Whether the peer at position `index` could take this request: not tried,
/// not down, not in quarantine after failures, and below its connection limit.
pub fn peer_available(rrp: &PeerData, peer: &Peer, index: usize, now: i64) -> (r: bool)
    requires
        covers(rrp.tried@, index + 1),
        clock_read(rrp.tried@, *peer, index as int) ==> clock_fits(*peer, now),
    ensures
        r == available(rrp.tried@, *peer, index as int, now),
{
    if tried_bit(&rrp.tried, index) {
        return false;
    }
    if peer.down != 0 {
        return false;
    }
    if peer.max_fails != 0 && peer.fails >= peer.max_fails && now - peer.checked
        <= peer.fail_timeout {
        return false;
    }
    if peer.max_conns != 0 && peer.conns >= peer.max_conns {
        return false;
    }
    true
}

/// Whether the peer can be chosen.
pub fn can_be_committed(peer: &Peer, now: i64) -> (r: bool)
    ensures
        r == can_commit(*peer, now),
{
    now.checked_sub(peer.checked).is_some() && peer.conns < usize::MAX && peer.refs < usize::MAX
}

/// Whether the available peers of the list can be told.
pub fn can_gather(rrp: &PeerData, peers: &Peers, now: i64) -> (r: bool)
    ensures
        r == gather_fits(rrp.tried@, peers.peers@, now),
{
    let n: usize = peers.peers.len();
    if !has_bits_for(&rrp.tried, n) {
        return false;
    }
    let ghost tried = rrp.tried@;
    let ghost list = peers.peers@;
    let mut i: usize = 0;
    while i < n
        invariant
            i <= n,
            n == list.len(),
            tried == rrp.tried@,
            list == peers.peers@,
            covers(tried, n as int),
            forall|j: int|
                0 <= j < i && clock_read(tried, #[trigger] list[j], j) ==> clock_fits(
                    list[j],
                    now,
                ),
        decreases n - i,
    {
        let peer = &peers.peers[i];
        assert(covers(tried, i + 1));
        if !tried_bit(&rrp.tried, i) && peer.down == 0 && peer.max_fails != 0 && peer.fails
            >= peer.max_fails && now.checked_sub(peer.checked).is_none() {
            assert(clock_read(tried, list[i as int], i as int));
            return false;
        }
        i = i + 1;
    }
    true
}

/// Whether no peer of the list is available.
pub fn none_available(rrp: &PeerData, peers: &Peers, now: i64) -> (r: bool)
    requires
        gather_fits(rrp.tried@, peers.peers@, now),
    ensures
        r == exhausted(rrp.tried@, peers.peers@, now),
{
    let n: usize = peers.peers.len();
    let ghost tried = rrp.tried@;
    let ghost list = peers.peers@;
    let mut i: usize = 0;
    while i < n
        invariant
            i <= n,
            n == list.len(),
            tried == rrp.tried@,
            list == peers.peers@,
            gather_fits(tried, list, now),
            forall|j: int| 0 <= j < i ==> !available(tried, #[trigger] list[j], j, now),
        decreases n - i,
    {
        assert(covers(tried, i + 1));
        assert(clock_read(tried, list[i as int], i as int) ==> clock_fits(list[i as int], now));
        if peer_available(rrp, &peers.peers[i], i, now) {
            return false;
        }
        i = i + 1;
    }
    true
}

/// Commit the choice of the peer at `at`: point the connection at it, count
/// the connection and the reference, and mark it as tried.
pub fn select_peer(
    pc: &mut PeerConnection,
    rrp: &mut PeerData,
    peer: &mut Peer,
    at: PeerPos,
    now: i64,
)
    requires
        covers(old(rrp).tried@, at.index + 1),
        can_commit(*old(peer), now),
    ensures
        final(pc)@ == headed_for(old(pc)@, *old(peer)),
        final(rrp)@ == settled_on(old(rrp)@, at),
        *final(peer) == committed(*old(peer), now),
{
    pc.sockaddr = copy_contents(&peer.sockaddr);
    let name = peer.name.clone();
    assert(name@ =~= peer.name@);
    pc.name = Some(name);
    if now - peer.checked > peer.fail_timeout {
        peer.checked = now;
    }
    peer.conns = peer.conns + 1;
    rrp.current = Some(at);
    peer.refs = peer.refs + 1;
    mark_tried(&mut rrp.tried, at.index);
}

/// Whether the list is a single server with nothing to choose.
pub fn peers_single(peers: Option<&Peers>) -> (r: bool)
    ensures
        r == (peers matches Some(p) && p.single),
{
    match peers {
        Some(p) => p.single,
        None => false,
    }
}

/// Forget a kept-alive connection, so that a retry on another peer does not
/// inherit that of the attempt before.
pub fn clear_cached_connection(pc: &mut PeerConnection)
    ensures
        final(pc)@ == uncached(old(pc)@),
{
    pc.cached = false;
    pc.connection = None;
}

/// Whether the list has been reloaded since the request was set up.
pub fn config_mismatch(rrp: &PeerData, peers: &Peers) -> (r: bool)
    ensures
        r == mismatched(rrp.config, peers.config),
{
    match peers.config {
        Some(generation) => generation != rrp.config,
        None => false,
    }
}

/// Take over the generation of the list.
pub fn sync_config_generation(rrp: &mut PeerData, peers: &Peers)
    ensures
        final(rrp)@ == synced(old(rrp)@, peers.config),
        !mismatched(final(rrp).config, peers.config),
{
    if let Some(generation) = peers.config {
        rrp.config = generation;
    }
}

/// Move the request on to another list, none of whose peers it has tried.
pub fn switch_peers_and_clear_tried(rrp: &mut PeerData, next: NextList)
    requires
        words_for(next.number as int) <= old(rrp).tried@.len(),
    ensures
        final(rrp)@ == moved_to(old(rrp)@, next),
        forall|i: int| 0 <= i < next.number ==> !is_tried(final(rrp).tried@, i),
{
    rrp.peers = Some(next.list);
    clear_tried(&mut rrp.tried, next.number);
    proof {
        assert forall|i: int| 0 <= i < next.number implies !is_tried(rrp.tried@, i) by {
            lemma_cleared(old(rrp).tried@, next.number as int, i);
        }
    }
}

/// Give up: the connection takes the name of the list that the call started
/// on, whichever list it ended on. Without such a list the name stays.
pub fn busy_with_primary_name(
    pc: &mut PeerConnection,
    primary_name: Option<&Option<Vec<u8>>>,
) -> (r: GetStatus)
    ensures
        r == GetStatus::Busy,
        final(pc)@ == match primary_name {
            Some(name) => named(old(pc)@, contents(*name)),
            None => old(pc)@,
        },
{
    if let Some(name) = primary_name {
        pc.name = copy_contents(name);
    }
    GetStatus::Busy
}

/// Once a peer has been chosen, the request will not be given it again; for
/// every other peer of the list nothing changes.
pub proof fn lemma_choice_is_final(tried: Seq<usize>, peers: Seq<Peer>, k: int, i: int, now: i64)
    requires
        0 <= k < peers.len(),
        0 <= i < peers.len(),
        covers(tried, peers.len() as int),
    ensures
        ({
            let after = peers.update(k, committed(peers[k], now));
            available(with_tried(tried, k), after[i], i, now) == (i != k && available(
                tried,
                peers[i],
                i,
                now,
            ))
        }),
{
    lemma_with_tried(tried, k, i);
}

/// A peer that is available and then chosen stays within its connection limit.
pub proof fn lemma_limit_respected(tried: Seq<usize>, p: Peer, i: int, now: i64)
    requires
        available(tried, p, i, now),
        can_commit(p, now),
    ensures
        p.max_conns == 0 || committed(p, now).conns <= p.max_conns,
{
}

} // verus!
