//! What holds of peers, of requests on them and of connections, by their fields.
use vstd::prelude::*;

use super::{
    available, can_commit, committed, gather_fits, headed_for, mismatched, moved_to, named, next_of,
    settled_on, synced, uncached, NextList, Peer, PeerConnectionView, PeerDataView, PeerPos,
    PeersView,
};
use crate::bytes::contents;
use crate::tried::{covers, is_tried, lemma_cleared, lemma_with_tried, words_for};

verus! {

/// A peer that the request has tried is left out.
pub proof fn law_tried_peers_are_left_out(tried: Seq<usize>, p: Peer, i: int, now: i64)
    requires
        is_tried(tried, i),
    ensures
        !available(tried, p, i, now),
{
}

/// A peer that is down is left out.
pub proof fn law_peers_that_are_down_are_left_out(tried: Seq<usize>, p: Peer, i: int, now: i64)
    requires
        p.down != 0,
    ensures
        !available(tried, p, i, now),
{
}

/// A peer with as many failures as it may have, or any number more, is left out
/// until more time than `fail_timeout` has passed since it was last checked.
pub proof fn law_failing_peers_are_left_out(tried: Seq<usize>, p: Peer, i: int, now: i64)
    requires
        p.max_fails != 0,
        p.fails >= p.max_fails,
        now - p.checked <= p.fail_timeout,
    ensures
        !available(tried, p, i, now),
{
}

/// A peer with as many connections as it may have, or any number more, is left
/// out.
pub proof fn law_full_peers_are_left_out(tried: Seq<usize>, p: Peer, i: int, now: i64)
    requires
        p.max_conns != 0,
        p.conns >= p.max_conns,
    ensures
        !available(tried, p, i, now),
{
}

/// Nothing else leaves a peer out: one that has not been tried, is not down, is
/// below its limit of connections, and is below its limit of failures or has
/// been left alone for longer than `fail_timeout`, is available. A limit of 0
/// is none.
pub proof fn law_other_peers_are_available(tried: Seq<usize>, p: Peer, i: int, now: i64)
    requires
        !is_tried(tried, i),
        p.down == 0,
        p.max_conns == 0 || p.conns < p.max_conns,
        p.max_fails == 0 || p.fails < p.max_fails || now - p.checked > p.fail_timeout,
    ensures
        available(tried, p, i, now),
{
}

/// Failures and connections only take availability away: where a peer is left
/// out, so is one like it with more of them.
pub proof fn law_load_only_takes_away(tried: Seq<usize>, p: Peer, q: Peer, i: int, now: i64)
    requires
        q == (Peer { fails: q.fails, conns: q.conns, ..p }),
        p.fails <= q.fails,
        p.conns <= q.conns,
        !available(tried, p, i, now),
    ensures
        !available(tried, q, i, now),
{
}

/// Time only gives availability back: where a peer is available, it still is
/// later.
pub proof fn law_time_only_gives_back(tried: Seq<usize>, p: Peer, i: int, now: i64, later: i64)
    requires
        now <= later,
        available(tried, p, i, now),
    ensures
        available(tried, p, i, later),
{
}

/// Names, addresses, weights and references have no part in it.
pub proof fn law_availability_is_of_these_fields(
    tried: Seq<usize>,
    p: Peer,
    q: Peer,
    i: int,
    now: i64,
)
    requires
        p.down == q.down,
        p.fails == q.fails,
        p.max_fails == q.max_fails,
        p.checked == q.checked,
        p.fail_timeout == q.fail_timeout,
        p.conns == q.conns,
        p.max_conns == q.max_conns,
    ensures
        available(tried, p, i, now) == available(tried, q, i, now),
{
}

/// Whether peers are available can be told as long as the bitmap reaches and no
/// clock is out of range; where no peer has failed too often, the clock does not
/// matter.
pub proof fn law_gathering_needs_a_clock_for_failing_peers(
    tried: Seq<usize>,
    peers: Seq<Peer>,
    now: i64,
)
    requires
        covers(tried, peers.len() as int),
        forall|i: int|
            0 <= i < peers.len() ==> {
                ||| (#[trigger] peers[i]).max_fails == 0
                ||| peers[i].fails < peers[i].max_fails
                ||| i64::MIN <= now - peers[i].checked <= i64::MAX
            },
    ensures
        gather_fits(tried, peers, now),
{
}

/// A choice counts one connection and one reference on the peer, notes the time
/// if the last check is longer ago than `fail_timeout`, and changes nothing
/// else. It is possible as long as the counts are not full and the clock is in
/// range.
pub proof fn law_choice_changes_the_peer(p: Peer, now: i64)
    ensures
        can_commit(p, now) <==> p.conns < usize::MAX && p.refs < usize::MAX && i64::MIN <= now
            - p.checked <= i64::MAX,
        can_commit(p, now) ==> ({
            let q = committed(p, now);
            &&& q.conns == p.conns + 1
            &&& q.refs == p.refs + 1
            &&& now - p.checked > p.fail_timeout ==> q.checked == now
            &&& now - p.checked <= p.fail_timeout ==> q.checked == p.checked
            &&& q.sockaddr == p.sockaddr
            &&& q.name == p.name
            &&& q.weight == p.weight
            &&& q.effective_weight == p.effective_weight
            &&& q.current_weight == p.current_weight
            &&& q.max_conns == p.max_conns
            &&& q.fails == p.fails
            &&& q.max_fails == p.max_fails
            &&& q.fail_timeout == p.fail_timeout
            &&& q.down == p.down
        }),
{
}

/// A choice makes the peer the request's current one and marks its position as
/// tried, and no other position.
pub proof fn law_choice_changes_the_request(rrp: PeerDataView, at: PeerPos, i: int)
    requires
        covers(rrp.tried, at.index + 1),
        0 <= i,
        covers(rrp.tried, i + 1),
    ensures
        ({
            let after = settled_on(rrp, at);
            &&& after.current == Some(at)
            &&& after.peers == rrp.peers
            &&& after.config == rrp.config
            &&& after.tried.len() == rrp.tried.len()
            &&& is_tried(after.tried, at.index as int)
            &&& i != at.index ==> is_tried(after.tried, i) == is_tried(rrp.tried, i)
        }),
{
    lemma_with_tried(rrp.tried, at.index as int, i);
    lemma_with_tried(rrp.tried, at.index as int, at.index as int);
}

/// Moving on puts the request on the other list, none of whose peers it has
/// tried, and changes nothing else.
pub proof fn law_moving_on_changes_the_request(rrp: PeerDataView, next: NextList, i: int)
    requires
        words_for(next.number as int) <= rrp.tried.len(),
        0 <= i < next.number,
    ensures
        ({
            let after = moved_to(rrp, next);
            &&& after.peers == Some(next.list)
            &&& after.config == rrp.config
            &&& after.current == rrp.current
            &&& after.tried.len() == rrp.tried.len()
            &&& !is_tried(after.tried, i)
        }),
{
    lemma_cleared(rrp.tried, next.number as int, i);
}

/// The list to fall back to is the one after.
pub proof fn law_the_next_list_follows(lists: Seq<PeersView>, l: int)
    requires
        0 <= l < lists.len() - 1,
        lists.len() <= usize::MAX,
    ensures
        next_of(lists, l).list == l + 1,
        next_of(lists, l).number == lists[l + 1].number,
{
}

/// A choice points the connection at the peer's address under its name. Without
/// a kept-alive connection there is none to reuse. Giving up changes the name
/// alone.
pub proof fn law_connection_changes(pc: PeerConnectionView, p: Peer, name: Option<Seq<u8>>)
    ensures
        headed_for(pc, p).sockaddr == contents(p.sockaddr),
        headed_for(pc, p).name == Some(p.name@),
        headed_for(pc, p).cached == pc.cached,
        headed_for(pc, p).connection == pc.connection,
        !uncached(pc).cached,
        uncached(pc).connection is None,
        uncached(pc).sockaddr == pc.sockaddr,
        uncached(pc).name == pc.name,
        named(pc, name).name == name,
        named(pc, name).sockaddr == pc.sockaddr,
        named(pc, name).cached == pc.cached,
        named(pc, name).connection == pc.connection,
{
}

/// A list without a generation is never stale; one with a generation is stale
/// for a request of any other, and no more once the request has taken it over,
/// which changes nothing else.
pub proof fn law_generations(rrp: PeerDataView, generation: usize)
    ensures
        !mismatched(rrp.config, None),
        mismatched(rrp.config, Some(generation)) <==> generation != rrp.config,
        synced(rrp, None) == rrp,
        synced(rrp, Some(generation)).config == generation,
        synced(rrp, Some(generation)).peers == rrp.peers,
        synced(rrp, Some(generation)).current == rrp.current,
        synced(rrp, Some(generation)).tried == rrp.tried,
{
}

} // verus!
