//! What holds of the `least_conn` policy as a whole.
use vstd::prelude::*;

use super::{
    after_choice, after_round, balanced, choice, choice_fits, credit, got, handed_out, journey,
    journey_fits, leader, lemma_leader_bounds, lemma_lightest_bounds, lighter, lightest, load_of,
    round_fits, ties, weighed, weights_positive, PeerLoad,
};
use crate::bytes::contents;
use crate::peer::{
    available, eligible, lemma_choice_is_final, mismatched, moved_to, next_of, GetStatus, Peer,
    PeerConnectionView, PeerDataView, PeersView,
};
use crate::tried::{covers, is_tried, lemma_cleared, lemma_with_tried, with_tried, words_for};

verus! {

proof fn lemma_lighter_transitive(a: PeerLoad, b: PeerLoad, c: PeerLoad)
    requires
        a.weight > 0,
        b.weight > 0,
        c.weight > 0,
        !lighter(b, a),
        !lighter(c, b),
    ensures
        !lighter(c, a),
        lighter(a, b) || lighter(b, c) ==> lighter(a, c),
        balanced(a, b) && balanced(b, c) ==> balanced(a, c),
{
    let (ca, wa) = (a.conns as int, a.weight as int);
    let (cb, wb) = (b.conns as int, b.weight as int);
    let (cc, wc) = (c.conns as int, c.weight as int);
    // a <= b <= c as ratios, scaled by the third weight.
    assert((ca * wb) * wc <= (cb * wa) * wc) by (nonlinear_arith)
        requires
            ca * wb <= cb * wa,
            wc > 0,
    ;
    assert((cb * wc) * wa <= (cc * wb) * wa) by (nonlinear_arith)
        requires
            cb * wc <= cc * wb,
            wa > 0,
    ;
    assert((ca * wb) * wc == (ca * wc) * wb) by (nonlinear_arith);
    assert((cb * wa) * wc == (cb * wc) * wa) by (nonlinear_arith);
    assert((cc * wb) * wa == (cc * wa) * wb) by (nonlinear_arith);
    assert(ca * wc <= cc * wa) by (nonlinear_arith)
        requires
            (ca * wc) * wb <= (cc * wa) * wb,
            wb > 0,
    ;
    if ca * wb < cb * wa {
        assert((ca * wb) * wc < (cb * wa) * wc) by (nonlinear_arith)
            requires
                ca * wb < cb * wa,
                wc > 0,
        ;
    }
    if cb * wc < cc * wb {
        assert((cb * wc) * wa < (cc * wb) * wa) by (nonlinear_arith)
            requires
                cb * wc < cc * wb,
                wa > 0,
        ;
    }
    if ca * wc == cc * wa {
        assert((ca * wc) * wb == (cc * wa) * wb);
    }
    if ca * wb == cb * wa && cb * wc == cc * wb {
        assert(ca * wc == cc * wa) by (nonlinear_arith)
            requires
                (ca * wc) * wb == (cc * wa) * wb,
                wb > 0,
        ;
    }
}

/// With positive weights, the first pass over a list finds the earliest of the
/// available peers whose `conns / weight` is lowest, and tells whether another
/// one has the same ratio.
pub proof fn law_lightest_is_first_minimum(tried: Seq<usize>, peers: Seq<Peer>, n: int, now: i64)
    requires
        0 <= n <= peers.len(),
        weights_positive(peers),
    ensures
        ({
            let (best, many) = lightest(tried, peers, n, now);
            best matches Some(b) ==> {
                &&& 0 <= b < n
                &&& available(tried, peers[b], b, now)
                &&& forall|j: int|
                    0 <= j < n && available(tried, #[trigger] peers[j], j, now) ==> !lighter(
                        load_of(peers[j]),
                        load_of(peers[b]),
                    )
                &&& forall|j: int|
                    0 <= j < b && available(tried, #[trigger] peers[j], j, now) ==> lighter(
                        load_of(peers[b]),
                        load_of(peers[j]),
                    )
                &&& many <==> exists|j: int|
                    0 <= j < n && j != b && available(tried, #[trigger] peers[j], j, now)
                        && balanced(load_of(peers[j]), load_of(peers[b]))
            }
        }),
    decreases n,
{
    lemma_lightest_bounds(tried, peers, n, now);
    if n > 0 {
        let i = n - 1;
        law_lightest_is_first_minimum(tried, peers, i, now);
        lemma_lightest_bounds(tried, peers, i, now);
        let before = lightest(tried, peers, i, now);
        if available(tried, peers[i], i, now) {
            if let Some(b) = before.0 {
                let new = load_of(peers[i]);
                let old_best = load_of(peers[b]);
                assert forall|j: int|
                    0 <= j < i && available(tried, #[trigger] peers[j], j, now) implies {
                    &&& lighter(new, old_best) ==> lighter(new, load_of(peers[j]))
                } by {
                    if lighter(new, old_best) {
                        lemma_lighter_transitive(new, old_best, load_of(peers[j]));
                    }
                }
                if balanced(new, old_best) {
                    assert(lightest(tried, peers, n, now) == (Some(b), true));
                    assert(available(tried, peers[i], i, now));
                }
                if lighter(old_best, new) && before.1 {
                    let j = choose|j: int|
                        0 <= j < i && j != b && available(tried, #[trigger] peers[j], j, now)
                            && balanced(load_of(peers[j]), load_of(peers[b]));
                    assert(available(tried, peers[j], j, now));
                }
            }
        } else if before.0 is Some && before.1 {
            let b = before.0->0;
            let j = choose|j: int|
                0 <= j < i && j != b && available(tried, #[trigger] peers[j], j, now) && balanced(
                    load_of(peers[j]),
                    load_of(peers[b]),
                );
            assert(available(tried, peers[j], j, now));
        }
    }
}

/// The leader of a round has the highest credit of all who take part, and is
/// the earliest of those that have it.
pub proof fn law_leader_has_highest_credit(
    tried: Seq<usize>,
    peers: Seq<Peer>,
    b: int,
    n: int,
    now: i64,
)
    requires
        b < n <= peers.len(),
        ties(tried, peers, b, b, now),
    ensures
        ({
            let k = leader(tried, peers, b, n, now);
            &&& b <= k < n
            &&& ties(tried, peers, b, k, now)
            &&& forall|i: int|
                i < n && #[trigger] ties(tried, peers, b, i, now) ==> credit(peers[i]) <= credit(
                    peers[k],
                )
            &&& forall|i: int|
                i < k && #[trigger] ties(tried, peers, b, i, now) ==> credit(peers[i]) < credit(
                    peers[k],
                )
        }),
    decreases n - b,
{
    lemma_leader_bounds(tried, peers, b, n, now);
    if n > b + 1 {
        law_leader_has_highest_credit(tried, peers, b, n - 1, now);
    }
}

/// A list gives up a peer exactly when it has an available one.
pub proof fn law_chosen_iff_available(tried: Seq<usize>, peers: Seq<Peer>, now: i64)
    ensures
        choice(tried, peers, now) is None <==> forall|i: int|
            0 <= i < peers.len() ==> !available(tried, #[trigger] peers[i], i, now),
{
    lemma_lightest_bounds(tried, peers, peers.len() as int, now);
}

/// The peer that is picked is one the request has not tried, is not down, not
/// in quarantine and below its connection limit.
pub proof fn law_choice_is_available(tried: Seq<usize>, peers: Seq<Peer>, now: i64)
    ensures
        choice(tried, peers, now) matches Some(k) ==> {
            &&& 0 <= k < peers.len()
            &&& available(tried, peers[k], k, now)
        },
{
    let n = peers.len() as int;
    lemma_lightest_bounds(tried, peers, n, now);
    if let (Some(b), true) = lightest(tried, peers, n, now) {
        lemma_leader_bounds(tried, peers, b, n, now);
    }
}

/// With positive weights, no available peer has a lower `conns / weight` than
/// the one that is picked.
pub proof fn law_least_conn(tried: Seq<usize>, peers: Seq<Peer>, now: i64, j: int)
    requires
        weights_positive(peers),
        0 <= j < peers.len(),
        available(tried, peers[j], j, now),
    ensures
        choice(tried, peers, now) matches Some(k) && !lighter(load_of(peers[j]), load_of(peers[k])),
{
    let n = peers.len() as int;
    law_lightest_is_first_minimum(tried, peers, n, now);
    lemma_lightest_bounds(tried, peers, n, now);
    let b = lightest(tried, peers, n, now).0->0;
    if lightest(tried, peers, n, now).1 {
        lemma_leader_bounds(tried, peers, b, n, now);
        let k = leader(tried, peers, b, n, now);
        lemma_lighter_transitive(load_of(peers[k]), load_of(peers[b]), load_of(peers[j]));
    }
}

/// What is decided of a peer by the weights alone leaves the rest as it was.
proof fn lemma_weighed(tried: Seq<usize>, peers: Seq<Peer>, now: i64, i: int)
    requires
        0 <= i < peers.len(),
    ensures
        weighed(tried, peers, now).len() == peers.len(),
        weighed(tried, peers, now)[i] == (Peer {
            current_weight: weighed(tried, peers, now)[i].current_weight,
            effective_weight: weighed(tried, peers, now)[i].effective_weight,
            ..peers[i]
        }),
{
}

/// A choice counts one connection and one reference more on the peer that was
/// picked and on no other; besides these, only the weights and the time of the
/// last check of a peer can change.
pub proof fn law_choice_counts_once(tried: Seq<usize>, peers: Seq<Peer>, now: i64, i: int)
    requires
        choice_fits(tried, peers, now),
        choice(tried, peers, now) is Some,
        0 <= i < peers.len(),
    ensures
        ({
            let k = choice(tried, peers, now)->0;
            let p = peers[i];
            let q = after_choice(tried, peers, k, now)[i];
            &&& after_choice(tried, peers, k, now).len() == peers.len()
            &&& q.conns == p.conns + if i == k {
                1int
            } else {
                0
            }
            &&& q.refs == p.refs + if i == k {
                1int
            } else {
                0
            }
            &&& q == (Peer {
                conns: q.conns,
                refs: q.refs,
                checked: if i == k && now - p.checked > p.fail_timeout {
                    now
                } else {
                    p.checked
                },
                current_weight: q.current_weight,
                effective_weight: q.effective_weight,
                ..p
            })
        }),
{
    law_choice_is_available(tried, peers, now);
    lemma_weighed(tried, peers, now, i);
    lemma_weighed(tried, peers, now, choice(tried, peers, now)->0);
}

/// A retry on the same list never gets a peer that the request was given
/// before, and every other peer stays as available as it was.
pub proof fn law_retry_avoids_tried(tried: Seq<usize>, peers: Seq<Peer>, now: i64, i: int)
    requires
        choice_fits(tried, peers, now),
        choice(tried, peers, now) is Some,
        0 <= i < peers.len(),
    ensures
        ({
            let k = choice(tried, peers, now)->0;
            available(with_tried(tried, k), after_choice(tried, peers, k, now)[i], i, now) == (i
                != k && available(tried, peers[i], i, now))
        }),
{
    let k = choice(tried, peers, now)->0;
    law_choice_is_available(tried, peers, now);
    law_choice_counts_once(tried, peers, now, i);
    lemma_choice_is_final(tried, peers, k, i, now);
}

/// How many of the first `n` peers are available.
pub open spec fn available_count(tried: Seq<usize>, peers: Seq<Peer>, n: int, now: i64) -> int
    decreases n,
{
    if n <= 0 {
        0
    } else {
        available_count(tried, peers, n - 1, now) + if available(tried, peers[n - 1], n - 1, now) {
            1int
        } else {
            0
        }
    }
}

proof fn lemma_count_after(tried: Seq<usize>, peers: Seq<Peer>, n: int, now: i64)
    requires
        choice_fits(tried, peers, now),
        choice(tried, peers, now) is Some,
        0 <= n <= peers.len(),
    ensures
        ({
            let k = choice(tried, peers, now)->0;
            available_count(
                with_tried(tried, k),
                after_choice(tried, peers, k, now),
                n,
                now,
            ) == available_count(tried, peers, n, now) - if k < n {
                1int
            } else {
                0
            }
        }),
    decreases n,
{
    law_choice_is_available(tried, peers, now);
    if n > 0 {
        lemma_count_after(tried, peers, n - 1, now);
        law_retry_avoids_tried(tried, peers, now, n - 1);
    }
}

/// Each choice leaves one available peer less, so a list of `n` peers serves
/// at most `n` attempts of one request.
pub proof fn law_attempts_run_out(tried: Seq<usize>, peers: Seq<Peer>, now: i64)
    requires
        choice_fits(tried, peers, now),
        choice(tried, peers, now) is Some,
    ensures
        ({
            let k = choice(tried, peers, now)->0;
            let n = peers.len() as int;
            &&& available_count(
                with_tried(tried, k),
                after_choice(tried, peers, k, now),
                n,
                now,
            ) == available_count(tried, peers, n, now) - 1
            &&& available_count(tried, peers, n, now) <= n
        }),
{
    law_choice_is_available(tried, peers, now);
    lemma_count_after(tried, peers, peers.len() as int, now);
    lemma_count_bound(tried, peers, peers.len() as int, now);
}

proof fn lemma_count_bound(tried: Seq<usize>, peers: Seq<Peer>, n: int, now: i64)
    requires
        0 <= n,
    ensures
        0 <= available_count(tried, peers, n, now) <= n,
    decreases n,
{
    if n > 0 {
        lemma_count_bound(tried, peers, n - 1, now);
    }
}

/// The sum of the running credits of the first `n` peers.
pub open spec fn credits(peers: Seq<Peer>, n: int) -> int
    decreases n,
{
    if n <= 0 {
        0
    } else {
        credits(peers, n - 1) + peers[n - 1].current_weight
    }
}

proof fn lemma_credits_after_round(tried: Seq<usize>, peers: Seq<Peer>, b: int, n: int, now: i64)
    requires
        0 <= b < peers.len(),
        ties(tried, peers, b, b, now),
        round_fits(tried, peers, b, now),
        0 <= n <= peers.len(),
    ensures
        ({
            let all = peers.len() as int;
            credits(after_round(tried, peers, b, now), n) == credits(peers, n) + handed_out(
                tried,
                peers,
                b,
                n,
                now,
            ) - if leader(tried, peers, b, all, now) < n {
                handed_out(tried, peers, b, all, now)
            } else {
                0
            }
        }),
    decreases n,
{
    lemma_leader_bounds(tried, peers, b, peers.len() as int, now);
    if n > 0 {
        lemma_credits_after_round(tried, peers, b, n - 1, now);
        assert(ties(tried, peers, b, n - 1, now) ==> isize::MIN <= credit(peers[n - 1])
            <= isize::MAX);
    }
}

/// A choice moves credit between the peers of a list and neither makes nor
/// destroys any.
pub proof fn law_credit_is_conserved(tried: Seq<usize>, peers: Seq<Peer>, now: i64)
    requires
        choice_fits(tried, peers, now),
        choice(tried, peers, now) is Some,
    ensures
        ({
            let k = choice(tried, peers, now)->0;
            let n = peers.len() as int;
            credits(after_choice(tried, peers, k, now), n) == credits(peers, n)
        }),
{
    let n = peers.len() as int;
    let k = choice(tried, peers, now)->0;
    let w = weighed(tried, peers, now);
    law_choice_is_available(tried, peers, now);
    lemma_lightest_bounds(tried, peers, n, now);
    if let (Some(b), true) = lightest(tried, peers, n, now) {
        lemma_leader_bounds(tried, peers, b, n, now);
        lemma_credits_after_round(tried, peers, b, n, now);
    }
    lemma_weighed(tried, peers, now, k);
    lemma_credits_agree(w, after_choice(tried, peers, k, now), n);
}

proof fn lemma_credits_agree(a: Seq<Peer>, b: Seq<Peer>, n: int)
    requires
        forall|i: int| 0 <= i < n ==> (#[trigger] a[i]).current_weight == b[i].current_weight,
    ensures
        credits(a, n) == credits(b, n),
    decreases n,
{
    if n > 0 {
        lemma_credits_agree(a, b, n - 1);
    }
}

/// A list that is not stale and has an available peer is where the search ends.
pub proof fn law_first_list_wins(
    rrp: PeerDataView,
    lists: Seq<PeersView>,
    l: int,
    now: i64,
    i: int,
)
    requires
        0 <= l < lists.len(),
        !mismatched(rrp.config, lists[l].config),
        0 <= i < lists[l].peers.len(),
        available(rrp.tried, lists[l].peers[i], i, now),
    ensures
        journey(rrp, lists, l, now).rrp == rrp,
        journey(rrp, lists, l, now).taken is Some,
{
    law_chosen_iff_available(rrp.tried, lists[l].peers, now);
}

/// When a list has no available peer, an eligible peer of the next list is
/// reached, whatever positions were tried before.
pub proof fn law_backup_is_reached(
    rrp: PeerDataView,
    lists: Seq<PeersView>,
    l: int,
    now: i64,
    i: int,
)
    requires
        0 <= l < lists.len() - 1,
        !mismatched(rrp.config, lists[l].config),
        forall|j: int|
            0 <= j < lists[l].peers.len() ==> !available(
                rrp.tried,
                #[trigger] lists[l].peers[j],
                j,
                now,
            ),
        !mismatched(rrp.config, lists[l + 1].config),
        0 <= i < lists[l + 1].peers.len(),
        i < lists[l + 1].number,
        words_for(lists[l + 1].number as int) <= rrp.tried.len(),
        eligible(lists[l + 1].peers[i], now),
    ensures
        journey(rrp, lists, l, now).rrp == moved_to(rrp, next_of(lists, l)),
        journey(rrp, lists, l, now).rrp.peers == Some((l + 1) as usize),
        journey(rrp, lists, l, now).rrp.config == rrp.config,
        !is_tried(journey(rrp, lists, l, now).rrp.tried, i),
        journey(rrp, lists, l, now).taken is Some,
{
    law_chosen_iff_available(rrp.tried, lists[l].peers, now);
    let moved = moved_to(rrp, next_of(lists, l));
    lemma_cleared(rrp.tried, lists[l + 1].number as int, i);
    law_first_list_wins(moved, lists, l + 1, now, i);
}

/// The lists are searched in order: when the search ends on list `m`, no list
/// before it was stale, the first had no available peer, and no other one had
/// an eligible peer. When it ends without a peer on a list that is not stale,
/// that list is the last one and had none either.
pub proof fn law_lists_in_order(
    rrp: PeerDataView,
    lists: Seq<PeersView>,
    l: int,
    now: i64,
    q: int,
    i: int,
)
    requires
        0 <= l < lists.len() <= usize::MAX,
        rrp.peers == Some(l as usize),
        forall|j: int|
            l < j < lists.len() ==> words_for((#[trigger] lists[j]).number as int)
                <= rrp.tried.len(),
        l <= q < lists.len(),
        0 <= i < lists[q].peers.len(),
        q > l ==> i < lists[q].number,
    ensures
        ({
            let end = journey(rrp, lists, l, now);
            let m = end.rrp.peers->0 as int;
            let none_here = if q == l {
                !available(rrp.tried, lists[q].peers[i], i, now)
            } else {
                !eligible(lists[q].peers[i], now)
            };
            &&& end.rrp.peers is Some
            &&& l <= m < lists.len()
            &&& end.rrp.config == rrp.config
            &&& q < m ==> !mismatched(rrp.config, lists[q].config) && none_here
            &&& end.taken is None && !mismatched(rrp.config, lists[m].config) ==> {
                &&& m == lists.len() - 1
                &&& none_here
            }
        }),
    decreases lists.len() - l,
{
    law_chosen_iff_available(rrp.tried, lists[l].peers, now);
    if !mismatched(rrp.config, lists[l].config) && choice(rrp.tried, lists[l].peers, now) is None
        && l + 1 < lists.len() {
        let moved = moved_to(rrp, next_of(lists, l));
        if q == l {
            lemma_journey_list(moved, lists, l + 1, now);
        } else {
            law_lists_in_order(moved, lists, l + 1, now, q, i);
            if q == l + 1 {
                lemma_cleared(rrp.tried, lists[l + 1].number as int, i);
            }
        }
    }
}

proof fn lemma_journey_list(rrp: PeerDataView, lists: Seq<PeersView>, l: int, now: i64)
    requires
        0 <= l < lists.len() <= usize::MAX,
        rrp.peers == Some(l as usize),
    ensures
        ({
            let end = journey(rrp, lists, l, now);
            let m = end.rrp.peers->0 as int;
            &&& end.rrp.peers is Some
            &&& l <= m < lists.len()
            &&& end.rrp.config == rrp.config
            &&& end.taken is None && !mismatched(rrp.config, lists[m].config) ==> m == lists.len()
                - 1
        }),
    decreases lists.len() - l,
{
    if !mismatched(rrp.config, lists[l].config) && choice(rrp.tried, lists[l].peers, now) is None
        && l + 1 < lists.len() {
        lemma_journey_list(moved_to(rrp, next_of(lists, l)), lists, l + 1, now);
    }
}

/// Of two loads one is lighter or they are balanced, and never two of these.
pub proof fn law_loads_compare(a: PeerLoad, b: PeerLoad)
    ensures
        lighter(a, b) || balanced(a, b) || lighter(b, a),
        !(lighter(a, b) && lighter(b, a)),
        balanced(a, b) ==> !lighter(a, b) && !lighter(b, a) && balanced(b, a),
{
}

/// Loads of the same weight compare as their connections do, and loads of the
/// same connections, if there are any, the other way round as their weights do.
pub proof fn law_more_connections_are_heavier(a: PeerLoad, b: PeerLoad)
    requires
        a.weight > 0,
        b.weight > 0,
    ensures
        a.weight == b.weight ==> (lighter(a, b) <==> a.conns < b.conns),
        a.weight == b.weight ==> (balanced(a, b) <==> a.conns == b.conns),
        a.conns == b.conns && a.conns > 0 ==> (lighter(a, b) <==> a.weight > b.weight),
        a.conns == b.conns && a.conns > 0 ==> (balanced(a, b) <==> a.weight == b.weight),
        a.conns == 0 && b.conns == 0 ==> balanced(a, b),
        a.conns == 0 && b.conns > 0 ==> lighter(a, b),
{
    let (ca, wa) = (a.conns as int, a.weight as int);
    let (cb, wb) = (b.conns as int, b.weight as int);
    assert((wa == wb ==> (ca * wb < cb * wa <==> ca < cb)) && (wa == wb ==> (ca * wb == cb * wa
        <==> ca == cb))) by (nonlinear_arith)
        requires
            wa > 0,
            wb > 0,
    ;
    assert((ca == cb && ca > 0 ==> (ca * wb < cb * wa <==> wa > wb)) && (ca == cb && ca > 0 ==> (ca
        * wb == cb * wa <==> wa == wb))) by (nonlinear_arith);
    assert(ca == 0 && cb == 0 ==> ca * wb == cb * wa) by (nonlinear_arith);
    assert(ca == 0 && cb > 0 ==> ca * wb < cb * wa) by (nonlinear_arith)
        requires
            wa > 0,
    ;
}

/// As many times the connections with as many times the weight is the same
/// load.
pub proof fn law_loads_scale(a: PeerLoad, k: int, scaled: PeerLoad, b: PeerLoad)
    requires
        k > 0,
        scaled.conns == k * a.conns,
        scaled.weight == k * a.weight,
    ensures
        balanced(scaled, a),
        lighter(scaled, b) <==> lighter(a, b),
        lighter(b, scaled) <==> lighter(b, a),
        balanced(scaled, b) <==> balanced(a, b),
{
    let (ca, wa) = (a.conns as int, a.weight as int);
    let (cb, wb) = (b.conns as int, b.weight as int);
    assert((k * ca) * wa == ca * (k * wa)) by (nonlinear_arith);
    assert((k * ca) * wb == k * (ca * wb)) by (nonlinear_arith);
    assert(cb * (k * wa) == k * (cb * wa)) by (nonlinear_arith);
    let x = ca * wb;
    let y = cb * wa;
    assert((k * x < k * y <==> x < y) && (k * y < k * x <==> y < x) && (k * x == k * y <==> x == y))
        by (nonlinear_arith)
        requires
            k > 0,
    ;
}

/// The peer that is picked has not been tried, is not down, has fewer
/// connections than it may have, and has not failed too often too short a time
/// ago.
pub proof fn law_choice_is_fit(tried: Seq<usize>, peers: Seq<Peer>, now: i64)
    ensures
        choice(tried, peers, now) matches Some(k) ==> {
            &&& 0 <= k < peers.len()
            &&& !is_tried(tried, k)
            &&& peers[k].down == 0
            &&& peers[k].max_conns == 0 || peers[k].conns < peers[k].max_conns
            &&& peers[k].max_fails == 0 || peers[k].fails < peers[k].max_fails || now
                - peers[k].checked > peers[k].fail_timeout
        },
{
    law_choice_is_available(tried, peers, now);
}

/// With positive weights, the peer that is picked has the lowest quotient of
/// connections and configured weight of all that are available: no other one's
/// connections times its weight are fewer than its own times the other's.
pub proof fn law_choice_has_lowest_quotient(tried: Seq<usize>, peers: Seq<Peer>, now: i64, j: int)
    requires
        weights_positive(peers),
        0 <= j < peers.len(),
        available(tried, peers[j], j, now),
    ensures
        choice(tried, peers, now) matches Some(k) && 0 <= k < peers.len() && peers[k].conns
            * peers[j].weight <= peers[j].conns * peers[k].weight,
{
    law_least_conn(tried, peers, now, j);
    law_choice_is_available(tried, peers, now);
}

/// The peer that is picked, and any other that is available and has the same
/// quotient, take part in a round.
proof fn lemma_tied(tried: Seq<usize>, peers: Seq<Peer>, now: i64, j: int)
    requires
        weights_positive(peers),
        choice(tried, peers, now) is Some,
        0 <= j < peers.len(),
        available(tried, peers[j], j, now),
        ({
            let k = choice(tried, peers, now)->0;
            peers[k].conns * peers[j].weight == peers[j].conns * peers[k].weight
        }),
    ensures
        ({
            let n = peers.len() as int;
            let (best, many) = lightest(tried, peers, n, now);
            let k = choice(tried, peers, now)->0;
            &&& best is Some
            &&& ties(tried, peers, best->0, j, now)
            &&& ties(tried, peers, best->0, k, now)
            &&& 0 <= k < n
            &&& j != k ==> many && k == leader(tried, peers, best->0, n, now)
        }),
{
    let n = peers.len() as int;
    let k = choice(tried, peers, now)->0;
    law_lightest_is_first_minimum(tried, peers, n, now);
    lemma_lightest_bounds(tried, peers, n, now);
    law_choice_is_available(tried, peers, now);
    let (best, many) = lightest(tried, peers, n, now);
    let b = best->0;
    if many {
        lemma_leader_bounds(tried, peers, b, n, now);
    }
    assert(ties(tried, peers, b, k, now));
    assert(balanced(load_of(peers[j]), load_of(peers[k])));
    lemma_lighter_transitive(load_of(peers[j]), load_of(peers[k]), load_of(peers[b]));
    assert(balanced(load_of(peers[j]), load_of(peers[b])));
    if j < b {
        assert(lighter(load_of(peers[b]), load_of(peers[j])));
    }
    if j != k {
        if j == b {
            assert(available(tried, peers[k], k, now));
        } else {
            assert(available(tried, peers[j], j, now));
        }
    }
}

/// With positive weights, of all available peers with the lowest quotient the
/// one that is picked stands highest: no other's current and effective weight
/// together are more, nor as much if it comes earlier.
pub proof fn law_choice_stands_highest(tried: Seq<usize>, peers: Seq<Peer>, now: i64, j: int)
    requires
        weights_positive(peers),
        choice(tried, peers, now) is Some,
        0 <= j < peers.len(),
        available(tried, peers[j], j, now),
        ({
            let k = choice(tried, peers, now)->0;
            peers[k].conns * peers[j].weight == peers[j].conns * peers[k].weight
        }),
    ensures
        ({
            let p = peers[choice(tried, peers, now)->0];
            let q = peers[j];
            &&& q.current_weight + q.effective_weight <= p.current_weight + p.effective_weight
            &&& j < choice(tried, peers, now)->0 ==> q.current_weight + q.effective_weight
                < p.current_weight + p.effective_weight
        }),
{
    let n = peers.len() as int;
    let k = choice(tried, peers, now)->0;
    lemma_tied(tried, peers, now, j);
    if j != k {
        let b = lightest(tried, peers, n, now).0->0;
        lemma_lightest_bounds(tried, peers, n, now);
        assert(ties(tried, peers, b, b, now));
        law_leader_has_highest_credit(tried, peers, b, n, now);
    }
}

/// Where the peer that is picked was not the only one with the lowest quotient,
/// each of them gets its effective weight added to its current one, which only
/// the one that is picked pays for, and each whose effective weight is below the
/// configured one gets one more of it, whatever it had.
pub proof fn law_round_pays_the_tied(
    tried: Seq<usize>,
    peers: Seq<Peer>,
    now: i64,
    i: int,
    other: int,
)
    requires
        choice_fits(tried, peers, now),
        weights_positive(peers),
        choice(tried, peers, now) is Some,
        0 <= i < peers.len(),
        available(tried, peers[i], i, now),
        0 <= other < peers.len(),
        available(tried, peers[other], other, now),
        ({
            let k = choice(tried, peers, now)->0;
            &&& peers[k].conns * peers[i].weight == peers[i].conns * peers[k].weight
            &&& peers[k].conns * peers[other].weight == peers[other].conns * peers[k].weight
            &&& other != k
        }),
    ensures
        ({
            let k = choice(tried, peers, now)->0;
            let p = peers[i];
            let q = after_choice(tried, peers, k, now)[i];
            &&& i != k ==> q.current_weight == p.current_weight + p.effective_weight
            &&& p.effective_weight < p.weight ==> q.effective_weight == p.effective_weight + 1
            &&& p.effective_weight >= p.weight ==> q.effective_weight == p.effective_weight
        }),
{
    let n = peers.len() as int;
    lemma_tied(tried, peers, now, i);
    lemma_tied(tried, peers, now, other);
    let b = lightest(tried, peers, n, now).0->0;
    assert(ties(tried, peers, b, i, now) ==> isize::MIN <= credit(peers[i]) <= isize::MAX);
}

/// A choice leaves the weights of every peer alone that is not available or has
/// not the lowest quotient; where the peer that is picked was the only one with
/// it, it leaves all weights alone.
pub proof fn law_other_weights_stay(tried: Seq<usize>, peers: Seq<Peer>, now: i64, i: int)
    requires
        weights_positive(peers),
        choice(tried, peers, now) is Some,
        0 <= i < peers.len(),
        ({
            let k = choice(tried, peers, now)->0;
            ||| !available(tried, peers[i], i, now)
            ||| peers[k].conns * peers[i].weight != peers[i].conns * peers[k].weight
            ||| forall|j: int|
                0 <= j < peers.len() && j != k && available(tried, #[trigger] peers[j], j, now)
                    ==> peers[k].conns * peers[j].weight != peers[j].conns * peers[k].weight
        }),
    ensures
        ({
            let k = choice(tried, peers, now)->0;
            let q = after_choice(tried, peers, k, now)[i];
            &&& q.current_weight == peers[i].current_weight
            &&& q.effective_weight == peers[i].effective_weight
        }),
{
    let n = peers.len() as int;
    let k = choice(tried, peers, now)->0;
    law_choice_is_available(tried, peers, now);
    law_lightest_is_first_minimum(tried, peers, n, now);
    lemma_lightest_bounds(tried, peers, n, now);
    let (best, many) = lightest(tried, peers, n, now);
    let b = best->0;
    if many {
        lemma_leader_bounds(tried, peers, b, n, now);
        assert(ties(tried, peers, b, k, now));
        if ties(tried, peers, b, i, now) {
            lemma_lighter_transitive(load_of(peers[i]), load_of(peers[b]), load_of(peers[k]));
            assert(balanced(load_of(peers[i]), load_of(peers[k])));
            // Another one has the quotient too.
            let j = choose|j: int|
                0 <= j < n && j != b && available(tried, #[trigger] peers[j], j, now) && balanced(
                    load_of(peers[j]),
                    load_of(peers[b]),
                );
            lemma_lighter_transitive(load_of(peers[j]), load_of(peers[b]), load_of(peers[k]));
            assert(balanced(load_of(peers[j]), load_of(peers[k])));
            if j == k {
                assert(available(tried, peers[b], b, now));
                assert(balanced(load_of(peers[b]), load_of(peers[k])));
            } else {
                assert(available(tried, peers[j], j, now));
            }
            assert(false);
        }
    }
}

/// A list of another generation ends the search with nothing taken, and the
/// request as it was.
pub proof fn law_stale_list_ends_the_search(
    rrp: PeerDataView,
    lists: Seq<PeersView>,
    l: int,
    now: i64,
)
    requires
        0 <= l < lists.len(),
        lists[l].config matches Some(generation) && generation != rrp.config,
    ensures
        journey(rrp, lists, l, now).taken is None,
        journey(rrp, lists, l, now).rrp == rrp,
{
}

proof fn lemma_handed_out_bound(
    tried: Seq<usize>,
    peers: Seq<Peer>,
    b: int,
    m: int,
    now: i64,
    bound: int,
)
    requires
        0 <= b <= m <= peers.len(),
        forall|i: int|
            0 <= i < peers.len() ==> -bound <= (#[trigger] peers[i]).effective_weight <= bound,
        0 <= bound,
    ensures
        -((m - b) * bound) <= handed_out(tried, peers, b, m, now) <= (m - b) * bound,
    decreases m - b,
{
    if m > b {
        lemma_handed_out_bound(tried, peers, b, m - 1, now, bound);
        assert(-bound <= peers[m - 1].effective_weight <= bound);
        assert((m - b) * bound == (m - 1 - b) * bound + bound) by (nonlinear_arith);
    }
}

/// A choice can be made from a list as long as the bitmap reaches, no count is
/// full, no clock is out of range, and no weight is so large that all of them
/// together would be.
pub proof fn law_ordinary_lists_can_be_chosen_from(
    tried: Seq<usize>,
    peers: Seq<Peer>,
    now: i64,
    bound: int,
)
    requires
        covers(tried, peers.len() as int),
        0 <= bound,
        (peers.len() + 2) * bound <= isize::MAX,
        forall|i: int|
            0 <= i < peers.len() ==> {
                &&& (#[trigger] peers[i]).conns < usize::MAX
                &&& peers[i].refs < usize::MAX
                &&& i64::MIN <= now - peers[i].checked <= i64::MAX
                &&& -bound <= peers[i].effective_weight <= bound
                &&& -bound <= peers[i].current_weight <= bound
            },
    ensures
        choice_fits(tried, peers, now),
{
    let n = peers.len() as int;
    lemma_lightest_bounds(tried, peers, n, now);
    law_choice_is_available(tried, peers, now);
    if let (Some(b), true) = lightest(tried, peers, n, now) {
        lemma_leader_bounds(tried, peers, b, n, now);
        assert((n + 2) * bound == n * bound + 2 * bound) by (nonlinear_arith);
        assert(n * bound >= 0) by (nonlinear_arith)
            requires
                n >= 0,
                bound >= 0,
        ;
        assert forall|m: int| b <= m <= n implies -(n * bound) <= #[trigger] handed_out(
            tried,
            peers,
            b,
            m,
            now,
        ) <= n * bound by {
            lemma_handed_out_bound(tried, peers, b, m, now, bound);
            assert((m - b) * bound <= n * bound) by (nonlinear_arith)
                requires
                    m - b <= n,
                    bound >= 0,
            ;
        }
        let k = leader(tried, peers, b, n, now);
        assert(-bound <= peers[k].current_weight <= bound);
        assert forall|i: int| #[trigger] ties(tried, peers, b, i, now) implies isize::MIN <= credit(
            peers[i],
        ) <= isize::MAX by {
            assert(-bound <= peers[i].current_weight <= bound);
        }
    }
}

/// Where the search takes a peer, the list it ends on is not stale, it is the
/// policy's choice there, and that choice can be made.
proof fn lemma_journey_taken(rrp: PeerDataView, lists: Seq<PeersView>, l: int, now: i64)
    requires
        0 <= l < lists.len() <= usize::MAX,
        rrp.peers == Some(l as usize),
        journey_fits(rrp, lists, l, now),
        journey(rrp, lists, l, now).taken is Some,
    ensures
        ({
            let end = journey(rrp, lists, l, now);
            let m = end.rrp.peers->0 as int;
            &&& end.rrp.peers is Some
            &&& l <= m < lists.len()
            &&& !mismatched(rrp.config, lists[m].config)
            &&& choice(end.rrp.tried, lists[m].peers, now) == end.taken
            &&& choice_fits(end.rrp.tried, lists[m].peers, now)
            &&& end.rrp.config == rrp.config
            &&& end.rrp.current == rrp.current
        }),
    decreases lists.len() - l,
{
    if choice(rrp.tried, lists[l].peers, now) is None && l + 1 < lists.len() {
        lemma_journey_taken(moved_to(rrp, next_of(lists, l)), lists, l + 1, now);
    }
}

/// A request that gets a peer gets one of a list that is not stale, on its own
/// list or a later one. The connection is headed for the peer's address under
/// its name and reuses no other connection; the peer has one connection and one
/// reference more; the request is on the peer's list, with the peer as its
/// current one, and will not be given it again. No other list and no other
/// peer's count has changed.
pub proof fn law_got_a_peer(
    pc: PeerConnectionView,
    rrp: PeerDataView,
    lists: Seq<PeersView>,
    now: i64,
    pc_after: PeerConnectionView,
    rrp_after: PeerDataView,
    lists_after: Seq<PeersView>,
    q: int,
    i: int,
)
    requires
        got(pc, rrp, lists, now, GetStatus::Selected, pc_after, rrp_after, lists_after),
        rrp.peers matches Some(l) ==> l < lists.len() && journey_fits(rrp, lists, l as int, now),
        lists.len() <= usize::MAX,
        forall|j: int| 0 <= j < lists.len() ==> (#[trigger] lists[j]).peers.len() <= usize::MAX,
        0 <= q < lists.len(),
        0 <= i < lists[q].peers.len(),
    ensures
        ({
            let m = rrp_after.current->0.list as int;
            let k = rrp_after.current->0.index as int;
            let p = lists[m].peers[k];
            &&& rrp.peers is Some
            &&& !lists[rrp.peers->0 as int].single
            &&& rrp_after.current is Some
            &&& rrp.peers->0 <= m < lists.len()
            &&& 0 <= k < lists[m].peers.len()
            &&& lists[m].config is None || lists[m].config->0 == rrp.config
            &&& p.down == 0
            &&& p.max_conns == 0 || p.conns < p.max_conns
            &&& p.max_fails == 0 || p.fails < p.max_fails || now - p.checked > p.fail_timeout
            &&& pc_after.sockaddr == contents(p.sockaddr)
            &&& pc_after.name == Some(p.name@)
            &&& !pc_after.cached
            &&& pc_after.connection is None
            &&& rrp_after.peers == Some(m as usize)
            &&& rrp_after.config == rrp.config
            &&& is_tried(rrp_after.tried, k)
            &&& lists_after.len() == lists.len()
            &&& lists_after[q].peers.len() == lists[q].peers.len()
            &&& q != m ==> lists_after[q] == lists[q]
            &&& lists_after[q].peers[i].conns == lists[q].peers[i].conns + if q == m && i == k {
                1int
            } else {
                0
            }
            &&& lists_after[q].peers[i].refs == lists[q].peers[i].refs + if q == m && i == k {
                1int
            } else {
                0
            }
        }),
{
    let l = rrp.peers->0 as int;
    lemma_journey_taken(rrp, lists, l, now);
    let end = journey(rrp, lists, l, now);
    let m = end.rrp.peers->0 as int;
    let k = end.taken->0;
    assert(lists[m].peers.len() <= usize::MAX);
    law_choice_is_fit(end.rrp.tried, lists[m].peers, now);
    lemma_with_tried(end.rrp.tried, k, k);
    if q == m {
        law_choice_counts_once(end.rrp.tried, lists[m].peers, now, i);
    }
}

/// A request that gets no peer leaves every list as it was, and the connection
/// without one to reuse; it takes the name of the list that the request was on,
/// if it was on one.
pub proof fn law_got_no_peer(
    pc: PeerConnectionView,
    rrp: PeerDataView,
    lists: Seq<PeersView>,
    now: i64,
    pc_after: PeerConnectionView,
    rrp_after: PeerDataView,
    lists_after: Seq<PeersView>,
)
    requires
        got(pc, rrp, lists, now, GetStatus::Busy, pc_after, rrp_after, lists_after),
        rrp.peers matches Some(l) ==> l < lists.len(),
        lists.len() <= usize::MAX,
    ensures
        lists_after == lists,
        !pc_after.cached,
        pc_after.connection is None,
        pc_after.sockaddr == pc.sockaddr,
        rrp.peers is None ==> pc_after.name == pc.name && rrp_after == rrp,
        rrp.peers matches Some(l) ==> pc_after.name == lists[l as int].name,
        rrp_after.config == rrp.config,
        rrp_after.current == rrp.current,
{
    if let Some(l) = rrp.peers {
        lemma_journey_list(rrp, lists, l as int, now);
        lemma_journey_current(rrp, lists, l as int, now);
    }
}

proof fn lemma_journey_current(rrp: PeerDataView, lists: Seq<PeersView>, l: int, now: i64)
    ensures
        journey(rrp, lists, l, now).rrp.current == rrp.current,
    decreases lists.len() - l,
{
    if 0 <= l < lists.len() && !mismatched(rrp.config, lists[l].config) && choice(
        rrp.tried,
        lists[l].peers,
        now,
    ) is None && l + 1 < lists.len() {
        lemma_journey_current(moved_to(rrp, next_of(lists, l)), lists, l + 1, now);
    }
}

/// A request is left to the host's round-robin exactly when it is on the list of
/// a single server, and then nothing changes.
pub proof fn law_single_servers_are_left_to_the_host(
    pc: PeerConnectionView,
    rrp: PeerDataView,
    lists: Seq<PeersView>,
    now: i64,
    status: GetStatus,
    pc_after: PeerConnectionView,
    rrp_after: PeerDataView,
    lists_after: Seq<PeersView>,
)
    requires
        got(pc, rrp, lists, now, status, pc_after, rrp_after, lists_after),
    ensures
        status == GetStatus::RoundRobin <==> rrp.peers is Some
            && lists[rrp.peers->0 as int].single,
        status == GetStatus::RoundRobin ==> pc_after == pc && rrp_after == rrp && lists_after
            == lists,
{
}

} // verus!
