//! What weighted round-robin gives its participants over many rounds.
use vstd::prelude::*;

use super::laws::law_leader_has_highest_credit;
use super::{
    after_round, choice, credit, handed_out, leader, lemma_leader_bounds, lemma_lightest_bounds,
    lightest, load_of, round_fits, ties, weighed,
};
use crate::peer::{available, Peer};

verus! {

/// The list after `t` rounds among the peers as light as the one at `b`.
pub open spec fn rounds(tried: Seq<usize>, peers: Seq<Peer>, b: int, now: i64, t: nat) -> Seq<Peer>
    decreases t,
{
    if t == 0 {
        peers
    } else {
        after_round(tried, rounds(tried, peers, b, now, (t - 1) as nat), b, now)
    }
}

/// The leader of round `t`, counted from 0.
pub open spec fn leader_of_round(
    tried: Seq<usize>,
    peers: Seq<Peer>,
    b: int,
    now: i64,
    t: nat,
) -> int {
    leader(tried, rounds(tried, peers, b, now, t), b, peers.len() as int, now)
}

/// How many of the first `t` rounds the peer at `i` has led.
pub open spec fn led(
    tried: Seq<usize>,
    peers: Seq<Peer>,
    b: int,
    now: i64,
    t: nat,
    i: int,
) -> int
    decreases t,
{
    if t == 0 {
        0
    } else {
        led(tried, peers, b, now, (t - 1) as nat, i) + if leader_of_round(
            tried,
            peers,
            b,
            now,
            (t - 1) as nat,
        ) == i {
            1int
        } else {
            0
        }
    }
}

/// Everyone who takes part starts without credit and at full weight.
pub open spec fn rested(tried: Seq<usize>, peers: Seq<Peer>, b: int, now: i64) -> bool {
    &&& ties(tried, peers, b, b, now)
    &&& forall|i: int| #[trigger]
        ties(tried, peers, b, i, now) ==> {
            &&& peers[i].weight > 0
            &&& peers[i].effective_weight == peers[i].weight
            &&& peers[i].current_weight == 0
        }
}

/// The sum of `f` over those who take part before position `n`.
spec fn tie_sum(
    tried: Seq<usize>,
    peers: Seq<Peer>,
    b: int,
    n: int,
    now: i64,
    f: spec_fn(int) -> int,
) -> int
    decreases n - b,
{
    if n <= b {
        0
    } else {
        tie_sum(tried, peers, b, n - 1, now, f) + if ties(tried, peers, b, n - 1, now) {
            f(n - 1)
        } else {
            0
        }
    }
}

proof fn lemma_tie_sum_linear(
    tried: Seq<usize>,
    peers: Seq<Peer>,
    b: int,
    n: int,
    now: i64,
    f: spec_fn(int) -> int,
    g: spec_fn(int) -> int,
    h: spec_fn(int) -> int,
)
    requires
        forall|i: int| b <= i < n && #[trigger] ties(tried, peers, b, i, now) ==> h(i) == f(i) + g(i),
    ensures
        tie_sum(tried, peers, b, n, now, h) == tie_sum(tried, peers, b, n, now, f) + tie_sum(
            tried,
            peers,
            b,
            n,
            now,
            g,
        ),
    decreases n - b,
{
    if n > b {
        lemma_tie_sum_linear(tried, peers, b, n - 1, now, f, g, h);
        assert(ties(tried, peers, b, n - 1, now) ==> h(n - 1) == f(n - 1) + g(n - 1));
    }
}

/// A sum of numbers none of which is positive is not positive; where it is
/// zero, so is each of them.
proof fn lemma_tie_sum_sign(
    tried: Seq<usize>,
    peers: Seq<Peer>,
    b: int,
    n: int,
    now: i64,
    f: spec_fn(int) -> int,
)
    requires
        forall|i: int| b <= i < n && #[trigger] ties(tried, peers, b, i, now) ==> f(i) <= 0,
    ensures
        tie_sum(tried, peers, b, n, now, f) <= 0,
        tie_sum(tried, peers, b, n, now, f) == 0 ==> forall|i: int|
            b <= i < n && #[trigger] ties(tried, peers, b, i, now) ==> f(i) == 0,
    decreases n - b,
{
    if n > b {
        lemma_tie_sum_sign(tried, peers, b, n - 1, now, f);
        assert(ties(tried, peers, b, n - 1, now) ==> f(n - 1) <= 0);
    }
}

proof fn lemma_tie_sum_of_one(
    tried: Seq<usize>,
    peers: Seq<Peer>,
    b: int,
    n: int,
    now: i64,
    k: int,
    x: int,
)
    requires
        ties(tried, peers, b, k, now),
    ensures
        tie_sum(
            tried,
            peers,
            b,
            n,
            now,
            |i: int|
                if i == k {
                    x
                } else {
                    0
                },
        ) == if k < n {
            x
        } else {
            0
        },
    decreases n - b,
{
    if n > b {
        lemma_tie_sum_of_one(tried, peers, b, n - 1, now, k, x);
    }
}

proof fn lemma_handed_out_is_sum(tried: Seq<usize>, peers: Seq<Peer>, b: int, n: int, now: i64)
    ensures
        handed_out(tried, peers, b, n, now) == tie_sum(
            tried,
            peers,
            b,
            n,
            now,
            |i: int| peers[i].effective_weight as int,
        ),
    decreases n - b,
{
    if n > b {
        lemma_handed_out_is_sum(tried, peers, b, n - 1, now);
    }
}

proof fn lemma_handed_out_stable(
    tried: Seq<usize>,
    peers: Seq<Peer>,
    other: Seq<Peer>,
    b: int,
    n: int,
    now: i64,
)
    requires
        forall|i: int| ties(tried, other, b, i, now) == ties(tried, peers, b, i, now),
        forall|i: int| #[trigger]
            ties(tried, peers, b, i, now) ==> other[i].effective_weight == peers[i].effective_weight,
    ensures
        handed_out(tried, other, b, n, now) == handed_out(tried, peers, b, n, now),
    decreases n - b,
{
    if n > b {
        lemma_handed_out_stable(tried, peers, other, b, n - 1, now);
        assert(ties(tried, other, b, n - 1, now) == ties(tried, peers, b, n - 1, now));
    }
}

/// Each weight is no more than all of them together.
proof fn lemma_share(tried: Seq<usize>, peers: Seq<Peer>, b: int, n: int, now: i64, i: int)
    requires
        rested(tried, peers, b, now),
        b <= i < n,
        ties(tried, peers, b, i, now),
    ensures
        0 < peers[i].weight <= handed_out(tried, peers, b, n, now),
    decreases n - b,
{
    if i < n - 1 {
        lemma_share(tried, peers, b, n - 1, now, i);
        assert(ties(tried, peers, b, n - 1, now) ==> peers[n - 1].effective_weight > 0);
    } else {
        lemma_handed_out_positive(tried, peers, b, n - 1, now);
    }
}

proof fn lemma_handed_out_positive(tried: Seq<usize>, peers: Seq<Peer>, b: int, n: int, now: i64)
    requires
        rested(tried, peers, b, now),
    ensures
        0 <= handed_out(tried, peers, b, n, now),
    decreases n - b,
{
    if n > b {
        lemma_handed_out_positive(tried, peers, b, n - 1, now);
        assert(ties(tried, peers, b, n - 1, now) ==> peers[n - 1].effective_weight > 0);
    }
}

/// The state after `t` rounds of a cycle.
spec fn on_course(tried: Seq<usize>, peers: Seq<Peer>, b: int, now: i64, t: nat) -> bool {
    let n = peers.len() as int;
    let total = handed_out(tried, peers, b, n, now);
    let p = rounds(tried, peers, b, now, t);
    &&& p.len() == n
    &&& forall|i: int|
        0 <= i < n ==> #[trigger] p[i] == (Peer { current_weight: p[i].current_weight, ..peers[i] })
    &&& forall|i: int|
        0 <= i < n && !#[trigger] ties(tried, peers, b, i, now) ==> p[i] == peers[i]
    &&& forall|i: int| #[trigger]
        ties(tried, peers, b, i, now) ==> {
            &&& p[i].current_weight == t * peers[i].weight - total * led(
                tried,
                peers,
                b,
                now,
                t,
                i,
            )
            &&& p[i].current_weight > -total
            &&& led(tried, peers, b, now, t, i) >= 0
        }
    &&& tie_sum(tried, peers, b, n, now, |i: int| p[i].current_weight as int) == 0
    &&& tie_sum(tried, peers, b, n, now, |i: int| led(tried, peers, b, now, t, i)) == t
}

proof fn lemma_ties_stable(tried: Seq<usize>, peers: Seq<Peer>, p: Seq<Peer>, b: int, now: i64)
    requires
        0 <= b < peers.len(),
        p.len() == peers.len(),
        forall|i: int|
            0 <= i < p.len() ==> #[trigger] p[i] == (Peer {
                current_weight: p[i].current_weight,
                ..peers[i]
            }),
    ensures
        forall|i: int| ties(tried, p, b, i, now) == ties(tried, peers, b, i, now),
{
    assert forall|i: int| ties(tried, p, b, i, now) == ties(tried, peers, b, i, now) by {
        assert(p[b] == (Peer { current_weight: p[b].current_weight, ..peers[b] }));
        if b <= i < p.len() {
            assert(p[i] == (Peer { current_weight: p[i].current_weight, ..peers[i] }));
            assert(load_of(p[i]) == load_of(peers[i]));
            assert(load_of(p[b]) == load_of(peers[b]));
            assert(available(tried, p[i], i, now) == available(tried, peers[i], i, now));
        }
    }
}

proof fn lemma_course_start(tried: Seq<usize>, peers: Seq<Peer>, b: int, now: i64)
    requires
        0 <= b < peers.len(),
        rested(tried, peers, b, now),
    ensures
        on_course(tried, peers, b, now, 0),
{
    let n = peers.len() as int;
    lemma_share(tried, peers, b, n, now, b);
    let f = |i: int| peers[i].current_weight as int;
    let g = |i: int| led(tried, peers, b, now, 0, i);
    lemma_tie_sum_zero(tried, peers, b, n, now, f);
    lemma_tie_sum_zero(tried, peers, b, n, now, g);
    let total = handed_out(tried, peers, b, n, now);
    assert(total * 0 == 0) by (nonlinear_arith);
}

proof fn lemma_tie_sum_zero(
    tried: Seq<usize>,
    peers: Seq<Peer>,
    b: int,
    n: int,
    now: i64,
    f: spec_fn(int) -> int,
)
    requires
        forall|i: int| b <= i < n && #[trigger] ties(tried, peers, b, i, now) ==> f(i) == 0,
    ensures
        tie_sum(tried, peers, b, n, now, f) == 0,
    decreases n - b,
{
    if n > b {
        lemma_tie_sum_zero(tried, peers, b, n - 1, now, f);
        assert(ties(tried, peers, b, n - 1, now) ==> f(n - 1) == 0);
    }
}

proof fn lemma_course_step(tried: Seq<usize>, peers: Seq<Peer>, b: int, now: i64, t: nat)
    requires
        0 <= b < peers.len(),
        rested(tried, peers, b, now),
        on_course(tried, peers, b, now, t),
        round_fits(tried, rounds(tried, peers, b, now, t), b, now),
    ensures
        on_course(tried, peers, b, now, t + 1),
{
    let n = peers.len() as int;
    let total = handed_out(tried, peers, b, n, now);
    let p = rounds(tried, peers, b, now, t);
    let q = rounds(tried, peers, b, now, t + 1);
    let k = leader(tried, p, b, n, now);
    lemma_ties_stable(tried, peers, p, b, now);
    assert forall|i: int| #[trigger] ties(tried, peers, b, i, now) implies p[i].effective_weight
        == peers[i].effective_weight by {
        assert(p[i] == (Peer { current_weight: p[i].current_weight, ..peers[i] }));
    }
    lemma_handed_out_stable(tried, peers, p, b, n, now);
    assert(ties(tried, p, b, b, now));
    lemma_leader_bounds(tried, p, b, n, now);
    law_leader_has_highest_credit(tried, p, b, n, now);
    assert(ties(tried, peers, b, k, now));

    // The leader has credit: together they have as much as was handed out.
    let cw = |i: int| p[i].current_weight as int;
    let ew = |i: int| peers[i].effective_weight as int;
    let cr = |i: int| credit(p[i]);
    lemma_tie_sum_linear(tried, peers, b, n, now, cw, ew, cr);
    lemma_handed_out_is_sum(tried, peers, b, n, now);
    lemma_share(tried, peers, b, n, now, b);
    assert(tie_sum(tried, peers, b, n, now, cr) == total);
    assert(credit(p[k]) > 0) by {
        if credit(p[k]) <= 0 {
            assert forall|i: int| b <= i < n && #[trigger] ties(tried, peers, b, i, now) implies cr(
                i,
            ) <= 0 by {
                assert(ties(tried, p, b, i, now));
            }
            lemma_tie_sum_sign(tried, peers, b, n, now, cr);
        }
    }

    assert forall|i: int| #[trigger] ties(tried, peers, b, i, now) implies {
        &&& p[i].weight == peers[i].weight
        &&& p[i].effective_weight == peers[i].weight
        &&& isize::MIN <= credit(p[i]) <= isize::MAX
        &&& 0 < peers[i].weight
    } by {
        assert(ties(tried, p, b, i, now));
        assert(p[i] == (Peer { current_weight: p[i].current_weight, ..peers[i] }));
    }

    assert forall|i: int| 0 <= i < n implies #[trigger] q[i] == (Peer {
        current_weight: q[i].current_weight,
        ..peers[i]
    }) by {
        assert(p[i] == (Peer { current_weight: p[i].current_weight, ..peers[i] }));
        assert(ties(tried, p, b, i, now) == ties(tried, peers, b, i, now));
    }
    assert forall|i: int| 0 <= i < n && !#[trigger] ties(tried, peers, b, i, now) implies q[i]
        == peers[i] by {
        assert(!ties(tried, p, b, i, now));
    }
    assert forall|i: int| #[trigger] ties(tried, peers, b, i, now) implies {
        &&& q[i].current_weight == p[i].current_weight + peers[i].weight - if i == k {
            total
        } else {
            0
        }
        &&& q[i].current_weight == (t + 1) * peers[i].weight - total * led(
            tried,
            peers,
            b,
            now,
            t + 1,
            i,
        )
        &&& q[i].current_weight > -total
        &&& led(tried, peers, b, now, t + 1, i) >= 0
    } by {
        assert(ties(tried, p, b, i, now));
        let w = peers[i].weight as int;
        let l = led(tried, peers, b, now, t, i);
        assert((t + 1) * w == t * w + w) by (nonlinear_arith);
        assert(total * (l + 1) == total * l + total) by (nonlinear_arith);
    }

    // The credits still sum up to nothing, and one round more has been led.
    let cw2 = |i: int| q[i].current_weight as int;
    let pay = |i: int|
        if i == k {
            -total
        } else {
            0
        };
    lemma_tie_sum_of_one(tried, peers, b, n, now, k, -total);
    lemma_tie_sum_linear(tried, peers, b, n, now, cr, pay, cw2);
    let won = |i: int| led(tried, peers, b, now, t, i);
    let one = |i: int|
        if i == k {
            1int
        } else {
            0
        };
    let won2 = |i: int| led(tried, peers, b, now, t + 1, i);
    lemma_tie_sum_of_one(tried, peers, b, n, now, k, 1);
    lemma_tie_sum_linear(tried, peers, b, n, now, won, one, won2);
}

/// Each of the first `t` rounds stays within the host's integers.
pub open spec fn rounds_fit(
    tried: Seq<usize>,
    peers: Seq<Peer>,
    b: int,
    now: i64,
    t: nat,
) -> bool {
    forall|s: nat|
        s < t ==> round_fits(tried, #[trigger] rounds(tried, peers, b, now, s), b, now)
}

proof fn lemma_course(tried: Seq<usize>, peers: Seq<Peer>, b: int, now: i64, t: nat)
    requires
        0 <= b < peers.len(),
        rested(tried, peers, b, now),
        rounds_fit(tried, peers, b, now, t),
    ensures
        on_course(tried, peers, b, now, t),
    decreases t,
{
    if t == 0 {
        lemma_course_start(tried, peers, b, now);
    } else {
        lemma_course(tried, peers, b, now, (t - 1) as nat);
        lemma_course_step(tried, peers, b, now, (t - 1) as nat);
    }
}

/// A part of what is handed out is no more than all of it.
proof fn lemma_part(tried: Seq<usize>, peers: Seq<Peer>, b: int, m: int, n: int, now: i64)
    requires
        rested(tried, peers, b, now),
        m <= n,
    ensures
        handed_out(tried, peers, b, m, now) <= handed_out(tried, peers, b, n, now),
    decreases n - m,
{
    if m < n {
        lemma_part(tried, peers, b, m, n - 1, now);
        lemma_handed_out_positive(tried, peers, b, n, now);
        assert(ties(tried, peers, b, n - 1, now) ==> peers[n - 1].effective_weight > 0);
    }
}

/// Within a cycle no sum of a round is larger than the square of the weights'
/// sum and that sum together.
proof fn lemma_round_fits(tried: Seq<usize>, peers: Seq<Peer>, b: int, now: i64, t: nat)
    requires
        0 <= b < peers.len(),
        rested(tried, peers, b, now),
        on_course(tried, peers, b, now, t),
        t < handed_out(tried, peers, b, peers.len() as int, now),
        ({
            let total = handed_out(tried, peers, b, peers.len() as int, now);
            total * total + total <= isize::MAX
        }),
    ensures
        round_fits(tried, rounds(tried, peers, b, now, t), b, now),
{
    let n = peers.len() as int;
    let total = handed_out(tried, peers, b, n, now);
    let p = rounds(tried, peers, b, now, t);
    lemma_ties_stable(tried, peers, p, b, now);
    assert forall|i: int| #[trigger] ties(tried, peers, b, i, now) implies p[i].effective_weight
        == peers[i].effective_weight by {
        assert(p[i] == (Peer { current_weight: p[i].current_weight, ..peers[i] }));
    }
    assert(total * total >= total) by (nonlinear_arith)
        requires
            total >= 1,
    ;
    assert forall|i: int| #[trigger] ties(tried, p, b, i, now) implies -total < credit(p[i])
        <= total * total + total by {
        assert(ties(tried, peers, b, i, now));
        lemma_share(tried, peers, b, n, now, i);
        let w = peers[i].weight as int;
        let l = led(tried, peers, b, now, t, i);
        assert(t * w <= total * total) by (nonlinear_arith)
            requires
                0 <= t <= total,
                0 <= w <= total,
        ;
        assert(total * l >= 0) by (nonlinear_arith)
            requires
                total >= 0,
                l >= 0,
        ;
    }
    assert forall|m: int| b <= m <= n implies 0 <= #[trigger] handed_out(tried, p, b, m, now)
        <= total by {
        lemma_handed_out_stable(tried, peers, p, b, m, now);
        lemma_handed_out_positive(tried, peers, b, m, now);
        lemma_part(tried, peers, b, m, n, now);
    }
    assert(ties(tried, p, b, b, now));
    lemma_leader_bounds(tried, p, b, n, now);
}

proof fn lemma_rounds_fit(tried: Seq<usize>, peers: Seq<Peer>, b: int, now: i64, t: nat)
    requires
        0 <= b < peers.len(),
        rested(tried, peers, b, now),
        t <= handed_out(tried, peers, b, peers.len() as int, now),
        ({
            let total = handed_out(tried, peers, b, peers.len() as int, now);
            total * total + total <= isize::MAX
        }),
    ensures
        rounds_fit(tried, peers, b, now, t),
    decreases t,
{
    if t > 0 {
        let s = (t - 1) as nat;
        lemma_rounds_fit(tried, peers, b, now, s);
        lemma_course(tried, peers, b, now, s);
        lemma_round_fits(tried, peers, b, now, s);
    }
}

/// A cycle of rounds stays within the host's integers where the weights are
/// not too large.
pub proof fn law_cycle_fits(tried: Seq<usize>, peers: Seq<Peer>, b: int, now: i64)
    requires
        0 <= b < peers.len(),
        rested(tried, peers, b, now),
        ({
            let total = handed_out(tried, peers, b, peers.len() as int, now);
            total * total + total <= isize::MAX
        }),
    ensures
        rounds_fit(
            tried,
            peers,
            b,
            now,
            handed_out(tried, peers, b, peers.len() as int, now) as nat,
        ),
{
    lemma_handed_out_positive(tried, peers, b, peers.len() as int, now);
    lemma_rounds_fit(
        tried,
        peers,
        b,
        now,
        handed_out(tried, peers, b, peers.len() as int, now) as nat,
    );
}

/// In as many rounds as the weights add up to, everyone who takes part leads
/// exactly as often as its weight says, and the list is then as it was.
pub proof fn law_rounds_follow_weights(tried: Seq<usize>, peers: Seq<Peer>, b: int, now: i64)
    requires
        0 <= b < peers.len(),
        rested(tried, peers, b, now),
        rounds_fit(
            tried,
            peers,
            b,
            now,
            handed_out(tried, peers, b, peers.len() as int, now) as nat,
        ),
    ensures
        ({
            let total = handed_out(tried, peers, b, peers.len() as int, now);
            &&& total > 0
            &&& forall|i: int| #[trigger]
                ties(tried, peers, b, i, now) ==> led(tried, peers, b, now, total as nat, i)
                    == peers[i].weight
            &&& rounds(tried, peers, b, now, total as nat) == peers
        }),
{
    let n = peers.len() as int;
    let total = handed_out(tried, peers, b, n, now);
    lemma_share(tried, peers, b, n, now, b);
    let t = total as nat;
    lemma_course(tried, peers, b, now, t);
    let p = rounds(tried, peers, b, now, t);

    let won = |i: int| led(tried, peers, b, now, t, i);
    let ew = |i: int| peers[i].effective_weight as int;
    let short = |i: int| won(i) - ew(i);
    assert forall|i: int| #[trigger] ties(tried, peers, b, i, now) implies short(i) <= 0 by {
        let w = peers[i].weight as int;
        let l = won(i);
        assert(l <= w) by (nonlinear_arith)
            requires
                total * w - total * l > -total,
                total > 0,
        ;
    }
    lemma_handed_out_is_sum(tried, peers, b, n, now);
    lemma_tie_sum_linear(tried, peers, b, n, now, ew, short, won);
    lemma_tie_sum_sign(tried, peers, b, n, now, short);
    assert forall|i: int| #[trigger] ties(tried, peers, b, i, now) implies led(
        tried,
        peers,
        b,
        now,
        t,
        i,
    ) == peers[i].weight by {
        assert(short(i) == 0);
    }
    assert forall|i: int| 0 <= i < n implies #[trigger] p[i] == peers[i] by {
        assert(p[i] == (Peer { current_weight: p[i].current_weight, ..peers[i] }));
        if ties(tried, peers, b, i, now) {
            assert(p[i].current_weight == 0);
        }
    }
    assert(p =~= peers);
}

proof fn lemma_lightest_stable(
    tried: Seq<usize>,
    peers: Seq<Peer>,
    p: Seq<Peer>,
    n: int,
    now: i64,
)
    requires
        0 <= n <= peers.len(),
        p.len() == peers.len(),
        forall|i: int|
            0 <= i < p.len() ==> #[trigger] p[i] == (Peer {
                current_weight: p[i].current_weight,
                ..peers[i]
            }),
    ensures
        lightest(tried, p, n, now) == lightest(tried, peers, n, now),
    decreases n,
{
    if n > 0 {
        lemma_lightest_stable(tried, peers, p, n - 1, now);
        lemma_lightest_bounds(tried, peers, n - 1, now);
        let i = n - 1;
        assert(p[i] == (Peer { current_weight: p[i].current_weight, ..peers[i] }));
        assert(available(tried, p[i], i, now) == available(tried, peers[i], i, now));
        assert(load_of(p[i]) == load_of(peers[i]));
        if let Some(b) = lightest(tried, peers, i, now).0 {
            assert(p[b] == (Peer { current_weight: p[b].current_weight, ..peers[b] }));
            assert(load_of(p[b]) == load_of(peers[b]));
        }
    }
}

/// While several peers are lightest and their connections stand as they did at
/// first, the choices of the policy are these rounds: the peer that is picked
/// leads the round, and the weights move on to the next one.
pub proof fn law_choices_are_rounds(
    tried: Seq<usize>,
    peers: Seq<Peer>,
    b: int,
    now: i64,
    t: nat,
)
    requires
        lightest(tried, peers, peers.len() as int, now) == (Some(b), true),
        rested(tried, peers, b, now),
        rounds_fit(tried, peers, b, now, t),
    ensures
        ({
            let p = rounds(tried, peers, b, now, t);
            &&& choice(tried, p, now) == Some(leader_of_round(tried, peers, b, now, t))
            &&& weighed(tried, p, now) == rounds(tried, peers, b, now, t + 1)
        }),
{
    let n = peers.len() as int;
    lemma_lightest_bounds(tried, peers, n, now);
    lemma_course(tried, peers, b, now, t);
    lemma_lightest_stable(tried, peers, rounds(tried, peers, b, now, t), n, now);
}

/// Rounds change weights alone.
proof fn lemma_rounds_keep_the_rest(
    tried: Seq<usize>,
    peers: Seq<Peer>,
    b: int,
    now: i64,
    t: nat,
)
    requires
        0 <= b < peers.len(),
    ensures
        rounds(tried, peers, b, now, t).len() == peers.len(),
        forall|i: int|
            0 <= i < peers.len() ==> {
                let p = #[trigger] rounds(tried, peers, b, now, t)[i];
                p == (Peer {
                    current_weight: p.current_weight,
                    effective_weight: p.effective_weight,
                    ..peers[i]
                })
            },
    decreases t,
{
    if t > 0 {
        lemma_rounds_keep_the_rest(tried, peers, b, now, (t - 1) as nat);
        let before = rounds(tried, peers, b, now, (t - 1) as nat);
        assert forall|i: int| 0 <= i < peers.len() implies {
            let p = #[trigger] rounds(tried, peers, b, now, t)[i];
            p == (Peer {
                current_weight: p.current_weight,
                effective_weight: p.effective_weight,
                ..peers[i]
            })
        } by {
            assert(before[i] == (Peer {
                current_weight: before[i].current_weight,
                effective_weight: before[i].effective_weight,
                ..peers[i]
            }));
        }
    }
}

/// Each round brings the effective weight of everyone who takes part one nearer
/// to the configured weight, from wherever it started, until it is there: after
/// `t` rounds it is `t` higher or at full weight. A peer that takes no part
/// stays as it was.
pub proof fn law_effective_weights_recover(
    tried: Seq<usize>,
    peers: Seq<Peer>,
    b: int,
    now: i64,
    t: nat,
    i: int,
)
    requires
        0 <= b < peers.len(),
        0 <= i < peers.len(),
    ensures
        ({
            let p = peers[i];
            let q = rounds(tried, peers, b, now, t)[i];
            if i >= b && available(tried, p, i, now) && p.conns * peers[b].weight == peers[b].conns
                * p.weight {
                &&& p.effective_weight + t <= p.weight ==> q.effective_weight == p.effective_weight
                    + t
                &&& p.effective_weight <= p.weight < p.effective_weight + t ==> q.effective_weight
                    == p.weight
                &&& p.effective_weight > p.weight ==> q.effective_weight == p.effective_weight
            } else {
                q == p
            }
        }),
    decreases t,
{
    if t > 0 {
        let s = (t - 1) as nat;
        law_effective_weights_recover(tried, peers, b, now, s, i);
        lemma_rounds_keep_the_rest(tried, peers, b, now, s);
        let before = rounds(tried, peers, b, now, s);
        assert(before[i] == (Peer {
            current_weight: before[i].current_weight,
            effective_weight: before[i].effective_weight,
            ..peers[i]
        }));
        assert(before[b] == (Peer {
            current_weight: before[b].current_weight,
            effective_weight: before[b].effective_weight,
            ..peers[b]
        }));
        assert(available(tried, before[i], i, now) == available(tried, peers[i], i, now));
        assert(load_of(before[i]) == load_of(peers[i]));
        assert(load_of(before[b]) == load_of(peers[b]));
    }
}

} // verus!
