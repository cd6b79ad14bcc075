//! What the scores are taken of, by the fields of the slots.
use vstd::prelude::*;

use crate::ewma::balance::{counts, ended, folded, recorded};
use crate::ewma::pick::{better, picked, sampled_pick};
use crate::ewma::table::{decayed, elapsed, mean_of, samples, Sample, SlotView};
use crate::ewma::{AvailEntry, EwmaConfigView, EwmaPeerDataView, Host, SlotRef};
use crate::peer::{PeerDataView, PeersView};
use crate::score::Score;

verus! {

/// The milliseconds from `then` to `now`, and none where the clock went back.
pub proof fn law_time_that_has_passed(then: usize, now: usize)
    ensures
        now >= then ==> then + elapsed(then, now) == now,
        now < then ==> elapsed(then, now) == 0,
{
}

/// The score of a slot is what the host's decay makes of the slot's average and
/// the milliseconds since it was last touched. Where there is no slot it is
/// zero.
pub proof fn law_score_is_the_decayed_average<D: Fn(Score, usize) -> Score>(
    decay: D,
    slot: SlotView,
    now: usize,
    score: Score,
)
    ensures
        now >= slot.last_touched_msec ==> (decayed(decay, Some(slot), now, score) <==> call_ensures(
            decay,
            (slot.ewma, (now - slot.last_touched_msec) as usize),
            score,
        )),
        now < slot.last_touched_msec ==> (decayed(decay, Some(slot), now, score) <==> call_ensures(
            decay,
            (slot.ewma, 0usize),
            score,
        )),
        decayed(decay, None, now, score) <==> score.bits == 0,
{
}

/// How many of the first `n` slots something has been recorded in.
pub open spec fn touched(t: Seq<SlotView>, n: int) -> int
    decreases n,
{
    if n <= 0 {
        0
    } else if t[n - 1].last_touched_msec != 0 {
        touched(t, n - 1) + 1
    } else {
        touched(t, n - 1)
    }
}

/// There is one sample for each slot that something has been recorded in, in
/// table order. It carries the slot's average and the milliseconds since the
/// slot was last touched: what reading the slot's score hands to the decay.
pub proof fn law_samples_are_of_the_touched_slots(t: Seq<SlotView>, n: int, now: usize, i: int)
    requires
        0 <= i < n <= t.len(),
    ensures
        samples(t, n, now).len() == touched(t, n),
        0 <= touched(t, i) <= touched(t, n),
        t[i].last_touched_msec != 0 ==> ({
            let s = samples(t, n, now)[touched(t, i)];
            &&& touched(t, i) < touched(t, n)
            &&& s.ewma == t[i].ewma
            &&& now >= t[i].last_touched_msec ==> t[i].last_touched_msec + s.elapsed == now
            &&& now < t[i].last_touched_msec ==> s.elapsed == 0
        }),
    decreases n,
{
    lemma_touched(t, i);
    if i < n - 1 {
        law_samples_are_of_the_touched_slots(t, n - 1, now, i);
    } else {
        lemma_samples_len(t, n - 1, now);
    }
}

proof fn lemma_touched(t: Seq<SlotView>, n: int)
    ensures
        0 <= touched(t, n),
    decreases n,
{
    if n > 0 {
        lemma_touched(t, n - 1);
    }
}

proof fn lemma_samples_len(t: Seq<SlotView>, n: int, now: usize)
    ensures
        samples(t, n, now).len() == touched(t, n),
    decreases n,
{
    if n > 0 {
        lemma_samples_len(t, n - 1, now);
    }
}

/// A sample makes the host's decay the same offer as reading its slot does.
pub proof fn law_sample_decays_to_the_score<D: Fn(Score, usize) -> Score>(
    decay: D,
    t: Seq<SlotView>,
    now: usize,
    i: int,
    score: Score,
)
    requires
        0 <= i < t.len(),
        t[i].last_touched_msec != 0,
    ensures
        ({
            let s = samples(t, t.len() as int, now)[touched(t, i)];
            call_ensures(decay, (s.ewma, s.elapsed), score) <==> decayed(
                decay,
                Some(t[i]),
                now,
                score,
            )
        }),
{
    law_samples_are_of_the_touched_slots(t, t.len() as int, now, i);
    law_score_is_the_decayed_average(decay, t[i], now, score);
}

/// The mean is an answer of the host to one sample for each slot that something
/// has been recorded in; where nothing has been, it is zero and the host is not
/// asked.
pub proof fn law_mean_is_of_the_touched_slots<A: Fn(Vec<Sample>) -> Score>(
    average: A,
    t: Seq<SlotView>,
    now: usize,
    mean: Score,
)
    requires
        mean_of(average, t, now, mean),
    ensures
        touched(t, t.len() as int) == 0 ==> mean.bits == 0,
        touched(t, t.len() as int) > 0 ==> exists|v: Vec<Sample>|
            {
                &&& #[trigger] call_ensures(average, (v,), mean)
                &&& v@.len() == touched(t, t.len() as int)
                &&& forall|i: int|
                    0 <= i < t.len() && (#[trigger] t[i]).last_touched_msec != 0 ==> {
                        let s = v@[touched(t, i)];
                        &&& s.ewma == t[i].ewma
                        &&& now >= t[i].last_touched_msec ==> t[i].last_touched_msec + s.elapsed
                            == now
                        &&& now < t[i].last_touched_msec ==> s.elapsed == 0
                    }
            },
{
    let n = t.len() as int;
    lemma_samples_len(t, n, now);
    if touched(t, n) > 0 {
        let v = choose|v: Vec<Sample>|
            v@ == samples(t, n, now) && #[trigger] call_ensures(average, (v,), mean);
        assert forall|i: int| 0 <= i < t.len() && (#[trigger] t[i]).last_touched_msec != 0 implies {
            let s = v@[touched(t, i)];
            &&& s.ewma == t[i].ewma
            &&& now >= t[i].last_touched_msec ==> t[i].last_touched_msec + s.elapsed == now
            &&& now < t[i].last_touched_msec ==> s.elapsed == 0
        } by {
            law_samples_are_of_the_touched_slots(t, n, now, i);
        }
        assert(call_ensures(average, (v,), mean));
    } else {
        lemma_touched(t, n);
    }
}

proof fn lemma_touched_once(t: Seq<SlotView>, n: int, r: int)
    requires
        0 <= r < t.len(),
        0 <= n <= t.len(),
        t[r].last_touched_msec != 0,
        forall|i: int| 0 <= i < t.len() && i != r ==> (#[trigger] t[i]).last_touched_msec == 0,
    ensures
        touched(t, n) == if r < n {
            1int
        } else {
            0
        },
    decreases n,
{
    if n > 0 {
        lemma_touched_once(t, n - 1, r);
    }
}

/// Where something has been recorded in one slot only, and the host's mean of
/// one sample is what its decay makes of it, the mean is that slot's score.
pub proof fn law_mean_of_one_is_its_score<
    D: Fn(Score, usize) -> Score,
    A: Fn(Vec<Sample>) -> Score,
>(decay: D, average: A, t: Seq<SlotView>, now: usize, r: int, mean: Score)
    requires
        0 <= r < t.len(),
        t[r].last_touched_msec != 0,
        forall|i: int| 0 <= i < t.len() && i != r ==> (#[trigger] t[i]).last_touched_msec == 0,
        mean_of(average, t, now, mean),
        forall|v: Vec<Sample>, m: Score|
            v@.len() == 1 && #[trigger] call_ensures(average, (v,), m) ==> call_ensures(
                decay,
                (v@[0].ewma, v@[0].elapsed),
                m,
            ),
    ensures
        decayed(decay, Some(t[r]), now, mean),
{
    let n = t.len() as int;
    lemma_touched_once(t, n, r);
    lemma_touched_once(t, r, r);
    lemma_samples_len(t, n, now);
    law_sample_decays_to_the_score(decay, t, now, r, mean);
}

/// What reading the score of a candidate may come to: the host's decay of its
/// slot's average over the milliseconds since the slot was last touched, and
/// zero where it has no slot.
pub open spec fn reads_as<D: Fn(Score, usize) -> Score>(
    decay: D,
    t: Seq<SlotView>,
    e: AvailEntry,
    now: usize,
    score: Score,
) -> bool {
    if e.slot is Some && e.slot->0 < t.len() {
        let s = t[e.slot->0 as int];
        exists|td: usize| #[trigger]
            call_ensures(decay, (s.ewma, td), score) && (s.last_touched_msec + td == now || (now
                < s.last_touched_msec && td == 0))
    } else {
        score.bits == 0
    }
}

proof fn lemma_reads_as<D: Fn(Score, usize) -> Score>(
    decay: D,
    t: Seq<SlotView>,
    e: AvailEntry,
    now: usize,
    score: Score,
)
    requires
        decayed(
            decay,
            if e.slot is Some && e.slot->0 < t.len() {
                Some(t[e.slot->0 as int])
            } else {
                None
            },
            now,
            score,
        ),
    ensures
        reads_as(decay, t, e, now, score),
{
    if e.slot is Some && e.slot->0 < t.len() {
        let s = t[e.slot->0 as int];
        law_score_is_the_decayed_average(decay, s, now, score);
        let td = if now >= s.last_touched_msec {
            (now - s.last_touched_msec) as usize
        } else {
            0usize
        };
        assert(call_ensures(decay, (s.ewma, td), score));
    }
}

/// Two draws stand for two distinct candidates, and each is read as of now. The
/// one whose decayed score is at most the other's is picked, the first of them
/// if both are; where either score is not a number, the second is.
pub proof fn law_draws_pick_the_lower_score<D: Fn(Score, usize) -> Score>(
    decay: D,
    cands: Seq<AvailEntry>,
    t: Seq<SlotView>,
    now: usize,
    r1: usize,
    r2: usize,
    score_a: Score,
    score_b: Score,
    pick: (AvailEntry, Score),
)
    requires
        cands.len() >= 2,
        sampled_pick(decay, cands, t, now, r1, r2, score_a, score_b, pick),
    ensures
        ({
            let n = cands.len() as int;
            let i = r1 as int % n;
            let d = r2 as int % (n - 1);
            let j = if d < i {
                d
            } else {
                d + 1
            };
            &&& 0 <= i < n
            &&& 0 <= j < n
            &&& i != j
            &&& reads_as(decay, t, cands[i], now, score_a)
            &&& reads_as(decay, t, cands[j], now, score_b)
            &&& score_a.le(score_b) ==> pick == (cands[i], score_a)
            &&& !score_a.le(score_b) ==> pick == (cands[j], score_b)
            &&& !score_a.nan() && !score_b.nan() ==> pick.1.le(score_a) && pick.1.le(score_b)
        }),
{
    let n = cands.len() as int;
    vstd::arithmetic::div_mod::lemma_mod_bound(r1 as int, n);
    vstd::arithmetic::div_mod::lemma_mod_bound(r2 as int, n - 1);
    let i = r1 as int % n;
    let d = r2 as int % (n - 1);
    let j = if d < i {
        d
    } else {
        d + 1
    };
    lemma_reads_as(decay, t, cands[i], now, score_a);
    lemma_reads_as(decay, t, cands[j], now, score_b);
}

/// Whenever a peer is picked from two or more candidates, it is one of two
/// distinct ones, and its average decayed to now is at most the other's decayed
/// to now, if both are numbers.
pub proof fn law_pick_has_the_lower_score<D, A, G, R>(
    host: Host<D, A, G, R>,
    cands: Seq<AvailEntry>,
    t: Seq<SlotView>,
    now: usize,
    pick: (AvailEntry, Score),
) where
    D: Fn(Score, usize) -> Score,
    A: Fn(Vec<Sample>) -> Score,
    G: Fn(usize) -> bool,
    R: Fn() -> usize,

    requires
        picked(host, cands, t, now, pick),
    ensures
        cands.len() == 1 ==> pick.0 == cands[0] && reads_as(host.decay, t, cands[0], now, pick.1),
        cands.len() >= 2 ==> exists|i: int, j: int, other: Score|
            {
                &&& 0 <= i < cands.len()
                &&& 0 <= j < cands.len()
                &&& i != j
                &&& pick.0 == #[trigger] cands[i]
                &&& reads_as(host.decay, t, cands[i], now, pick.1)
                &&& #[trigger] reads_as(host.decay, t, cands[j], now, other)
                &&& !pick.1.nan() && !other.nan() ==> pick.1.le(other)
            },
{
    if cands.len() == 1 {
        lemma_reads_as(host.decay, t, cands[0], now, pick.1);
    } else if cands.len() >= 2 {
        let (r1, r2, a, b) = choose|r1: usize, r2: usize, a: Score, b: Score|
            {
                &&& call_ensures(host.random, (), r1)
                &&& call_ensures(host.random, (), r2)
                &&& #[trigger] sampled_pick(host.decay, cands, t, now, r1, r2, a, b, pick)
            };
        law_draws_pick_the_lower_score(host.decay, cands, t, now, r1, r2, a, b, pick);
        let n = cands.len() as int;
        let i = r1 as int % n;
        let d = r2 as int % (n - 1);
        let j = if d < i {
            d
        } else {
            d + 1
        };
        if a.le(b) {
            assert(pick.0 == cands[i] && reads_as(host.decay, t, cands[j], now, b));
        } else {
            assert(pick.0 == cands[j] && reads_as(host.decay, t, cands[i], now, a));
        }
    }
}

/// Of two candidates, the one that can only be read as lower is picked,
/// whatever is drawn.
pub proof fn law_faster_of_two_is_picked<D, A, G, R>(
    host: Host<D, A, G, R>,
    cands: Seq<AvailEntry>,
    t: Seq<SlotView>,
    now: usize,
    pick: (AvailEntry, Score),
    fast: int,
) where
    D: Fn(Score, usize) -> Score,
    A: Fn(Vec<Sample>) -> Score,
    G: Fn(usize) -> bool,
    R: Fn() -> usize,

    requires
        cands.len() == 2,
        0 <= fast < 2,
        picked(host, cands, t, now, pick),
        forall|a: Score, b: Score|
            #[trigger] reads_as(host.decay, t, cands[fast], now, a) && #[trigger] reads_as(
                host.decay,
                t,
                cands[1 - fast],
                now,
                b,
            ) ==> a.le(b) && !b.le(a),
    ensures
        pick.0 == cands[fast],
{
    let (r1, r2, a, b) = choose|r1: usize, r2: usize, a: Score, b: Score|
        {
            &&& call_ensures(host.random, (), r1)
            &&& call_ensures(host.random, (), r2)
            &&& #[trigger] sampled_pick(host.decay, cands, t, now, r1, r2, a, b, pick)
        };
    law_draws_pick_the_lower_score(host.decay, cands, t, now, r1, r2, a, b, pick);
    let i = r1 as int % 2;
    if i == fast {
        assert(reads_as(host.decay, t, cands[fast], now, a));
        assert(reads_as(host.decay, t, cands[1 - fast], now, b));
    } else {
        assert(reads_as(host.decay, t, cands[fast], now, b));
        assert(reads_as(host.decay, t, cands[1 - fast], now, a));
    }
}

/// Of two scores the first is taken if it is at most the second, else the
/// second: so the second where either is not a number.
pub proof fn law_second_is_taken_unless_the_first_is_at_most_it(
    a: AvailEntry,
    score_a: Score,
    b: AvailEntry,
    score_b: Score,
)
    ensures
        score_a.le(score_b) ==> better(a, score_a, b, score_b) == (a, score_a),
        !score_a.le(score_b) ==> better(a, score_a, b, score_b) == (b, score_b),
        score_a.nan() || score_b.nan() ==> better(a, score_a, b, score_b) == (b, score_b),
{
}

/// A slot that a round-trip time is folded into gets what the host's blend makes
/// of its old average, the milliseconds since it was last touched, and the whole
/// round-trip time, however long that is. It is as of now and stays the same
/// peer's.
pub proof fn law_whole_round_trip_is_folded_in<B: Fn(Score, usize, usize) -> Score>(
    blend: B,
    before: SlotView,
    rtt: usize,
    now: usize,
    after: SlotView,
)
    requires
        folded(blend, before, rtt, now, after),
    ensures
        now >= before.last_touched_msec ==> call_ensures(
            blend,
            (before.ewma, (now - before.last_touched_msec) as usize, rtt),
            after.ewma,
        ),
        now < before.last_touched_msec ==> call_ensures(
            blend,
            (before.ewma, 0usize, rtt),
            after.ewma,
        ),
        after.last_touched_msec == now,
        after.sockaddr == before.sockaddr,
{
}

/// What an attempt that was picked at `start` may leave in a slot at `now`: the
/// host's blend of the slot's old average, the milliseconds from the slot's last
/// touch to now, and those from the pick to now.
pub open spec fn blended<B: Fn(Score, usize, usize) -> Score>(
    blend: B,
    before: SlotView,
    start: usize,
    now: usize,
    after: SlotView,
) -> bool {
    &&& after.last_touched_msec == now
    &&& after.sockaddr == before.sockaddr
    &&& exists|td: usize, rtt: usize|
        {
            &&& #[trigger] call_ensures(blend, (before.ewma, td, rtt), after.ewma)
            &&& before.last_touched_msec + td == now || (now < before.last_touched_msec && td == 0)
            &&& start + rtt == now || (now < start && rtt == 0)
        }
}

/// Recording an attempt takes the whole time since it was picked, also where
/// that is longer than the time since the slot was last touched, and touches the
/// picked slot of the picked table. A slot that is not there is not recorded in.
pub proof fn law_recording_takes_the_time_since_the_pick<B: Fn(Score, usize, usize) -> Score>(
    blend: B,
    before: EwmaConfigView,
    slot: SlotRef,
    start: usize,
    now: usize,
    after: EwmaConfigView,
)
    requires
        recorded(blend, before, slot, elapsed(start, now), now, after),
    ensures
        slot.is_backup ==> after.primary == before.primary && after.backup.len()
            == before.backup.len(),
        !slot.is_backup ==> after.backup == before.backup && after.primary.len()
            == before.primary.len(),
        slot.is_backup && slot.index < before.backup.len() ==> blended(
            blend,
            before.backup[slot.index as int],
            start,
            now,
            after.backup[slot.index as int],
        ),
        !slot.is_backup && slot.index < before.primary.len() ==> blended(
            blend,
            before.primary[slot.index as int],
            start,
            now,
            after.primary[slot.index as int],
        ),
        slot.is_backup && slot.index >= before.backup.len() ==> after == before,
        !slot.is_backup && slot.index >= before.primary.len() ==> after == before,
{
    let t = before.of(slot.is_backup);
    let i = slot.index as int;
    if i < t.len() {
        let rtt = elapsed(start, now);
        let s = choose|s: SlotView|
            {
                &&& #[trigger] folded(blend, t[i], rtt, now, s)
                &&& after == if slot.is_backup {
                    EwmaConfigView { backup: t.update(i, s), ..before }
                } else {
                    EwmaConfigView { primary: t.update(i, s), ..before }
                }
            };
        law_whole_round_trip_is_folded_in(blend, t[i], rtt, now, s);
        law_time_that_has_passed(start, now);
        let td = if now >= t[i].last_touched_msec {
            (now - t[i].last_touched_msec) as usize
        } else {
            0usize
        };
        assert(call_ensures(blend, (t[i].ewma, td, rtt), s.ewma));
        assert(blended(blend, t[i], start, now, s));
    }
}

/// The end of an attempt counts exactly when a pick is waiting, the bit for
/// failure is not set, the request and the primary list are there, and the list
/// is of the request's generation or has none.
pub proof fn law_attempts_that_count(
    our: EwmaPeerDataView,
    rrp: PeerDataView,
    primary: PeersView,
    state: usize,
)
    ensures
        state & 4 != 0 ==> !counts(our, Some(rrp), Some(primary), state),
        !our.pick_valid ==> !counts(our, Some(rrp), Some(primary), state),
        !counts(our, None, Some(primary), state),
        !counts(our, Some(rrp), None, state),
        primary.config is Some && primary.config->0 != rrp.config ==> !counts(
            our,
            Some(rrp),
            Some(primary),
            state,
        ),
        our.pick_valid && state & 4 == 0 && (primary.config is None || primary.config->0
            == rrp.config) ==> counts(our, Some(rrp), Some(primary), state),
{
}

/// The end of an attempt that did not fail, on lists of the request's
/// generation, leaves in the picked slot the blend of its old average with the
/// whole time since the pick, and touches nothing else. The end of any other
/// attempt changes no table.
pub proof fn law_end_of_an_attempt<B: Fn(Score, usize, usize) -> Score>(
    blend: B,
    our: EwmaPeerDataView,
    rrp: PeerDataView,
    primary: PeersView,
    state: usize,
    now: usize,
    before: EwmaConfigView,
    after: EwmaConfigView,
    is_backup: bool,
    i: int,
)
    requires
        ended(blend, our, Some(rrp), Some(primary), state, now, before, after),
        0 <= i < if is_backup {
            before.backup.len()
        } else {
            before.primary.len()
        },
    ensures
        after.primary.len() == before.primary.len(),
        after.backup.len() == before.backup.len(),
        after.zone == before.zone,
        after.primary_peers == before.primary_peers,
        ({
            let good = our.pick_valid && state & 4 == 0 && (primary.config is None
                || primary.config->0 == rrp.config);
            let here = our.pick_slot == Some(SlotRef { is_backup, index: i as usize }) && i
                <= usize::MAX;
            &&& good && here && is_backup ==> blended(
                blend,
                before.backup[i],
                our.pick_start_msec,
                now,
                after.backup[i],
            )
            &&& good && here && !is_backup ==> blended(
                blend,
                before.primary[i],
                our.pick_start_msec,
                now,
                after.primary[i],
            )
            &&& !(good && here) && is_backup ==> after.backup[i] == before.backup[i]
            &&& !(good && here) && !is_backup ==> after.primary[i] == before.primary[i]
        }),
{
    law_attempts_that_count(our, rrp, primary, state);
    if counts(our, Some(rrp), Some(primary), state) && our.pick_slot is Some {
        let slot = our.pick_slot->0;
        law_recording_takes_the_time_since_the_pick(
            blend,
            before,
            slot,
            our.pick_start_msec,
            now,
            after,
        );
    }
}

/// Without the request's state, without the primary list, or without a picked
/// slot, the end of an attempt changes no table.
pub proof fn law_nothing_to_record<B: Fn(Score, usize, usize) -> Score>(
    blend: B,
    our: EwmaPeerDataView,
    rrp: Option<PeerDataView>,
    primary: Option<PeersView>,
    state: usize,
    now: usize,
    before: EwmaConfigView,
    after: EwmaConfigView,
)
    requires
        ended(blend, our, rrp, primary, state, now, before, after),
        rrp is None || primary is None || our.pick_slot is None,
    ensures
        after == before,
{
}

} // verus!
