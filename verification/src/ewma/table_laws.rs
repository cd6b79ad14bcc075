//! What the tables hold, by their fields.
use vstd::prelude::*;

use crate::bytes::contents;
use crate::config::PolicyImpl;
use crate::ewma::balance::{got, ran, refused, resynced, stepped, turn_on, RunView, Turn};
use crate::ewma::laws::{law_attempt_counts_once, lemma_first_step};
use crate::ewma::pick::{candidates, gathered, offered, pick_fits};
use crate::ewma::setup::{
    built, fresh_config, fresh_data, fresh_table, installed, zone_prefix, zone_room, Sizes,
};
use crate::ewma::slot::{
    blank_indexed, entered, indexed, key_of, keyed, law_keys_tell_addresses_apart, stamp_count,
    stamped_to, IndexPlace, KeyView, SlotTableView,
};
use crate::ewma::table::{
    lemma_slot_before, mean_of, rebuilt, room_granted, room_refused, slot_of, stamped, Sample,
    SlotView,
};
use crate::ewma::{EwmaConfig, EwmaConfigView, EwmaPeerData, EwmaPeerDataView, Host};
use crate::peer::{available, uncached, GetStatus, ListStep, Peer, Peers, PeersView};
use crate::score::Score;
use crate::tried::{covers, is_tried, lemma_with_tried};

verus! {

/// An address finds the first slot that has it, and none if no slot has it. No
/// slot is found without an address, or with an empty one.
pub proof fn law_addresses_find_slots(t: Seq<SlotView>, addr: Option<Seq<u8>>)
    ensures
        addr is None || addr->0.len() == 0 ==> slot_of(t, addr) is None,
        addr is Some && addr->0.len() > 0 ==> match slot_of(t, addr) {
            Some(i) => {
                &&& 0 <= i < t.len()
                &&& t[i].sockaddr == addr
                &&& forall|j: int| 0 <= j < i ==> (#[trigger] t[j]).sockaddr != addr
            },
            None => forall|j: int| 0 <= j < t.len() ==> (#[trigger] t[j]).sockaddr != addr,
        },
{
    lemma_slot_before(t, addr, t.len() as int);
}

/// Stamping gives each slot the address of the peer at its position, if there is
/// one, and changes nothing else.
pub proof fn law_stamping_sets_addresses(t: Seq<SlotView>, peers: Seq<Peer>, i: int)
    requires
        0 <= i < t.len(),
    ensures
        stamped(t, peers).len() == t.len(),
        stamped(t, peers)[i].ewma == t[i].ewma,
        stamped(t, peers)[i].last_touched_msec == t[i].last_touched_msec,
        i < peers.len() ==> stamped(t, peers)[i].sockaddr == contents(peers[i].sockaddr),
        i >= peers.len() ==> stamped(t, peers)[i].sockaddr == t[i].sockaddr,
{
}

/// A rebuilt table has a slot for each peer that the list says it has, with the
/// address of the peer at the same position; slots beyond the peers are blank.
pub proof fn law_rebuilt_tables_follow_the_list(
    old_table: Seq<SlotView>,
    list: PeersView,
    mean: Score,
    now: usize,
    i: int,
)
    requires
        0 <= i < list.number,
    ensures
        ({
            let t = rebuilt(old_table, list, mean, now);
            &&& t.len() == list.number
            &&& i < list.peers.len() ==> t[i].sockaddr == contents(list.peers[i].sockaddr)
            &&& i >= list.peers.len() ==> t[i].sockaddr is None && t[i].ewma.bits == 0
                && t[i].last_touched_msec == 0
        }),
{
    lemma_slot_before(old_table, contents(list.peers[i].sockaddr), old_table.len() as int);
}

/// In a rebuilt table a peer whose address an old slot has keeps the average and
/// the time of the first such slot.
pub proof fn law_rebuilding_keeps_averages(
    old_table: Seq<SlotView>,
    list: PeersView,
    mean: Score,
    now: usize,
    i: int,
    j: int,
)
    requires
        0 <= i < list.number,
        i < list.peers.len(),
        contents(list.peers[i].sockaddr) matches Some(a) && a.len() > 0,
        0 <= j < old_table.len(),
        old_table[j].sockaddr == contents(list.peers[i].sockaddr),
        forall|k: int|
            0 <= k < j ==> (#[trigger] old_table[k]).sockaddr != contents(list.peers[i].sockaddr),
    ensures
        rebuilt(old_table, list, mean, now)[i].ewma == old_table[j].ewma,
        rebuilt(old_table, list, mean, now)[i].last_touched_msec == old_table[j].last_touched_msec,
{
    law_addresses_find_slots(old_table, contents(list.peers[i].sockaddr));
}

/// In a rebuilt table a peer whose address no old slot has starts from the mean
/// as of now if the mean is above zero, and with nothing recorded if it is not.
pub proof fn law_rebuilding_seeds_newcomers(
    old_table: Seq<SlotView>,
    list: PeersView,
    mean: Score,
    now: usize,
    i: int,
)
    requires
        0 <= i < list.number,
        i < list.peers.len(),
        forall|k: int|
            0 <= k < old_table.len() ==> (#[trigger] old_table[k]).sockaddr != contents(
                list.peers[i].sockaddr,
            ),
    ensures
        ({
            let s = rebuilt(old_table, list, mean, now)[i];
            &&& 0 < mean.bits <= 0x7ff0_0000_0000_0000 ==> s.ewma == mean && s.last_touched_msec
                == now
            &&& !(0 < mean.bits <= 0x7ff0_0000_0000_0000) ==> s.ewma.bits == 0
                && s.last_touched_msec == 0
        }),
{
    law_addresses_find_slots(old_table, contents(list.peers[i].sockaddr));
    lemma_slot_before(old_table, contents(list.peers[i].sockaddr), old_table.len() as int);
}

/// Bringing a table up to date takes the mean of that table, replaces it by one
/// for the list, and leaves the other one alone. The primary one is then that
/// list's.
pub proof fn law_resync_replaces_one_table<D, A, G, R>(
    host: Host<D, A, G, R>,
    turn: Turn,
    before: EwmaConfigView,
    list: PeersView,
    after: EwmaConfigView,
) where
    D: Fn(Score, usize) -> Score,
    A: Fn(Vec<Sample>) -> Score,
    G: Fn(usize) -> bool,
    R: Fn() -> usize,

    requires
        resynced(host, turn, before, list, after),
    ensures
        before.zone && after.zone,
        turn.is_backup ==> {
            &&& after.primary == before.primary
            &&& after.primary_peers == before.primary_peers
            &&& after.backup.len() == list.number
            &&& exists|mean: Score| #[trigger]
                mean_of(host.average, before.backup, turn.now_msec, mean) && after.backup
                    == rebuilt(before.backup, list, mean, turn.now_msec)
        },
        !turn.is_backup ==> {
            &&& after.backup == before.backup
            &&& after.primary_peers == Some(turn.list)
            &&& after.primary.len() == list.number
            &&& exists|mean: Score| #[trigger]
                mean_of(host.average, before.primary, turn.now_msec, mean) && after.primary
                    == rebuilt(before.primary, list, mean, turn.now_msec)
        },
{
}

/// Bringing a table up to date is refused only outside a zone, or where the
/// bytes for as many slots as the list has peers are too many or are not
/// granted.
pub proof fn law_refusals_of_resync<D, A, G, R>(
    host: Host<D, A, G, R>,
    cfg: EwmaConfigView,
    list: PeersView,
    bytes: usize,
) where
    D: Fn(Score, usize) -> Score,
    A: Fn(Vec<Sample>) -> Score,
    G: Fn(usize) -> bool,
    R: Fn() -> usize,

    ensures
        !cfg.zone ==> refused(host, cfg, list),
        cfg.zone && list.number == 0 ==> !refused(host, cfg, list),
        cfg.zone && list.number > 0 && bytes == list.number * host.slot_size ==> (refused(
            host,
            cfg,
            list,
        ) <==> call_ensures(host.grant, (bytes,), false)),
{
}

/// Room for slots is asked for by the bytes that they take together, and not at
/// all for none.
pub proof fn law_room_is_asked_for_in_bytes<G: Fn(usize) -> bool>(
    grant: G,
    len: int,
    slot_size: int,
    bytes: usize,
)
    requires
        0 <= len,
        0 <= slot_size,
    ensures
        len == 0 ==> room_granted(grant, len, slot_size) && !room_refused(grant, len, slot_size)
            && zone_room(grant, len, slot_size, true) && !zone_room(grant, len, slot_size, false),
        len > 0 && bytes == len * slot_size ==> {
            &&& room_granted(grant, len, slot_size) <==> call_ensures(grant, (bytes,), true)
            &&& room_refused(grant, len, slot_size) <==> call_ensures(grant, (bytes,), false)
            &&& zone_room(grant, len, slot_size, true) <==> call_ensures(grant, (bytes,), true)
            &&& zone_room(grant, len, slot_size, false) <==> call_ensures(grant, (bytes,), false)
        },
        len > 0 && len * slot_size > usize::MAX ==> {
            &&& !room_granted(grant, len, slot_size)
            &&& room_refused(grant, len, slot_size)
            &&& zone_room(grant, len, slot_size, true) <==> call_ensures(
                grant,
                (usize::MAX,),
                true,
            )
        },
{
}

/// A table that is set up has a slot for each peer that the list says it has,
/// with the address of the peer at its position and nothing recorded.
pub proof fn law_fresh_tables_follow_the_list(list: PeersView, i: int)
    requires
        0 <= i < list.number,
    ensures
        fresh_table(list).len() == list.number,
        fresh_table(list)[i].ewma.bits == 0,
        fresh_table(list)[i].last_touched_msec == 0,
        i < list.peers.len() ==> fresh_table(list)[i].sockaddr == contents(list.peers[i].sockaddr),
        i >= list.peers.len() ==> fresh_table(list)[i].sockaddr is None,
{
}

/// The tables that are set up are those of the first list and of the second, if
/// there is one; the first is the primary one.
pub proof fn law_fresh_config_has_two_tables(lists: Seq<PeersView>, zone: bool)
    requires
        lists.len() > 0,
    ensures
        fresh_config(lists, zone).primary_peers == Some(0usize),
        fresh_config(lists, zone).primary == fresh_table(lists[0]),
        lists.len() == 1 ==> fresh_config(lists, zone).backup.len() == 0,
        lists.len() > 1 ==> fresh_config(lists, zone).backup == fresh_table(lists[1]),
        fresh_config(lists, zone).zone == zone,
{
}

/// A request that is set up waits for nothing, and has room for candidates
/// exactly if there are slots.
pub proof fn law_fresh_data_waits_for_nothing(cap: int)
    ensures
        !fresh_data(cap).pick_valid,
        fresh_data(cap).pick_slot is None,
        fresh_data(cap).pick_start_msec == 0,
        fresh_data(cap).pick_score.bits == 0,
        fresh_data(cap).avail is None <==> cap == 0,
        cap != 0 ==> fresh_data(cap).avail->0.len() == 0,
{
}

/// Where the host refuses nothing and no table is too large, the tables of an
/// upstream with a list are set up, and are given to an upstream of this policy.
pub proof fn law_set_up_succeeds_with_room<G: Fn(usize) -> bool>(
    grant: G,
    lists: Seq<PeersView>,
    zone: bool,
    sizes: Sizes,
    config: Option<EwmaConfigView>,
    before: PolicyImpl,
    ok: bool,
    after: PolicyImpl,
)
    requires
        forall|n: usize| !call_ensures(grant, (n,), false),
        lists.len() > 0,
        forall|l: int|
            0 <= l < lists.len() ==> (#[trigger] lists[l]).number * sizes.slot <= usize::MAX,
    ensures
        built(grant, lists, zone, sizes, config) ==> config is Some,
        installed(grant, lists, zone, sizes, before, ok, after) ==> (ok <==> before is Ewma),
{
    assert(lists[0].number * sizes.slot <= usize::MAX);
    if lists.len() >= 2 {
        assert(lists[1].number * sizes.slot <= usize::MAX);
    }
}

/// What is set up is what the lists say; without a list nothing is, nor where
/// the host refuses the rest of the room.
pub proof fn law_set_up_follows_the_lists<G: Fn(usize) -> bool>(
    grant: G,
    lists: Seq<PeersView>,
    zone: bool,
    sizes: Sizes,
    config: Option<EwmaConfigView>,
)
    requires
        built(grant, lists, zone, sizes, config),
    ensures
        lists.len() == 0 ==> config is None,
        !call_ensures(grant, (sizes.config,), true) ==> config is None,
        config matches Some(cfg) ==> cfg == fresh_config(lists, zone),
{
}

/// What is set up has had its room by the bytes: those of the slots of each of
/// the two tables that has any, and those of the rest.
pub proof fn law_set_up_asks_for_the_bytes<G: Fn(usize) -> bool>(
    grant: G,
    lists: Seq<PeersView>,
    zone: bool,
    sizes: Sizes,
    cfg: EwmaConfigView,
    bytes: usize,
)
    requires
        built(grant, lists, zone, sizes, Some(cfg)),
    ensures
        call_ensures(grant, (sizes.config,), true),
        lists[0].number > 0 && bytes == lists[0].number * sizes.slot ==> call_ensures(
            grant,
            (bytes,),
            true,
        ),
        lists.len() > 1 && lists[1].number > 0 && bytes == lists[1].number * sizes.slot
            ==> call_ensures(grant, (bytes,), true),
        !zone ==> lists[0].number * sizes.slot <= usize::MAX,
        !zone && lists.len() > 1 ==> lists[1].number * sizes.slot <= usize::MAX,
{
    assert(0 * sizes.slot == 0);
}

/// Upstreams of different names have zones of different names.
pub proof fn law_zone_names_differ(a: Seq<u8>, b: Seq<u8>)
    requires
        zone_prefix() + a == zone_prefix() + b,
    ensures
        a == b,
{
    let x = zone_prefix() + a;
    let n = zone_prefix().len() as int;
    assert(x.subrange(n, x.len() as int) =~= a);
    assert(x.subrange(n, x.len() as int) =~= b);
}

/// The candidates that are held are the first ones, as many as there is room
/// for; the data that they are gathered in does not change otherwise.
pub proof fn law_candidates_fill_the_room(
    our: EwmaPeerDataView,
    cap: int,
    tried: Seq<usize>,
    peers: Seq<Peer>,
    t: Seq<SlotView>,
    now: i64,
)
    requires
        0 <= cap,
    ensures
        ({
            let all = candidates(tried, peers, t, peers.len() as int, now);
            let held = offered(our.avail, cap, tried, peers, t, now);
            let after = gathered(our, cap, tried, peers, t, now);
            &&& our.avail is None || cap == 0 ==> held.len() == 0 && after == our
            &&& our.avail is Some && cap > 0 ==> {
                &&& held.len() <= cap
                &&& held.len() == all.len() || (held.len() == cap && cap < all.len())
                &&& forall|c: int| 0 <= c < held.len() ==> held[c] == all[c]
                &&& after.avail == Some(held)
                &&& after.pick_valid == our.pick_valid
                &&& after.pick_slot == our.pick_slot
                &&& after.pick_start_msec == our.pick_start_msec
                &&& after.pick_score == our.pick_score
            }
        }),
{
}

/// There is one candidate for each available peer: it names the peer's position
/// and the slot that the peer's address finds.
pub proof fn law_candidates_name_peers_and_slots(
    tried: Seq<usize>,
    peers: Seq<Peer>,
    t: Seq<SlotView>,
    n: int,
    now: i64,
)
    requires
        0 < n <= peers.len() <= usize::MAX,
        t.len() <= usize::MAX,
    ensures
        ({
            let less = candidates(tried, peers, t, n - 1, now);
            let all = candidates(tried, peers, t, n, now);
            let addr = contents(peers[n - 1].sockaddr);
            &&& !available(tried, peers[n - 1], n - 1, now) ==> all == less
            &&& available(tried, peers[n - 1], n - 1, now) ==> {
                &&& all.len() == less.len() + 1
                &&& forall|c: int| 0 <= c < less.len() ==> all[c] == less[c]
                &&& all.last().peer_index == n - 1
                &&& match all.last().slot {
                    Some(j) => slot_of(t, addr) == Some(j as int),
                    None => slot_of(t, addr) is None,
                }
            }
        }),
        candidates(tried, peers, t, 0, now).len() == 0,
{
    lemma_slot_before(t, contents(peers[n - 1].sockaddr), t.len() as int);
}

/// The peer that an attempt selects has not been tried, is not down, has fewer
/// connections than it may have, and has not failed too often too short a time
/// ago. The connection is headed for its address under its name.
pub proof fn law_selected_peer_is_fit<D, A, G, R>(
    host: Host<D, A, G, R>,
    turn: Turn,
    primary_name: Option<Seq<u8>>,
    before: RunView,
    list: PeersView,
    after: RunView,
    list_after: PeersView,
) where
    D: Fn(Score, usize) -> Score,
    A: Fn(Vec<Sample>) -> Score,
    G: Fn(usize) -> bool,
    R: Fn() -> usize,

    requires
        stepped(
            host,
            turn,
            primary_name,
            before,
            list,
            ListStep::Selected,
            after,
            list_after,
        ),
        covers(before.rrp.tried, list.peers.len() as int),
        0 < list.peers.len() <= usize::MAX,
    ensures
        ({
            let k = after.rrp.current->0.index as int;
            let p = list.peers[k];
            &&& after.rrp.current is Some
            &&& after.rrp.current->0.list == turn.list
            &&& 0 <= k < list.peers.len()
            &&& !is_tried(before.rrp.tried, k)
            &&& is_tried(after.rrp.tried, k)
            &&& p.down == 0
            &&& p.max_conns == 0 || p.conns < p.max_conns
            &&& p.max_fails == 0 || p.fails < p.max_fails || turn.now_sec - p.checked
                > p.fail_timeout
            &&& after.pc.sockaddr == contents(p.sockaddr)
            &&& after.pc.name == Some(p.name@)
            &&& after.pc.cached == before.pc.cached
            &&& after.pc.connection == before.pc.connection
            &&& after.rrp.peers == before.rrp.peers
        }),
{
    law_attempt_counts_once(
        host,
        turn,
        primary_name,
        before,
        list,
        ListStep::Selected,
        after,
        list_after,
        0,
    );
    let k = after.rrp.current->0.index as int;
    lemma_with_tried(before.rrp.tried, k, k);
}

/// An attempt that selects nobody leaves the request without a new peer. It
/// goes on to the next list, which the request has tried nobody of, or else
/// ends under the given name.
pub proof fn law_unselected_attempts<D, A, G, R>(
    host: Host<D, A, G, R>,
    turn: Turn,
    primary_name: Option<Seq<u8>>,
    before: RunView,
    list: PeersView,
    step: ListStep,
    after: RunView,
    list_after: PeersView,
) where
    D: Fn(Score, usize) -> Score,
    A: Fn(Vec<Sample>) -> Score,
    G: Fn(usize) -> bool,
    R: Fn() -> usize,

    requires
        stepped(host, turn, primary_name, before, list, step, after, list_after),
        step != ListStep::Selected,
    ensures
        list_after == list,
        after.rrp.current == before.rrp.current,
        after.pc.sockaddr == before.pc.sockaddr,
        after.pc.cached == before.pc.cached,
        after.our.pick_valid == before.our.pick_valid,
        after.our.pick_slot == before.our.pick_slot,
        after.our.pick_start_msec == before.our.pick_start_msec,
        after.our.pick_score == before.our.pick_score,
        step == ListStep::Backup ==> {
            &&& turn.next is Some
            &&& after.rrp.peers == Some(turn.next->0.list)
            &&& after.pc.name == before.pc.name
        },
        step == ListStep::Busy ==> {
            &&& after.rrp.peers == before.rrp.peers
            &&& after.rrp.tried == before.rrp.tried
            &&& after.pc.name == primary_name
        },
{
}

/// An address can be a key if it is there and has 1 to 128 bytes.
pub proof fn law_keys_have_a_length(addr: Seq<u8>)
    ensures
        !keyed(None),
        keyed(Some(addr)) <==> 1 <= addr.len() <= 128,
        keyed(Some(addr)) ==> key_of(Some(addr)).len == addr.len(),
        keyed(Some(addr)) ==> key_of(Some(addr)).bytes.len() == 128 && key_of(
            Some(addr),
        ).bytes.take(addr.len() as int) == addr,
{
    if keyed(Some(addr)) {
        assert(key_of(Some(addr)).bytes.take(addr.len() as int) =~= addr);
    }
}

/// A slot that has been entered under an address is found by it, and what any
/// other address finds stays as it was. No slot changes. What cannot be entered
/// changes nothing.
pub proof fn law_entered_slots_are_found<G: Fn() -> bool>(
    grant: G,
    before: SlotTableView,
    addr: Option<Seq<u8>>,
    slot: usize,
    ok: bool,
    after: SlotTableView,
    other: Option<Seq<u8>>,
)
    requires
        entered(grant, before, addr, slot, ok, after),
    ensures
        after.slots == before.slots,
        ok ==> after.lookup(addr) == Some(slot),
        other != addr ==> after.lookup(other) == before.lookup(other),
        !ok ==> after == before,
        ok ==> (before.pool is Some || before.slab is Some),
        ok ==> before.lookup(addr) is Some || call_ensures(grant, (), true),
        !ok && keyed(addr) && (before.pool is Some || before.slab is Some) ==> before.lookup(addr)
            is None && call_ensures(grant, (), false),
{
    if ok && keyed(other) {
        law_keys_tell_addresses_apart(addr, other);
    }
}

/// A table with two indexes is looked up in that of the configuration's memory,
/// and one without an index finds nothing.
pub proof fn law_pool_index_comes_first(t: SlotTableView, addr: Option<Seq<u8>>)
    ensures
        t.pool is Some ==> t.lookup(addr) == (SlotTableView { slab: None, ..t }).lookup(addr),
        t.pool is None ==> t.lookup(addr) == (SlotTableView {
            pool: t.slab,
            slab: None,
            ..t
        }).lookup(addr),
        t.pool is None && t.slab is None ==> t.lookup(addr) is None,
        !keyed(addr) ==> t.lookup(addr) is None,
{
}

/// A table that is set up with an index has blank slots and finds nothing yet.
pub proof fn law_blank_indexed_tables(place: IndexPlace, len: int, i: int, addr: Option<Seq<u8>>)
    requires
        0 <= i < len,
    ensures
        blank_indexed(place, len).slots.len() == len,
        blank_indexed(place, len).slots[i].sockaddr is None,
        blank_indexed(place, len).slots[i].ewma.bits == 0,
        blank_indexed(place, len).slots[i].last_touched_msec == 0,
        blank_indexed(place, len).lookup(addr) is None,
        blank_indexed(place, len).pool is Some <==> place == IndexPlace::Pool,
        blank_indexed(place, len).slab is Some <==> place == IndexPlace::Slab,
{
}

/// Stamping a table with an index gives each slot that has a peer at its
/// position that peer's address, for the first `n` peers, and changes no average,
/// no time and no other slot. It stamps a whole table as far as there are slots
/// and peers.
pub proof fn law_indexed_stamping_sets_addresses(
    before: SlotTableView,
    peers: Seq<Peer>,
    n: int,
    e: int,
    i: int,
)
    requires
        0 <= i < before.slots.len(),
        0 <= n <= peers.len(),
    ensures
        ({
            let s = stamped_to(before, peers, n, e).slots;
            &&& s.len() == before.slots.len()
            &&& s[i].ewma == before.slots[i].ewma
            &&& s[i].last_touched_msec == before.slots[i].last_touched_msec
            &&& i < n ==> s[i].sockaddr == contents(peers[i].sockaddr)
            &&& i >= n ==> s[i].sockaddr == before.slots[i].sockaddr
        }),
        ({
            let whole = stamp_count(before, peers);
            &&& whole <= before.slots.len() && whole <= peers.len()
            &&& whole == before.slots.len() || whole == peers.len()
        }),
{
}

/// Entering peers leaves every entry alone whose address none of them has.
pub proof fn law_entering_keeps_other_entries(
    m: Map<KeyView, usize>,
    peers: Seq<Peer>,
    n: int,
    addr: Option<Seq<u8>>,
)
    requires
        0 <= n <= peers.len(),
        keyed(addr),
        forall|i: int|
            0 <= i < n ==> keyed(contents((#[trigger] peers[i]).sockaddr)) && contents(
                peers[i].sockaddr,
            ) != addr,
    ensures
        indexed(m, peers, n).contains_key(key_of(addr)) == m.contains_key(key_of(addr)),
        m.contains_key(key_of(addr)) ==> indexed(m, peers, n)[key_of(addr)] == m[key_of(addr)],
    decreases n,
{
    if n > 0 {
        law_entering_keeps_other_entries(m, peers, n - 1, addr);
        law_keys_tell_addresses_apart(contents(peers[n - 1].sockaddr), addr);
    }
}

/// A list of another generation outside a zone, or in one without room, ends
/// the attempt and changes nothing but the connection's name. On any other list
/// the request goes on with the list's generation.
pub proof fn law_stale_lists_without_room_end_the_attempt<D, A, G, R>(
    host: Host<D, A, G, R>,
    turn: Turn,
    primary_name: Option<Seq<u8>>,
    before: RunView,
    list: PeersView,
    step: ListStep,
    after: RunView,
    list_after: PeersView,
) where
    D: Fn(Score, usize) -> Score,
    A: Fn(Vec<Sample>) -> Score,
    G: Fn(usize) -> bool,
    R: Fn() -> usize,

    requires
        stepped(host, turn, primary_name, before, list, step, after, list_after),
    ensures
        list.config is None || list.config->0 == before.rrp.config ==> {
            &&& after.cfg == before.cfg
            &&& after.rrp.config == before.rrp.config
        },
        list.config is Some && list.config->0 != before.rrp.config ==> {
            &&& !before.cfg.zone ==> step == ListStep::Busy
            &&& after.rrp.config == before.rrp.config ==> {
                &&& step == ListStep::Busy
                &&& after.cfg == before.cfg
                &&& after.our == before.our
                &&& after.rrp == before.rrp
                &&& refused(host, before.cfg, list)
            }
            &&& after.rrp.config != before.rrp.config ==> {
                &&& after.rrp.config == list.config->0
                &&& resynced(host, turn, before.cfg, list, after.cfg)
            }
        },
{
}

/// A call that gives up, for whatever reason, leaves all lists and picks as they
/// were and the connection under the name of the list that it started on.
pub proof fn law_giving_up_takes_the_first_name<D, A, G, R>(
    host: Host<D, A, G, R>,
    start: int,
    now_sec: i64,
    now_msec: usize,
    before: RunView,
    lists: Seq<PeersView>,
    l: int,
    after: RunView,
    lists_after: Seq<PeersView>,
) where
    D: Fn(Score, usize) -> Score,
    A: Fn(Vec<Sample>) -> Score,
    G: Fn(usize) -> bool,
    R: Fn() -> usize,

    requires
        ran(host, start, now_sec, now_msec, before, lists, l, GetStatus::Busy, after, lists_after),
    ensures
        lists_after == lists,
        after.pc.name == lists[start].name,
        after.pc.sockaddr == before.pc.sockaddr,
        after.rrp.current == before.rrp.current,
        after.our.pick_valid == before.our.pick_valid,
        after.our.pick_slot == before.our.pick_slot,
    decreases lists.len() - l,
{
    let (step, mid, list) = lemma_first_step(
        host,
        start,
        now_sec,
        now_msec,
        before,
        lists,
        l,
        GetStatus::Busy,
        after,
        lists_after,
    );
    if step == ListStep::Backup {
        law_giving_up_takes_the_first_name(
            host,
            start,
            now_sec,
            now_msec,
            mid,
            lists,
            l + 1,
            after,
            lists_after,
        );
    }
}

/// The attempt on a list is of that list, goes by the backup table unless the
/// list is the first, and falls back to the list after it.
pub proof fn law_turns_follow_the_lists(
    lists: Seq<PeersView>,
    l: int,
    now_sec: i64,
    now_msec: usize,
)
    requires
        0 <= l < lists.len() <= usize::MAX,
    ensures
        ({
            let turn = turn_on(lists, l, now_sec, now_msec);
            &&& turn.list == l
            &&& turn.is_backup <==> l > 0
            &&& turn.now_sec == now_sec
            &&& turn.now_msec == now_msec
            &&& l + 1 == lists.len() ==> turn.next is None
            &&& l + 1 < lists.len() ==> {
                &&& turn.next is Some
                &&& turn.next->0.list == l + 1
                &&& turn.next->0.number == lists[l + 1].number
            }
        }),
{
}

/// The room for candidates is as large as the larger table.
pub proof fn law_room_is_the_larger_table(cfg: EwmaConfigView)
    ensures
        cfg.cap() >= cfg.primary.len(),
        cfg.cap() >= cfg.backup.len(),
        cfg.cap() == cfg.primary.len() || cfg.cap() == cfg.backup.len(),
        cfg.of(true) == cfg.backup,
        cfg.of(false) == cfg.primary,
{
}

/// What is seen of a table and of a list is what is in it.
pub proof fn law_views_show_what_is_there(cfg: EwmaConfig, list: Peers, our: EwmaPeerData, i: int)
    ensures
        cfg@.primary.len() == cfg.primary_slots@.len(),
        cfg@.backup.len() == cfg.backup_slots@.len(),
        cfg@.zone == cfg.zone,
        cfg@.primary_peers == cfg.primary_peers,
        0 <= i < cfg.primary_slots@.len() ==> {
            let s = cfg.primary_slots@[i];
            &&& cfg@.primary[i].ewma == s.ewma
            &&& cfg@.primary[i].last_touched_msec == s.last_touched_msec
            &&& s.sockaddr is None ==> cfg@.primary[i].sockaddr is None
            &&& s.sockaddr matches Some(a) ==> cfg@.primary[i].sockaddr == Some(a@)
        },
        0 <= i < cfg.backup_slots@.len() ==> {
            let s = cfg.backup_slots@[i];
            &&& cfg@.backup[i].ewma == s.ewma
            &&& cfg@.backup[i].last_touched_msec == s.last_touched_msec
            &&& s.sockaddr is None ==> cfg@.backup[i].sockaddr is None
            &&& s.sockaddr matches Some(a) ==> cfg@.backup[i].sockaddr == Some(a@)
        },
        list@.peers == list.peers@,
        list@.number == list.number,
        list@.single == list.single,
        list@.config == list.config,
        list.name is None ==> list@.name is None,
        list.name matches Some(a) ==> list@.name == Some(a@),
        our@.pick_valid == our.pick_valid,
        our@.pick_slot == our.pick_slot,
        our@.pick_start_msec == our.pick_start_msec,
        our@.pick_score == our.pick_score,
        our@.avail is None <==> our.avail_buf is None,
{
}

/// A peer can be picked as long as the bitmap reaches, no count is full and no
/// clock is out of range.
pub proof fn law_ordinary_lists_can_be_picked_from(
    tried: Seq<usize>,
    peers: Seq<Peer>,
    now: i64,
)
    requires
        covers(tried, peers.len() as int),
        forall|i: int|
            0 <= i < peers.len() ==> {
                &&& (#[trigger] peers[i]).conns < usize::MAX
                &&& peers[i].refs < usize::MAX
                &&& i64::MIN <= now - peers[i].checked <= i64::MAX
            },
    ensures
        pick_fits(tried, peers, now),
{
}

/// A request is left to the host's round-robin exactly when it is on the list of
/// a single server, and then nothing changes. Without a list it gets nobody, and
/// only a connection to reuse is forgotten.
pub proof fn law_single_servers_and_no_lists<D, A, G, R>(
    host: Host<D, A, G, R>,
    now_sec: i64,
    now_msec: usize,
    before: RunView,
    lists: Seq<PeersView>,
    status: GetStatus,
    after: RunView,
    lists_after: Seq<PeersView>,
) where
    D: Fn(Score, usize) -> Score,
    A: Fn(Vec<Sample>) -> Score,
    G: Fn(usize) -> bool,
    R: Fn() -> usize,

    requires
        got(host, now_sec, now_msec, before, lists, status, after, lists_after),
    ensures
        status == GetStatus::RoundRobin <==> before.rrp.peers is Some
            && lists[before.rrp.peers->0 as int].single,
        status == GetStatus::RoundRobin ==> after == before && lists_after == lists,
        before.rrp.peers is None ==> {
            &&& status == GetStatus::Busy
            &&& lists_after == lists
            &&& !after.pc.cached
            &&& after.pc.connection is None
            &&& after.pc.name == before.pc.name
            &&& after.rrp == before.rrp
            &&& after.our == before.our
            &&& after.cfg == before.cfg
        },
        status == GetStatus::Busy && before.rrp.peers is Some ==> {
            &&& lists_after == lists
            &&& !after.pc.cached
            &&& after.pc.connection is None
            &&& after.pc.name == lists[before.rrp.peers->0 as int].name
        },
{
    if let Some(l) = before.rrp.peers {
        if !lists[l as int].single {
            let s = RunView { pc: uncached(before.pc), ..before };
            lemma_run_status(
                host,
                l as int,
                now_sec,
                now_msec,
                s,
                lists,
                l as int,
                status,
                after,
                lists_after,
            );
            if status == GetStatus::Busy {
                law_giving_up_takes_the_first_name(
                    host,
                    l as int,
                    now_sec,
                    now_msec,
                    s,
                    lists,
                    l as int,
                    after,
                    lists_after,
                );
            }
        }
    }
}

proof fn lemma_run_status<D, A, G, R>(
    host: Host<D, A, G, R>,
    start: int,
    now_sec: i64,
    now_msec: usize,
    before: RunView,
    lists: Seq<PeersView>,
    l: int,
    status: GetStatus,
    after: RunView,
    lists_after: Seq<PeersView>,
) where
    D: Fn(Score, usize) -> Score,
    A: Fn(Vec<Sample>) -> Score,
    G: Fn(usize) -> bool,
    R: Fn() -> usize,

    requires
        ran(host, start, now_sec, now_msec, before, lists, l, status, after, lists_after),
    ensures
        status != GetStatus::RoundRobin,
        after.pc.cached == before.pc.cached,
        after.pc.connection == before.pc.connection,
    decreases lists.len() - l,
{
    let (step, mid, list) = lemma_first_step(
        host,
        start,
        now_sec,
        now_msec,
        before,
        lists,
        l,
        status,
        after,
        lists_after,
    );
    if step == ListStep::Backup {
        lemma_run_status(
            host,
            start,
            now_sec,
            now_msec,
            mid,
            lists,
            l + 1,
            status,
            after,
            lists_after,
        );
    }
}

} // verus!
