//! Setting up: the tables of an upstream, and the data of a request.
use vstd::prelude::*;

use crate::bytes::ascii;
use crate::config::PolicyImpl;
use crate::ewma::pick::avail_cap;
use crate::ewma::table::{
    alloc_slots, blank_table, room_granted, room_refused, stamp_slot_identities, stamped, table,
    zeroed_slots, EwmaSlot, SlotView,
};
use crate::ewma::{EwmaConfig, EwmaConfigView, EwmaPeerData, EwmaPeerDataView};
use crate::peer::{views, Peers, PeersView};
use crate::score::Score;

verus! {

/// The bytes of the zone that an upstream's tables live in. Holds the tables,
/// the allocator's own data, and room to bring tables up to date.
pub const EWMA_ZONE_SIZE: usize = 65536;

/// How the set-up of an upstream goes on.
#[derive(Clone, Copy, Debug, PartialEq, Eq, Structural)]
pub enum UpstreamSetup {
    /// The host's round-robin could not be set up.
    Failed,
    /// The lists never change: the tables are made now.
    Static,
    /// The lists live in a zone, which is filled later: so are the tables.
    Zone,
}

/// How many bytes the host's structures take.
#[derive(Clone, Copy, Debug, PartialEq, Eq, Structural)]
pub struct Sizes {
    pub slot: usize,
    pub config: usize,
    pub entry: usize,
    pub data: usize,
}

/// What every zone name starts with.
pub open spec fn zone_prefix() -> Seq<u8> {
    ascii("balancer_rs_ewma_"@)
}

/// A blank table with the addresses of the list in it.
pub open spec fn fresh_table(list: PeersView) -> Seq<SlotView> {
    stamped(blank_table(list.number as int), list.peers)
}

/// The tables of an upstream with these lists: one for the primary list and
/// one for the first backup list.
pub open spec fn fresh_config(lists: Seq<PeersView>, zone: bool) -> EwmaConfigView {
    EwmaConfigView {
        primary_peers: Some(0),
        primary: fresh_table(lists[0]),
        backup: if lists.len() >= 2 {
            fresh_table(lists[1])
        } else {
            Seq::empty()
        },
        zone,
    }
}

/// Room in a zone for a table of `len` slots has been had, or refused.
pub open spec fn zone_room<G: Fn(usize) -> bool>(
    grant: G,
    len: int,
    slot_size: int,
    granted: bool,
) -> bool {
    if len == 0 {
        granted
    } else {
        let bytes = len * slot_size;
        call_ensures(
            grant,
            (if bytes <= usize::MAX {
                bytes as usize
            } else {
                usize::MAX
            },),
            granted,
        )
    }
}

/// Room for a table of `len` slots has been had, or refused: in a zone, or in
/// the memory of the configuration.
pub open spec fn table_room<G: Fn(usize) -> bool>(
    grant: G,
    len: int,
    slot_size: int,
    zone: bool,
    granted: bool,
) -> bool {
    if zone {
        zone_room(grant, len, slot_size, granted)
    } else if granted {
        room_granted(grant, len, slot_size)
    } else {
        room_refused(grant, len, slot_size)
    }
}

/// What setting up the tables of an upstream may come to. It fails only where
/// there is no list, or where room for a table or for the rest is refused.
pub open spec fn built<G: Fn(usize) -> bool>(
    grant: G,
    lists: Seq<PeersView>,
    zone: bool,
    sizes: Sizes,
    config: Option<EwmaConfigView>,
) -> bool {
    match config {
        Some(cfg) => {
            &&& lists.len() > 0
            &&& cfg == fresh_config(lists, zone)
            &&& table_room(grant, lists[0].number as int, sizes.slot as int, zone, true)
            &&& lists.len() >= 2 ==> table_room(
                grant,
                lists[1].number as int,
                sizes.slot as int,
                zone,
                true,
            )
            &&& call_ensures(grant, (sizes.config,), true)
        },
        None => {
            ||| lists.len() == 0
            ||| lists[0].number > 0 && table_room(
                grant,
                lists[0].number as int,
                sizes.slot as int,
                zone,
                false,
            )
            ||| lists.len() >= 2 && lists[1].number > 0 && table_room(
                grant,
                lists[1].number as int,
                sizes.slot as int,
                zone,
                false,
            )
            ||| call_ensures(grant, (sizes.config,), false)
        },
    }
}

/// What giving an upstream its tables may come to: it fails where they could
/// not be made, and where the upstream's policy is another one.
pub open spec fn installed<G: Fn(usize) -> bool>(
    grant: G,
    lists: Seq<PeersView>,
    zone: bool,
    sizes: Sizes,
    before: PolicyImpl,
    ok: bool,
    after: PolicyImpl,
) -> bool {
    if ok {
        &&& before is Ewma
        &&& after matches PolicyImpl::Ewma(e)
        &&& e.config matches Some(cfg)
        &&& built(grant, lists, zone, sizes, Some(cfg@))
    } else {
        &&& after == before
        &&& before is Ewma ==> built(grant, lists, zone, sizes, None)
    }
}

/// The data of a request that has picked nothing yet.
pub open spec fn fresh_data(cap: int) -> EwmaPeerDataView {
    EwmaPeerDataView {
        avail: if cap == 0 {
            None
        } else {
            Some(Seq::empty())
        },
        pick_valid: false,
        pick_slot: None,
        pick_start_msec: 0,
        pick_score: Score::nil(),
    }
}

/// What to do once the host's round-robin has, or has not, been set up.
pub fn init_upstream(round_robin_ok: bool, in_zone: bool) -> (r: UpstreamSetup)
    ensures
        r == (if !round_robin_ok {
            UpstreamSetup::Failed
        } else if in_zone {
            UpstreamSetup::Zone
        } else {
            UpstreamSetup::Static
        }),
{
    if !round_robin_ok {
        UpstreamSetup::Failed
    } else if in_zone {
        UpstreamSetup::Zone
    } else {
        UpstreamSetup::Static
    }
}

/// The name of an upstream's zone: the host name of the upstream after a fixed
/// prefix, so that every upstream has a zone of its own.
pub fn zone_name(host: &Vec<u8>) -> (r: Vec<u8>)
    ensures
        r@ == zone_prefix() + host@,
{
    let mut name = vec![0x62, 0x61, 0x6c, 0x61, 0x6e, 0x63, 0x65, 0x72, 0x5f, 0x72, 0x73, 0x5f, 0x65, 0x77, 0x6d, 0x61, 0x5f];
    proof {
        reveal_strlit("balancer_rs_ewma_");
    }
    assert(name@ =~= zone_prefix());
    let mut i: usize = 0;
    while i < host.len()
        invariant
            i <= host@.len(),
            name@ == zone_prefix() + host@.take(i as int),
        decreases host@.len() - i,
    {
        name.push(host[i]);
        i = i + 1;
        assert(host@.take(i as int) =~= host@.take(i - 1).push(host@[i - 1]));
        assert(name@ =~= zone_prefix() + host@.take(i as int));
    }
    assert(host@.take(i as int) =~= host@);
    name
}

/// A table of `len` blank slots in a zone, if the zone has room. An empty
/// table needs none.
pub fn alloc_slots_shpool<G: Fn(usize) -> bool>(
    len: usize,
    slot_size: usize,
    grant: &G,
) -> (r: Option<Vec<EwmaSlot>>)
    requires
        forall|n: usize| call_requires(*grant, (n,)),
    ensures
        match r {
            Some(slots) => {
                &&& table(slots@) == blank_table(len as int)
                &&& zone_room(*grant, len as int, slot_size as int, true)
            },
            None => len > 0 && zone_room(*grant, len as int, slot_size as int, false),
        },
{
    if len == 0 {
        return Some(zeroed_slots(0));
    }
    let bytes: usize = match len.checked_mul(slot_size) {
        Some(bytes) => bytes,
        None => usize::MAX,
    };
    if grant(bytes) {
        Some(zeroed_slots(len))
    } else {
        None
    }
}

/// The table of a list, if there is room.
fn table_for<G: Fn(usize) -> bool>(
    list: &Peers,
    slot_size: usize,
    zone: bool,
    grant: &G,
) -> (r: Option<Vec<EwmaSlot>>)
    requires
        forall|n: usize| call_requires(*grant, (n,)),
    ensures
        table_room(*grant, list.number as int, slot_size as int, zone, r is Some),
        r is None ==> list.number > 0,
        r matches Some(slots) ==> table(slots@) == fresh_table(list@),
{
    let blank = if zone {
        alloc_slots_shpool(list.number, slot_size, grant)
    } else {
        alloc_slots(list.number, slot_size, grant)
    };
    match blank {
        Some(mut slots) => {
            stamp_slot_identities(list, &mut slots);
            Some(slots)
        },
        None => None,
    }
}

/// The tables of an upstream, if there are lists and there is room. `lists`
/// holds the primary list and then the backup lists.
pub fn build_config<G: Fn(usize) -> bool>(
    lists: &Vec<Peers>,
    zone: bool,
    sizes: Sizes,
    grant: &G,
) -> (r: Option<EwmaConfig>)
    requires
        forall|n: usize| call_requires(*grant, (n,)),
    ensures
        built(
            *grant,
            views(lists@),
            zone,
            sizes,
            match r {
                Some(cfg) => Some(cfg@),
                None => None,
            },
        ),
{
    if lists.len() == 0 {
        return None;
    }
    let primary_slots = match table_for(&lists[0], sizes.slot, zone, grant) {
        Some(slots) => slots,
        None => {
            return None;
        },
    };
    let backup_slots = if lists.len() >= 2 {
        match table_for(&lists[1], sizes.slot, zone, grant) {
            Some(slots) => slots,
            None => {
                return None;
            },
        }
    } else {
        zeroed_slots(0)
    };
    if !grant(sizes.config) {
        return None;
    }
    let cfg = EwmaConfig { primary_peers: Some(0), primary_slots, backup_slots, zone };
    assert(cfg@ =~= fresh_config(views(lists@), zone));
    Some(cfg)
}

/// Give an upstream its tables. Fails where they could not be made, and where
/// the upstream's policy is another one.
pub fn install_config(policy: &mut PolicyImpl, config: Option<EwmaConfig>) -> (r: bool)
    ensures
        r == (config is Some && *old(policy) is Ewma),
        r ==> (*final(policy) matches PolicyImpl::Ewma(e) && e.config == config),
        !r ==> *final(policy) == *old(policy),
{
    if config.is_none() {
        return false;
    }
    match policy {
        PolicyImpl::Ewma(state) => {
            state.config = config;
            true
        },
        _ => false,
    }
}

/// Set up an upstream whose lists never change.
pub fn init_upstream_static<G: Fn(usize) -> bool>(
    policy: &mut PolicyImpl,
    lists: &Vec<Peers>,
    sizes: Sizes,
    grant: &G,
) -> (r: bool)
    requires
        forall|n: usize| call_requires(*grant, (n,)),
    ensures
        installed(*grant, views(lists@), false, sizes, *old(policy), r, *final(policy)),
{
    let config = build_config(lists, false, sizes, grant);
    install_config(policy, config)
}

/// Set up an upstream whose lists live in a zone, once the host has filled it.
pub fn ewma_zone_init<G: Fn(usize) -> bool>(
    policy: &mut PolicyImpl,
    lists: &Vec<Peers>,
    sizes: Sizes,
    grant: &G,
) -> (r: bool)
    requires
        forall|n: usize| call_requires(*grant, (n,)),
    ensures
        installed(*grant, views(lists@), true, sizes, *old(policy), r, *final(policy)),
{
    let config = build_config(lists, true, sizes, grant);
    install_config(policy, config)
}

/// The data of a new request, if the upstream has tables and there is room.
pub fn init_peer<G: Fn(usize) -> bool>(
    policy: &PolicyImpl,
    sizes: Sizes,
    grant: &G,
) -> (r: Option<EwmaPeerData>)
    requires
        forall|n: usize| call_requires(*grant, (n,)),
        policy matches PolicyImpl::Ewma(e) && e.config matches Some(cfg) ==> cfg@.cap()
            * sizes.entry <= usize::MAX,
    ensures
        match r {
            Some(our) => {
                &&& policy matches PolicyImpl::Ewma(e)
                &&& e.config matches Some(cfg)
                &&& our@ == fresh_data(cfg@.cap())
                &&& call_ensures(*grant, (sizes.data,), true)
                &&& cfg@.cap() > 0 ==> call_ensures(
                    *grant,
                    ((cfg@.cap() * sizes.entry) as usize,),
                    true,
                )
            },
            None => match *policy {
                PolicyImpl::Ewma(e) => match e.config {
                    Some(cfg) => {
                        ||| call_ensures(*grant, (sizes.data,), false)
                        ||| cfg@.cap() > 0 && call_ensures(
                            *grant,
                            ((cfg@.cap() * sizes.entry) as usize,),
                            false,
                        )
                    },
                    None => true,
                },
                _ => true,
            },
        },
{
    let cfg = match policy {
        PolicyImpl::Ewma(state) => match &state.config {
            Some(cfg) => cfg,
            None => {
                return None;
            },
        },
        _ => {
            return None;
        },
    };
    if !grant(sizes.data) {
        return None;
    }
    let cap: usize = avail_cap(cfg);
    let avail_buf = if cap == 0 {
        None
    } else {
        if !grant(cap * sizes.entry) {
            return None;
        }
        Some(Vec::new())
    };
    let our = EwmaPeerData {
        avail_buf,
        pick_valid: false,
        pick_slot: None,
        pick_start_msec: 0,
        pick_score: Score::zero(),
    };
    assert(our@ =~= fresh_data(cfg@.cap()));
    Some(our)
}

/// The policy's data of a request, if its upstream has this policy.
pub fn ewma_pick_data_for<'a>(
    policy: Option<&PolicyImpl>,
    our: Option<&'a EwmaPeerData>,
) -> (r: Option<&'a EwmaPeerData>)
    ensures
        r == (if policy matches Some(p) && p is Ewma {
            our
        } else {
            None
        }),
{
    match policy {
        Some(PolicyImpl::Ewma(_)) => our,
        _ => None,
    }
}

/// The value of `$balancer_ewma_score`: the score of the picked peer at the
/// time it was picked. There is none while no pick is waiting.
pub fn ewma_score_variable(policy: Option<&PolicyImpl>, our: Option<&EwmaPeerData>) -> (r: Option<
    Score,
>)
    ensures
        r == (if policy matches Some(p) && p is Ewma && our is Some && our->0.pick_valid {
            Some(our->0.pick_score)
        } else {
            None
        }),
{
    match ewma_pick_data_for(policy, our) {
        Some(data) => if data.pick_valid {
            Some(data.pick_score)
        } else {
            None
        },
        None => None,
    }
}

} // verus!
