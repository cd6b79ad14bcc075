//! The `ewma` policy.
//!
//! Peak-EWMA with power of two choices. Each peer carries an exponentially
//! weighted moving average of its round-trip time, which decays towards zero.
//! On every request two random available peers are looked at, and the one with
//! the lower score is taken; its average is updated when the request is done.
//!
//! Scores are worked out in floating point, by functions that the host hands
//! in. Which scores are worked out, from what, and what is done with them, is
//! decided here.
use vstd::prelude::*;

use crate::ewma::table::{table, EwmaSlot, Sample, SlotView};
use crate::policy::{BalancingPolicy, UpstreamInit};
use crate::score::Score;

pub mod balance;
pub mod laws;
pub mod pick;
pub mod score_laws;
pub mod setup;
pub mod slot;
pub mod table;
pub mod table_laws;

verus! {

/// The policy and, once the upstream is set up, its tables.
#[derive(Clone, Debug)]
pub struct Ewma {
    pub config: Option<EwmaConfig>,
}

impl Ewma {
    /// The policy, before the upstream is set up.
    pub fn new() -> (r: Self)
        ensures
            r.config is None,
    {
        Ewma { config: None }
    }
}

impl BalancingPolicy for Ewma {
    fn init_upstream() -> (r: UpstreamInit)
        ensures
            r == UpstreamInit::Ewma,
    {
        UpstreamInit::Ewma
    }
}

/// The tables of an upstream.
#[derive(Clone, Debug)]
pub struct EwmaConfig {
    /// The host's number for the primary list. A request that has fallen back
    /// is on another list, and still needs the primary one to see a reload.
    pub primary_peers: Option<usize>,
    pub primary_slots: Vec<EwmaSlot>,
    pub backup_slots: Vec<EwmaSlot>,
    /// Whether the tables live in a shared zone, where peers come and go.
    pub zone: bool,
}

/// What the contracts see of the tables.
#[verifier::ext_equal]
pub struct EwmaConfigView {
    pub primary_peers: Option<usize>,
    pub primary: Seq<SlotView>,
    pub backup: Seq<SlotView>,
    pub zone: bool,
}

impl View for EwmaConfig {
    type V = EwmaConfigView;

    open spec fn view(&self) -> EwmaConfigView {
        EwmaConfigView {
            primary_peers: self.primary_peers,
            primary: table(self.primary_slots@),
            backup: table(self.backup_slots@),
            zone: self.zone,
        }
    }
}

impl EwmaConfigView {
    /// The table of the primary or of the backup list.
    pub open spec fn of(self, is_backup: bool) -> Seq<SlotView> {
        if is_backup {
            self.backup
        } else {
            self.primary
        }
    }

    /// How many candidates a request can hold.
    pub open spec fn cap(self) -> int {
        if self.primary.len() >= self.backup.len() {
            self.primary.len() as int
        } else {
            self.backup.len() as int
        }
    }

    /// The tables with another one for the list `list`.
    pub open spec fn with(self, is_backup: bool, t: Seq<SlotView>, list: usize) -> EwmaConfigView {
        if is_backup {
            EwmaConfigView { backup: t, ..self }
        } else {
            EwmaConfigView { primary: t, primary_peers: Some(list), ..self }
        }
    }
}

/// One available peer: its position in the list, and its slot.
#[derive(Clone, Copy, Debug, PartialEq, Eq, Structural)]
pub struct AvailEntry {
    pub peer_index: usize,
    pub slot: Option<usize>,
}

/// A slot by its table and its position there.
#[derive(Clone, Copy, Debug, PartialEq, Eq, Structural)]
pub struct SlotRef {
    pub is_backup: bool,
    pub index: usize,
}

/// What the policy remembers of one request.
#[derive(Clone, Debug)]
pub struct EwmaPeerData {
    /// Room for the candidates; none was set up where there were no slots.
    pub avail_buf: Option<Vec<AvailEntry>>,
    /// Whether a pick is waiting for its round-trip time.
    pub pick_valid: bool,
    /// The slot of the picked peer.
    pub pick_slot: Option<SlotRef>,
    /// When it was picked.
    pub pick_start_msec: usize,
    /// Its score then. Meaningful only while `pick_valid`.
    pub pick_score: Score,
}

/// What the contracts see of a request's data.
#[verifier::ext_equal]
pub struct EwmaPeerDataView {
    pub avail: Option<Seq<AvailEntry>>,
    pub pick_valid: bool,
    pub pick_slot: Option<SlotRef>,
    pub pick_start_msec: usize,
    pub pick_score: Score,
}

impl View for EwmaPeerData {
    type V = EwmaPeerDataView;

    open spec fn view(&self) -> EwmaPeerDataView {
        EwmaPeerDataView {
            avail: match self.avail_buf {
                Some(b) => Some(b@),
                None => None,
            },
            pick_valid: self.pick_valid,
            pick_slot: self.pick_slot,
            pick_start_msec: self.pick_start_msec,
            pick_score: self.pick_score,
        }
    }
}

/// What the host does for the policy.
pub struct Host<D, A, G, R> {
    /// An average after some milliseconds.
    pub decay: D,
    /// The mean of averages, each decayed by its own time.
    pub average: A,
    /// Whether so many bytes can be had from the zone.
    pub grant: G,
    /// A random number.
    pub random: R,
    /// The bytes that a slot takes in the zone.
    pub slot_size: usize,
}

impl<D, A, G, R> Host<D, A, G, R> where
    D: Fn(Score, usize) -> Score,
    A: Fn(Vec<Sample>) -> Score,
    G: Fn(usize) -> bool,
    R: Fn() -> usize,
 {
    /// The host answers whatever it is asked.
    pub open spec fn ready(self) -> bool {
        &&& forall|e: Score, t: usize| call_requires(self.decay, (e, t))
        &&& forall|v: Vec<Sample>| call_requires(self.average, (v,))
        &&& forall|n: usize| call_requires(self.grant, (n,))
        &&& call_requires(self.random, ())
    }
}

} // verus!
