//! What a load-balancing policy is to the host.
use vstd::prelude::*;

verus! {

/// Who sets an upstream up.
#[derive(Clone, Copy, Debug, PartialEq, Eq, Structural)]
pub enum UpstreamInit {
    LeastConn,
    Ewma,
    /// Another balancer than those of this library.
    Other,
}

/// A load-balancing policy for an `upstream {}` block.
///
/// A policy says which entry point the host calls once, when the upstream is
/// set up. That entry point installs what is called for each request.
pub trait BalancingPolicy {
    fn init_upstream() -> UpstreamInit;
}

} // verus!
