//! The `balancer_rs` directive.
use vstd::prelude::*;

use crate::bytes::{ascii, bytes_eq};
use crate::ewma::Ewma;
use crate::least_conn::LeastConn;
use crate::policy::{BalancingPolicy, UpstreamInit};

verus! {

/// The policy of an upstream.
#[derive(Clone, Debug)]
pub enum PolicyImpl {
    Unset,
    LeastConn(LeastConn),
    Ewma(Ewma),
}

impl Default for PolicyImpl {
    /// No policy has been chosen.
    fn default() -> (r: Self)
        ensures
            r is Unset,
    {
        PolicyImpl::Unset
    }
}

/// What the directive configures.
#[derive(Clone, Debug)]
pub struct BalancerConfig {
    pub policy: PolicyImpl,
}

impl Default for BalancerConfig {
    /// No policy has been chosen.
    fn default() -> (r: Self)
        ensures
            r.policy is Unset,
    {
        BalancerConfig::new()
    }
}

impl BalancerConfig {
    /// No policy has been chosen.
    pub fn new() -> (r: Self)
        ensures
            r.policy is Unset,
    {
        BalancerConfig { policy: PolicyImpl::Unset }
    }
}

/// The parameters that `server` lines may have.
#[derive(Clone, Copy, Debug, PartialEq, Eq, Structural)]
pub struct ServerParams {
    /// Servers can be set up at start.
    pub create: bool,
    /// Servers can change at run time.
    pub modify: bool,
    pub weight: bool,
    pub max_conns: bool,
    pub max_fails: bool,
    pub fail_timeout: bool,
    pub down: bool,
    pub backup: bool,
}

/// What the host keeps of an upstream while it reads its configuration.
pub struct UpstreamConf {
    pub flags: ServerParams,
    pub init_upstream: Option<UpstreamInit>,
}

/// Why the directive is refused.
#[derive(Clone, Copy, Debug, PartialEq, Eq, Structural)]
pub enum SetError {
    /// The directive has no argument.
    MissingPolicy,
    /// The argument is no policy's name.
    UnknownPolicy,
}

/// The name `least_conn`.
pub open spec fn least_conn_name() -> Seq<u8> {
    ascii("least_conn"@)
}

/// The name `ewma`.
pub open spec fn ewma_name() -> Seq<u8> {
    ascii("ewma"@)
}

/// Every parameter that the policies honor.
pub open spec fn all_params() -> ServerParams {
    ServerParams {
        create: true,
        modify: true,
        weight: true,
        max_conns: true,
        max_fails: true,
        fail_timeout: true,
        down: true,
        backup: true,
    }
}

/// The policy of that name.
pub fn policy_by_name(name: &Vec<u8>) -> (r: Option<PolicyImpl>)
    ensures
        r matches Some(p) && p is LeastConn <==> name@ == least_conn_name(),
        r matches Some(p) && p is Ewma <==> name@ == ewma_name(),
        r matches Some(p) ==> p !is Unset,
        r matches Some(PolicyImpl::Ewma(e)) ==> e.config is None,
{
    let least_conn = vec![0x6c, 0x65, 0x61, 0x73, 0x74, 0x5f, 0x63, 0x6f, 0x6e, 0x6e];
    let ewma = vec![0x65, 0x77, 0x6d, 0x61];
    proof {
        reveal_strlit("least_conn");
        reveal_strlit("ewma");
    }
    assert(least_conn@ == least_conn_name());
    assert(ewma@ == ewma_name());
    assert(least_conn_name().len() != ewma_name().len());
    if bytes_eq(name, &least_conn) {
        Some(PolicyImpl::LeastConn(LeastConn))
    } else if bytes_eq(name, &ewma) {
        Some(PolicyImpl::Ewma(Ewma::new()))
    } else {
        None
    }
}

/// Read the directive: `args` are its words, its own name first. On success
/// the policy is set, `server` lines may have every parameter that the
/// policies honor, and the policy's entry point is installed; the result says
/// whether a balancer had been chosen before. On failure nothing changes.
pub fn set_policy(
    args: &Vec<Vec<u8>>,
    conf: &mut BalancerConfig,
    upstream: &mut UpstreamConf,
) -> (r: Result<bool, SetError>)
    ensures
        match r {
            Ok(redefined) => {
                &&& args@.len() >= 2
                &&& redefined == (old(upstream).init_upstream is Some)
                &&& final(upstream).flags == all_params()
                &&& match final(upstream).init_upstream {
                    Some(UpstreamInit::LeastConn) => {
                        &&& args@[1]@ == least_conn_name()
                        &&& final(conf).policy is LeastConn
                    },
                    Some(UpstreamInit::Ewma) => {
                        &&& args@[1]@ == ewma_name()
                        &&& final(conf).policy matches PolicyImpl::Ewma(e)
                        &&& e.config is None
                    },
                    _ => false,
                }
            },
            Err(e) => {
                &&& *final(conf) == *old(conf)
                &&& *final(upstream) == *old(upstream)
                &&& match e {
                    SetError::MissingPolicy => args@.len() < 2,
                    SetError::UnknownPolicy => args@.len() >= 2 && args@[1]@ != least_conn_name()
                        && args@[1]@ != ewma_name(),
                }
            },
        },
        r is Ok <==> args@.len() >= 2 && (args@[1]@ == least_conn_name() || args@[1]@
            == ewma_name()),
{
    if args.len() < 2 {
        return Err(SetError::MissingPolicy);
    }
    let policy = match policy_by_name(&args[1]) {
        Some(policy) => policy,
        None => {
            return Err(SetError::UnknownPolicy);
        },
    };
    let redefined = upstream.init_upstream.is_some();
    let init = match &policy {
        PolicyImpl::LeastConn(_) => Some(LeastConn::init_upstream()),
        PolicyImpl::Ewma(_) => Some(Ewma::init_upstream()),
        PolicyImpl::Unset => None,
    };
    conf.policy = policy;
    upstream.flags = ServerParams {
        create: true,
        modify: true,
        weight: true,
        max_conns: true,
        max_fails: true,
        fail_timeout: true,
        down: true,
        backup: true,
    };
    upstream.init_upstream = init;
    Ok(redefined)
}

} // verus!
