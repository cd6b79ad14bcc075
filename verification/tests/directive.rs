use ngx_balancer_rs::config::{
    policy_by_name, set_policy, BalancerConfig, PolicyImpl, ServerParams, SetError, UpstreamConf,
};
use ngx_balancer_rs::policy::UpstreamInit;

fn words(text: &str) -> Vec<Vec<u8>> {
    text.split(' ').map(|w| w.as_bytes().to_vec()).collect()
}

fn none() -> ServerParams {
    ServerParams {
        create: false,
        modify: false,
        weight: false,
        max_conns: false,
        max_fails: false,
        fail_timeout: false,
        down: false,
        backup: false,
    }
}

fn all() -> ServerParams {
    ServerParams {
        create: true,
        modify: true,
        weight: true,
        max_conns: true,
        max_fails: true,
        fail_timeout: true,
        down: true,
        backup: true,
    }
}

#[test]
fn no_policy_is_the_default() {
    assert!(matches!(BalancerConfig::new().policy, PolicyImpl::Unset));
    assert!(matches!(BalancerConfig::default().policy, PolicyImpl::Unset));
    assert!(matches!(PolicyImpl::default(), PolicyImpl::Unset));
}

#[test]
fn policies_have_names() {
    assert!(matches!(
        policy_by_name(&b"least_conn".to_vec()),
        Some(PolicyImpl::LeastConn(_))
    ));
    assert!(matches!(policy_by_name(&b"ewma".to_vec()), Some(PolicyImpl::Ewma(_))));
    for other in ["", "Least_conn", "least_con", "least_conns", "ewm", "ewma ", "random"] {
        assert!(policy_by_name(&other.as_bytes().to_vec()).is_none());
    }
}

#[test]
fn the_directive_installs_a_policy() {
    let mut conf = BalancerConfig::new();
    let mut up = UpstreamConf { flags: none(), init_upstream: None };
    assert_eq!(set_policy(&words("balancer_rs least_conn"), &mut conf, &mut up), Ok(false));
    assert!(matches!(conf.policy, PolicyImpl::LeastConn(_)));
    assert_eq!(up.flags, all());
    assert_eq!(up.init_upstream, Some(UpstreamInit::LeastConn));
    // A second one replaces the first, with a warning.
    assert_eq!(set_policy(&words("balancer_rs ewma"), &mut conf, &mut up), Ok(true));
    match &conf.policy {
        PolicyImpl::Ewma(e) => assert!(e.config.is_none()),
        _ => panic!("another policy"),
    }
    assert_eq!(up.init_upstream, Some(UpstreamInit::Ewma));
}

#[test]
fn a_missing_policy_is_refused() {
    let mut conf = BalancerConfig::new();
    let mut up = UpstreamConf { flags: none(), init_upstream: Some(UpstreamInit::Other) };
    let r = set_policy(&words("balancer_rs"), &mut conf, &mut up);
    assert_eq!(r, Err(SetError::MissingPolicy));
    assert_eq!(set_policy(&vec![], &mut conf, &mut up), Err(SetError::MissingPolicy));
    assert_eq!(up.flags, none());
    assert_eq!(up.init_upstream, Some(UpstreamInit::Other));
}

#[test]
fn an_unknown_policy_is_refused() {
    let mut conf = BalancerConfig::new();
    let mut up = UpstreamConf { flags: none(), init_upstream: None };
    let r = set_policy(&words("balancer_rs round_robin"), &mut conf, &mut up);
    assert_eq!(r, Err(SetError::UnknownPolicy));
    assert!(matches!(conf.policy, PolicyImpl::Unset));
    assert_eq!(up.init_upstream, None);
}
