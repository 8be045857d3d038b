use hostlist::addr::PeerAddress;
use hostlist::hosts::Hosts;
use hostlist::settings::Settings;

fn ep(s: &str) -> PeerAddress {
    let u = url::Url::parse(s).unwrap();
    PeerAddress::from_parts(
        u.scheme().to_string(),
        u.host_str().map(|h| h.to_string()),
        u.port(),
        u.path_segments().is_some(),
        !u.cannot_be_a_base(),
    )
}

fn make_hosts(limit: usize) -> Hosts {
    Hosts::new(Settings { localnet: false, external_addrs: vec![], quarantine_limit: limit })
}

#[test]
fn test_quarantine_escalates_at_limit() {
    let mut hosts = make_hosts(3);
    let a = ep("tcp://dark.fi:80");
    hosts.store(&vec![a.clone()]);

    hosts.quarantine(&a);
    assert!(!hosts.contains(&a));
    assert!(!hosts.is_rejected(&a));
    assert_eq!(hosts.quarantine_count(&a), Some(0));

    hosts.quarantine(&a);
    assert!(!hosts.is_rejected(&a));
    // After limit - 1 calls the counter stands at limit - 2.
    assert_eq!(hosts.quarantine_count(&a), Some(1));

    hosts.quarantine(&a);
    assert!(hosts.is_rejected(&a));
    assert_eq!(hosts.quarantine_count(&a), None);

    // A rejected host no longer passes the validator.
    hosts.store(&vec![a.clone()]);
    assert!(hosts.is_empty());
}

#[test]
fn test_quarantine_limit_one() {
    let mut hosts = make_hosts(1);
    let a = ep("tcp://dark.fi:80");
    hosts.quarantine(&a);
    assert!(hosts.is_rejected(&a));
    assert_eq!(hosts.quarantine_count(&a), None);
}

#[test]
fn test_rejection_is_host_scoped() {
    let mut hosts = make_hosts(2);
    let a = ep("tcp://evil.example:9");
    hosts.mark_rejected(&a);
    assert!(hosts.is_rejected(&a));
    // Another port and another scheme on the same host are rejected too.
    assert!(hosts.is_rejected(&ep("tcp://evil.example:10")));
    assert!(hosts.is_rejected(&ep("tcp+tls://evil.example:11")));
    assert!(!hosts.is_rejected(&ep("tcp://good.example:9")));

    hosts.unmark_rejected(&ep("tcp://evil.example:7777"));
    assert!(!hosts.is_rejected(&a));
    hosts.store(&vec![a.clone()]);
    assert!(hosts.contains(&a));
}

#[test]
fn test_local_endpoint_never_rejected() {
    let mut hosts = make_hosts(2);
    let a = ep("tcp://localhost:3921");
    hosts.mark_rejected(&a);
    assert!(!hosts.is_rejected(&a));
    hosts.quarantine(&a);
    hosts.quarantine(&a);
    hosts.quarantine(&a);
    assert!(!hosts.is_rejected(&a));
}

#[test]
fn test_remove() {
    let mut hosts = make_hosts(5);
    let a = ep("tcp://dark.fi:80");
    let b = ep("tcp://http.cat:401");
    hosts.store(&vec![a.clone(), b.clone()]);
    hosts.remove(&a);
    assert!(!hosts.contains(&a));
    assert!(hosts.contains(&b));

    hosts.quarantine(&b);
    assert_eq!(hosts.quarantine_count(&b), Some(0));
    hosts.remove(&b);
    assert!(!hosts.contains(&b));
    assert_eq!(hosts.quarantine_count(&b), None);
    // Removal does not touch the rejection registry.
    hosts.mark_rejected(&a);
    hosts.remove(&a);
    assert!(hosts.is_rejected(&a));
}
