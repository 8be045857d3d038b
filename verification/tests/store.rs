use hostlist::addr::PeerAddress;
use hostlist::hosts::Hosts;
use hostlist::settings::Settings;

fn ep(s: &str) -> PeerAddress {
    let u = url::Url::parse(s).unwrap();
    PeerAddress::from_parts(
        u.scheme().to_string(),
        u.host_str().map(|h| h.to_string()),
        u.port(),
        u.path_segments().is_some(),
        !u.cannot_be_a_base(),
    )
}

fn make_settings(localnet: bool, external: &[&str]) -> Settings {
    Settings {
        localnet,
        external_addrs: external.iter().map(|s| ep(s)).collect(),
        quarantine_limit: 50,
    }
}

#[test]
fn test_store_localnet() {
    let settings = make_settings(true, &["tcp://foo.bar:123", "tcp://lol.cat:321"]);
    let external = vec![ep("tcp://foo.bar:123"), ep("tcp://lol.cat:321")];
    let mut hosts = Hosts::new(settings);
    hosts.store(&external);
    for i in &external {
        assert!(hosts.contains(i));
    }

    let local_hosts = vec![
        ep("tcp://localhost:3921"),
        ep("tcp://127.0.0.1:23957"),
        ep("tcp://[::1]:21481"),
        ep("tcp://192.168.10.65:311"),
        ep("tcp://0.0.0.0:2312"),
        ep("tcp://255.255.255.255:2131"),
    ];
    hosts.store(&local_hosts);
    for i in &local_hosts {
        assert!(hosts.contains(i));
    }

    let remote_hosts = vec![ep("tcp://dark.fi:80"), ep("tcp://top.kek:111"), ep("tcp://http.cat:401")];
    hosts.store(&remote_hosts);
    for i in &remote_hosts {
        assert!(hosts.contains(i));
    }
}

#[test]
fn test_store() {
    let settings = make_settings(false, &["tcp://foo.bar:123", "tcp://lol.cat:321"]);
    let external = vec![ep("tcp://foo.bar:123"), ep("tcp://lol.cat:321")];
    let mut hosts = Hosts::new(settings);
    hosts.store(&external);
    assert!(hosts.is_empty());

    let local_hosts = vec![
        ep("tcp://localhost:3921"),
        ep("tor://[::1]:21481"),
        ep("tcp://192.168.10.65:311"),
        ep("tcp+tls://0.0.0.0:2312"),
        ep("tcp://255.255.255.255:2131"),
    ];
    hosts.store(&local_hosts);
    assert!(hosts.is_empty());

    let remote_hosts = vec![ep("tcp://dark.fi:80"), ep("tcp://http.cat:401"), ep("tcp://foo.bar:111")];
    hosts.store(&remote_hosts);
    assert!(hosts.contains(&remote_hosts[0]));
    assert!(hosts.contains(&remote_hosts[1]));
    assert!(!hosts.contains(&remote_hosts[2]));
}

#[test]
fn test_self_address_exclusion() {
    let settings = make_settings(false, &["tcp://foo.bar:123", "tcp://lol.cat:321"]);
    let mut hosts = Hosts::new(settings);
    hosts.store(&vec![ep("tcp://foo.bar:123"), ep("tcp://lol.cat:321")]);
    assert!(hosts.is_empty());

    let remote = vec![ep("tcp://dark.fi:80"), ep("tcp://top.kek:111"), ep("tcp://http.cat:401")];
    hosts.store(&remote);
    for i in &remote {
        assert!(hosts.contains(i));
    }
}

#[test]
fn test_store_drops_malformed_candidates() {
    let settings = make_settings(false, &[]);
    let mut hosts = Hosts::new(settings);
    // No port, a path after the authority, an opaque URL, an unknown scheme.
    hosts.store(&vec![
        ep("tcp://dark.fi"),
        ep("tcp://dark.fi:80/peers"),
        ep("mailto:peer@dark.fi"),
        ep("quic://dark.fi:80"),
        ep("nym://dark.fi:80"),
    ]);
    assert!(hosts.is_empty());
}

#[test]
fn test_store_tor_requires_valid_onion() {
    let settings = make_settings(false, &[]);
    let mut hosts = Hosts::new(settings);
    let good = ep("tor://eweiibe6tdjsdprb4px6rqrzzcsi22m4koia44kc5pcjr7nec2rlxyad.onion:110");
    let bad = ep("tor://not-an-onion.example:110");
    hosts.store(&vec![good.clone(), bad.clone()]);
    assert!(hosts.contains(&good));
    assert!(!hosts.contains(&bad));
}

#[test]
fn test_subscribe_store_events() {
    let settings = make_settings(false, &[]);
    let mut hosts = Hosts::new(settings);
    let sub = hosts.subscribe_store();
    // One accepted candidate out of two submitted.
    hosts.store(&vec![ep("tcp://dark.fi:80"), ep("tcp://localhost:3921")]);
    // A store that accepts nothing still emits an event, with count zero.
    hosts.store(&vec![ep("tcp://localhost:3921")]);
    assert_eq!(hosts.next_store_event(&sub), Some(1));
    assert_eq!(hosts.next_store_event(&sub), Some(0));
    assert_eq!(hosts.next_store_event(&sub), None);
}

#[test]
fn test_store_keeps_quarantine_entry() {
    let settings = make_settings(false, &[]);
    let mut hosts = Hosts::new(settings);
    let a = ep("tcp://dark.fi:80");
    hosts.store(&vec![a.clone()]);
    hosts.quarantine(&a);
    assert!(!hosts.contains(&a));
    assert_eq!(hosts.quarantine_count(&a), Some(0));
    // Re-accepting a quarantined endpoint does not clear its counter.
    hosts.store(&vec![a.clone()]);
    assert!(hosts.contains(&a));
    assert_eq!(hosts.quarantine_count(&a), Some(0));
}
