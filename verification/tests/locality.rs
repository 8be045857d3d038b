use hostlist::addr::{Host, PeerAddress};
use hostlist::hosts::Hosts;
use hostlist::settings::Settings;

fn ep(s: &str) -> PeerAddress {
    let u = url::Url::parse(s).unwrap();
    PeerAddress::from_parts(
        u.scheme().to_string(),
        u.host_str().map(|h| h.to_string()),
        u.port(),
        u.path_segments().is_some(),
        !u.cannot_be_a_base(),
    )
}

fn make_hosts() -> Hosts {
    Hosts::new(Settings {
        localnet: false,
        external_addrs: vec![ep("tcp://foo.bar:123"), ep("tcp://lol.cat:321")],
        quarantine_limit: 50,
    })
}

#[test]
fn test_is_local_host() {
    let hosts = make_hosts();

    let local_hosts: Vec<PeerAddress> = vec![
        ep("tcp://localhost"),
        ep("tcp://127.0.0.1"),
        ep("tcp+tls://[::1]"),
        ep("tcp://localhost.localdomain"),
        ep("tcp://192.168.10.65"),
    ];
    for host in local_hosts {
        assert!(hosts.is_local_host(host));
    }
    let remote_hosts: Vec<PeerAddress> = vec![
        ep("https://dyne.org"),
        ep("tcp://77.168.10.65:2222"),
        ep("tcp://[2345:0425:2CA1:0000:0000:0567:5673:23b5]"),
        ep("http://eweiibe6tdjsdprb4px6rqrzzcsi22m4koia44kc5pcjr7nec2rlxyad.onion"),
    ];
    for host in remote_hosts {
        assert!(!(hosts.is_local_host(host)));
    }
}

#[test]
fn test_is_local_host_structured() {
    let hosts = make_hosts();
    let local = vec![
        Host::ipv4(10, 0, 0, 1),
        Host::ipv4(172, 16, 5, 5),
        Host::ipv4(100, 64, 0, 7),
        Host::ipv4(169, 254, 1, 1),
        Host::ipv4(198, 18, 0, 1),
        Host::ipv4(224, 0, 0, 1),
        Host::ipv4(239, 255, 255, 250),
        Host::ipv6([0xfc00, 0, 0, 0, 0, 0, 0, 1]),
        Host::ipv6([0xfe80, 0, 0, 0, 0, 0, 0, 9]),
        Host::ipv6([0xff02, 0, 0, 0, 0, 0, 0, 1]),
        Host::domain("localhost".to_string()),
    ];
    for h in local {
        let a = PeerAddress::new("tcp".to_string(), Some(h), Some(1));
        assert!(hosts.is_local_host(a));
    }
    let global = vec![
        Host::ipv4(8, 8, 8, 8),
        Host::ipv4(192, 0, 0, 9),
        Host::ipv4(223, 255, 255, 255),
        Host::ipv6([0x2620, 0, 0x2d0, 0x200, 0, 0, 0, 0x10]),
        Host::domain("dark.fi".to_string()),
    ];
    for h in global {
        let a = PeerAddress::new("tcp".to_string(), Some(h), Some(1));
        assert!(!hosts.is_local_host(a));
    }
    // An endpoint without a host is never local.
    let bare = PeerAddress::new("tcp".to_string(), None, Some(1));
    assert!(!hosts.is_local_host(bare));
}
