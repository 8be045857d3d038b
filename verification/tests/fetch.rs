use hostlist::addr::PeerAddress;
use hostlist::hosts::Hosts;
use hostlist::settings::Settings;

fn ep(s: &str) -> PeerAddress {
    let u = url::Url::parse(s).unwrap();
    PeerAddress::from_parts(
        u.scheme().to_string(),
        u.host_str().map(|h| h.to_string()),
        u.port(),
        u.path_segments().is_some(),
        !u.cannot_be_a_base(),
    )
}

fn make_hosts() -> Hosts {
    Hosts::new(Settings { localnet: false, external_addrs: vec![], quarantine_limit: 50 })
}

fn has(v: &[PeerAddress], a: &PeerAddress) -> bool {
    v.iter().any(|x| x == a)
}

#[test]
fn test_fetch_with_schemes_round_trip() {
    let mut hosts = make_hosts();
    let tcp1 = ep("tcp://dark.fi:80");
    let tcp2 = ep("tcp://top.kek:111");
    let tls1 = ep("tcp+tls://http.cat:401");
    hosts.store(&vec![tcp1.clone(), tcp2.clone(), tls1.clone()]);

    let with = hosts.fetch_with_schemes(&vec!["tcp".to_string()], None);
    assert_eq!(with.len(), 2);
    assert!(has(&with, &tcp1));
    assert!(has(&with, &tcp2));

    let without = hosts.fetch_exluding_schemes(&vec!["tcp".to_string()], None);
    assert_eq!(without.len(), 1);
    assert!(has(&without, &tls1));
}

#[test]
fn test_fetch_with_schemes_limit() {
    let mut hosts = make_hosts();
    hosts.store(&vec![ep("tcp://dark.fi:80"), ep("tcp://top.kek:111"), ep("tcp://http.cat:401")]);
    let one = hosts.fetch_with_schemes(&vec!["tcp".to_string()], Some(1));
    assert_eq!(one.len(), 1);
    let all = hosts.fetch_with_schemes(&vec!["tcp".to_string()], Some(9));
    assert_eq!(all.len(), 3);
}

#[test]
fn test_fetch_quarantine_fallback() {
    let mut hosts = make_hosts();
    let stored = ep("tcp+tls://http.cat:401");
    let quarantined = ep("tcp://dark.fi:80");
    hosts.store(&vec![stored.clone()]);
    hosts.quarantine(&quarantined);

    // No stored endpoint matches, so the quarantined one is served.
    let with = hosts.fetch_with_schemes(&vec!["tcp".to_string()], None);
    assert_eq!(with.len(), 1);
    assert!(has(&with, &quarantined));

    // A stored match suppresses the fallback.
    let without = hosts.fetch_exluding_schemes(&vec!["tcp".to_string()], None);
    assert_eq!(without.len(), 1);
    assert!(has(&without, &stored));
}

#[test]
fn test_fetch_empty_store_no_fallback() {
    let mut hosts = make_hosts();
    hosts.quarantine(&ep("tcp://dark.fi:80"));
    // Without an explicit limit the cap defaults to the store size,
    // which is zero, so nothing is served.
    let with = hosts.fetch_with_schemes(&vec!["tcp".to_string()], None);
    assert!(with.is_empty());
}

#[test]
fn test_fetch_empty_store_limited_fallback() {
    let mut hosts = make_hosts();
    let q1 = ep("tcp://dark.fi:80");
    let q2 = ep("tcp://top.kek:111");
    hosts.quarantine(&q1);
    hosts.quarantine(&q2);
    // An explicit limit reaches the quarantine fallback even when the
    // store is empty.
    let one = hosts.fetch_with_schemes(&vec!["tcp".to_string()], Some(1));
    assert_eq!(one.len(), 1);
    assert!(has(&one, &q1) || has(&one, &q2));
    let both = hosts.fetch_with_schemes(&vec!["tcp".to_string()], Some(5));
    assert_eq!(both.len(), 2);
    assert!(has(&both, &q1) && has(&both, &q2));
}

#[test]
fn test_fetch_n_random_bound() {
    let mut hosts = make_hosts();
    let batch = vec![ep("tcp://dark.fi:80"), ep("tcp://top.kek:111"), ep("tcp://http.cat:401")];
    hosts.store(&batch);
    for n in 0..6u32 {
        let r = hosts.fetch_n_random(n);
        assert_eq!(r.len(), (n as usize).min(3));
        for x in &r {
            assert!(has(&batch, x));
        }
        for i in 0..r.len() {
            for j in (i + 1)..r.len() {
                assert!(r[i] != r[j]);
            }
        }
    }
}

#[test]
fn test_fetch_n_random_with_schemes() {
    let mut hosts = make_hosts();
    let tcp1 = ep("tcp://dark.fi:80");
    let tcp2 = ep("tcp://top.kek:111");
    let tls1 = ep("tcp+tls://http.cat:401");
    hosts.store(&vec![tcp1.clone(), tcp2.clone(), tls1.clone()]);

    let r = hosts.fetch_n_random_with_schemes(&vec!["tcp".to_string()], 5);
    assert_eq!(r.len(), 2);
    assert!(has(&r, &tcp1) && has(&r, &tcp2));

    let r = hosts.fetch_n_random_excluding_schemes(&vec!["tcp".to_string()], 5);
    assert_eq!(r.len(), 1);
    assert!(has(&r, &tls1));

    let r = hosts.fetch_n_random_with_schemes(&vec!["tcp".to_string()], 1);
    assert_eq!(r.len(), 1);

    let r = hosts.fetch_n_random_with_schemes(&vec!["tcp".to_string()], 0);
    assert!(r.is_empty());
}

#[test]
fn test_fetch_all() {
    let mut hosts = make_hosts();
    let batch = vec![ep("tcp://dark.fi:80"), ep("tcp://top.kek:111")];
    hosts.store(&batch);
    let all = hosts.fetch_all();
    assert_eq!(all.len(), 2);
    for x in &batch {
        assert!(has(&all, x));
    }
}
