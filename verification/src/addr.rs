//! The structured model of a peer endpoint.
//!
//! An endpoint is a transport scheme, a host, an optional port, and two
//! flags recording how the endpoint was written down: whether it carries
//! path segments and whether it is hierarchical (a URL that can serve as
//! a base). The ledger's policy reads exactly these parts, so they are
//! held as plain values; the `url` crate is consulted once, when a raw
//! host string is classified into an address or a domain name.

use vstd::prelude::*;

verus! {

/// The host component of an endpoint: an IPv4 address held as its 32
/// bits, an IPv6 address held as its 128 bits, or a domain name.
#[derive(Debug)]
pub enum Host {
    Ipv4 { bits: u32 },
    Ipv6 { bits: u128 },
    Domain { name: String },
}

/// The mathematical value of a [`Host`].
pub ghost enum HostView {
    Ipv4 { bits: u32 },
    Ipv6 { bits: u128 },
    Domain { name: Seq<char> },
}

impl View for Host {
    type V = HostView;

    open spec fn view(&self) -> HostView {
        match self {
            Host::Ipv4 { bits } => HostView::Ipv4 { bits: *bits },
            Host::Ipv6 { bits } => HostView::Ipv6 { bits: *bits },
            Host::Domain { name } => HostView::Domain { name: name@ },
        }
    }
}

/// The 32 bits of an IPv4 address given by its four octets.
pub open spec fn ipv4_bits(a: u8, b: u8, c: u8, d: u8) -> u32 {
    ((a as u32) << 24) | ((b as u32) << 16) | ((c as u32) << 8) | (d as u32)
}

/// The 128 bits of an IPv6 address given by its eight 16-bit segments.
pub open spec fn ipv6_bits(s: [u16; 8]) -> u128 {
    ((s[0] as u128) << 112) | ((s[1] as u128) << 96) | ((s[2] as u128) << 80) | ((s[3] as u128)
        << 64) | ((s[4] as u128) << 48) | ((s[5] as u128) << 32) | ((s[6] as u128) << 16) | (
    s[7] as u128)
}

impl Host {
    /// An IPv4 host from its four dotted octets.
    pub fn ipv4(a: u8, b: u8, c: u8, d: u8) -> (r: Host)
        ensures
            r@ == (HostView::Ipv4 { bits: ipv4_bits(a, b, c, d) }),
    {
        let bits: u32 = ((a as u32) << 24) | ((b as u32) << 16) | ((c as u32) << 8) | (d as u32);
        Host::Ipv4 { bits }
    }

    /// An IPv6 host from its eight colon-separated segments.
    pub fn ipv6(s: [u16; 8]) -> (r: Host)
        ensures
            r@ == (HostView::Ipv6 { bits: ipv6_bits(s) }),
    {
        let bits: u128 = ((s[0] as u128) << 112) | ((s[1] as u128) << 96) | ((s[2] as u128) << 80)
            | ((s[3] as u128) << 64) | ((s[4] as u128) << 48) | ((s[5] as u128) << 32) | ((
        s[6] as u128) << 16) | (s[7] as u128);
        Host::Ipv6 { bits }
    }

    /// A domain-name host.
    pub fn domain(name: String) -> (r: Host)
        ensures
            r@ == (HostView::Domain { name: name@ }),
    {
        Host::Domain { name }
    }
}

impl Clone for Host {
    fn clone(&self) -> (res: Self)
        ensures
            res@ == self@,
    {
        match self {
            Host::Ipv4 { bits } => Host::Ipv4 { bits: *bits },
            Host::Ipv6 { bits } => Host::Ipv6 { bits: *bits },
            Host::Domain { name } => Host::Domain { name: name.clone() },
        }
    }
}

impl PartialEq for Host {
    fn eq(&self, other: &Self) -> (r: bool) {
        match (self, other) {
            (Host::Ipv4 { bits: a }, Host::Ipv4 { bits: b }) => *a == *b,
            (Host::Ipv6 { bits: a }, Host::Ipv6 { bits: b }) => *a == *b,
            (Host::Domain { name: a }, Host::Domain { name: b }) => *a == *b,
            _ => false,
        }
    }
}

impl vstd::std_specs::cmp::PartialEqSpecImpl for Host {
    open spec fn obeys_eq_spec() -> bool {
        true
    }

    open spec fn eq_spec(&self, other: &Self) -> bool {
        self@ == other@
    }
}

/// A peer endpoint: scheme, host, port and the shape flags read by the
/// validation policy.
#[derive(Debug)]
pub struct PeerAddress {
    /// The transport scheme, e.g. `tcp` or `tor+tls`.
    pub scheme: String,
    /// The host, when the endpoint has one.
    pub host: Option<Host>,
    /// The port, when one was written explicitly.
    pub port: Option<u16>,
    /// Whether the endpoint carries path segments after the authority.
    pub has_path: bool,
    /// Whether the endpoint is hierarchical (not an opaque URL).
    pub hierarchical: bool,
}

/// The mathematical value of a [`PeerAddress`].
pub ghost struct AddrView {
    pub scheme: Seq<char>,
    pub host: Option<HostView>,
    pub port: Option<u16>,
    pub has_path: bool,
    pub hierarchical: bool,
}

impl View for PeerAddress {
    type V = AddrView;

    open spec fn view(&self) -> AddrView {
        AddrView {
            scheme: self.scheme@,
            host: match self.host {
                Option::Some(h) => Option::Some(h@),
                Option::None => Option::None,
            },
            port: self.port,
            has_path: self.has_path,
            hierarchical: self.hierarchical,
        }
    }
}

/// The values of a sequence of endpoints.
pub open spec fn addr_views(s: Seq<PeerAddress>) -> Seq<AddrView> {
    s.map_values(|p: PeerAddress| p@)
}

/// The classification that the `url` crate gives to a raw host string.
pub uninterp spec fn host_of(name: Seq<char>) -> HostView;

/// Relies on `url::Host::parse`: a bracketed IPv6 address becomes an
/// IPv6 host, a dotted or numeric final label becomes an IPv4 host, and
/// any other accepted input becomes an ASCII domain name. The result
/// depends on the characters of the string alone. A string the crate
/// refuses is kept verbatim as a domain name.
#[verifier::external_body]
fn classify_host(name: &str) -> (r: Host)
    ensures
        r@ == host_of(name@),
{
    match url::Host::parse(name) {
        Ok(url::Host::Ipv4(ip)) => Host::Ipv4 { bits: u32::from(ip) },
        Ok(url::Host::Ipv6(ip)) => Host::Ipv6 { bits: u128::from(ip) },
        Ok(url::Host::Domain(d)) => Host::Domain { name: d },
        Err(_) => Host::Domain { name: name.to_string() },
    }
}

impl PeerAddress {
    /// Build an endpoint from its textual parts, classifying the host
    /// string through the `url` crate.
    pub fn from_parts(
        scheme: String,
        host: Option<String>,
        port: Option<u16>,
        has_path: bool,
        hierarchical: bool,
    ) -> (r: PeerAddress)
        ensures
            r@ == (AddrView {
                scheme: scheme@,
                host: match host {
                    Option::Some(h) => Option::Some(host_of(h@)),
                    Option::None => Option::None,
                },
                port,
                has_path,
                hierarchical,
            }),
    {
        let h: Option<Host> = match host {
            Option::Some(name) => Option::Some(classify_host(name.as_str())),
            Option::None => Option::None,
        };
        PeerAddress { scheme, host: h, port, has_path, hierarchical }
    }

    /// Build an endpoint directly from structured parts.
    pub fn new(scheme: String, host: Option<Host>, port: Option<u16>) -> (r: PeerAddress)
        ensures
            r@ == (AddrView {
                scheme: scheme@,
                host: match host {
                    Option::Some(h) => Option::Some(h@),
                    Option::None => Option::None,
                },
                port,
                has_path: false,
                hierarchical: true,
            }),
    {
        PeerAddress { scheme, host, port, has_path: false, hierarchical: true }
    }
}

impl Clone for PeerAddress {
    fn clone(&self) -> (res: Self)
        ensures
            res@ == self@,
    {
        PeerAddress {
            scheme: self.scheme.clone(),
            host: match &self.host {
                Option::Some(h) => Option::Some(h.clone()),
                Option::None => Option::None,
            },
            port: self.port,
            has_path: self.has_path,
            hierarchical: self.hierarchical,
        }
    }
}

impl PartialEq for PeerAddress {
    fn eq(&self, other: &Self) -> (r: bool) {
        let host_eq: bool = match (&self.host, &other.host) {
            (Option::None, Option::None) => true,
            (Option::Some(a), Option::Some(b)) => *a == *b,
            _ => false,
        };
        let port_eq: bool = match (self.port, other.port) {
            (Option::None, Option::None) => true,
            (Option::Some(a), Option::Some(b)) => a == b,
            _ => false,
        };
        self.scheme == other.scheme && host_eq && port_eq && self.has_path == other.has_path
            && self.hierarchical == other.hierarchical
    }
}

impl vstd::std_specs::cmp::PartialEqSpecImpl for PeerAddress {
    open spec fn obeys_eq_spec() -> bool {
        true
    }

    open spec fn eq_spec(&self, other: &Self) -> bool {
        self@ == other@
    }
}

} // verus!
