//! The locality classifier.
//!
//! An endpoint is local when its host is not globally routable: an IPv4
//! or IPv6 address outside the globally reachable ranges, or a domain
//! name that is a recognized alias of the local machine. An endpoint
//! without a host is never local. Local endpoints are exempt from
//! rejection and from the self-address and locality filters when the
//! ledger runs in localnet mode.

use vstd::prelude::*;
use crate::addr::{AddrView, Host, HostView, PeerAddress};

verus! {

broadcast use vstd::string::to_string_from_display_ensures_for_str;

/// Whether the 32 bits of an IPv4 address lie in a globally routable
/// range: outside this-network, private, shared, loopback, link-local,
/// reserved-for-future-protocols, documentation, benchmarking,
/// multicast, reserved and broadcast space.
pub open spec fn ipv4_global(b: u32) -> bool {
    !((b >> 24) == 0u32  // 0.0.0.0/8, "this network"
     || (b >> 24) == 10u32  // 10.0.0.0/8, private
     || (b >> 20) == 0xAC1u32  // 172.16.0.0/12, private
     || (b >> 16) == 0xC0A8u32  // 192.168.0.0/16, private
     || (b >> 22) == 0x191u32  // 100.64.0.0/10, shared
     || (b >> 24) == 127u32  // 127.0.0.0/8, loopback
     || (b >> 16) == 0xA9FEu32  // 169.254.0.0/16, link-local
     || ((b >> 8) == 0xC00000u32 && b != 0xC0000009u32 && b != 0xC000000Au32)  // 192.0.0.0/24 less two routable anycast hosts
     || (b >> 8) == 0xC00002u32  // 192.0.2.0/24, documentation
     || (b >> 8) == 0xC63364u32  // 198.51.100.0/24, documentation
     || (b >> 8) == 0xCB0071u32  // 203.0.113.0/24, documentation
     || (b >> 17) == 0x6309u32  // 198.18.0.0/15, benchmarking
     || (b >> 28) == 14u32  // 224.0.0.0/4, multicast
     || ((b >> 28) == 15u32 && b != 0xFFFFFFFFu32)  // 240.0.0.0/4, reserved
     || b == 0xFFFFFFFFu32)  // broadcast
}

/// Whether the 128 bits of an IPv6 address lie in a globally routable
/// range: outside unspecified, loopback, IPv4-mapped, IPv4-IPv6
/// translation, discard-only, the non-routable IETF protocol
/// assignments, documentation, benchmarking, unique-local, link-local
/// and multicast space.
pub open spec fn ipv6_global(b: u128) -> bool {
    !(b == 0u128  // ::, unspecified
     || b == 1u128  // ::1, loopback
     || (b >> 32) == 0xFFFFu128  // ::ffff:0:0/96, IPv4-mapped
     || (b >> 80) == 0x0064_FF9B_0001u128  // 64:ff9b:1::/48, IPv4-IPv6 translation
     || (b >> 64) == 0x0100_0000_0000_0000u128  // 100::/64, discard-only
     || ((b >> 112) == 0x2001u128 && ((b >> 96) & 0xFFFFu128) < 0x200u128  // 2001::/23, IETF protocol assignments ...
        && !(b == 0x2001_0001_0000_0000_0000_0000_0000_0001u128  // ... except Port Control Protocol anycast
             || b == 0x2001_0001_0000_0000_0000_0000_0000_0002u128  // ... TURN anycast
             || (b >> 96) == 0x2001_0003u128  // ... AMT
             || (b >> 80) == 0x2001_0004_0112u128  // ... AS112-v6
             || (((b >> 96) & 0xFFFFu128) >= 0x20u128 && ((b >> 96) & 0xFFFFu128)
                <= 0x2Fu128)))  // ... ORCHIDv2
     || (b >> 96) == 0x2001_0DB8u128  // 2001:db8::/32, documentation
     || (b >> 80) == 0x2001_0002_0000u128  // 2001:2::/48, benchmarking
     || (b >> 121) == 0x7Eu128  // fc00::/7, unique-local
     || (b >> 118) == 0x3FAu128  // fe80::/10, link-local
     || (b >> 120) == 0xFFu128)  // ff00::/8, multicast
}

/// Whether a host is local: a non-global IP address, or a domain name
/// that names the local machine.
pub open spec fn local_host(h: HostView) -> bool {
    match h {
        HostView::Ipv4 { bits } => !ipv4_global(bits),
        HostView::Ipv6 { bits } => !ipv6_global(bits),
        HostView::Domain { name } => name == "localhost"@ || name == "localhost.localdomain"@,
    }
}

/// Whether an endpoint is local. An endpoint without a host is not.
pub open spec fn local_addr(a: AddrView) -> bool {
    match a.host {
        Option::Some(h) => local_host(h),
        Option::None => false,
    }
}

/// Decide whether an endpoint is local, per [`local_addr`].
pub fn is_local(addr: &PeerAddress) -> (r: bool)
    ensures
        r == local_addr(addr@),
{
    match &addr.host {
        Option::None => false,
        Option::Some(h) => match h {
            Host::Ipv4 { bits } => {
                let b: u32 = *bits;
                (b >> 24) == 0u32 || (b >> 24) == 10u32 || (b >> 20) == 0xAC1u32 || (b >> 16)
                    == 0xC0A8u32 || (b >> 22) == 0x191u32 || (b >> 24) == 127u32 || (b >> 16)
                    == 0xA9FEu32 || ((b >> 8) == 0xC00000u32 && b != 0xC0000009u32 && b
                    != 0xC000000Au32) || (b >> 8) == 0xC00002u32 || (b >> 8) == 0xC63364u32 || (b
                    >> 8) == 0xCB0071u32 || (b >> 17) == 0x6309u32 || (b >> 28) == 14u32 || ((b
                    >> 28) == 15u32 && b != 0xFFFFFFFFu32) || b == 0xFFFFFFFFu32
            },
            Host::Ipv6 { bits } => {
                let b: u128 = *bits;
                b == 0u128 || b == 1u128 || (b >> 32) == 0xFFFFu128 || (b >> 80)
                    == 0x0064_FF9B_0001u128 || (b >> 64) == 0x0100_0000_0000_0000u128 || ((b
                    >> 112) == 0x2001u128 && ((b >> 96) & 0xFFFFu128) < 0x200u128 && !(b
                    == 0x2001_0001_0000_0000_0000_0000_0000_0001u128 || b
                    == 0x2001_0001_0000_0000_0000_0000_0000_0002u128 || (b >> 96)
                    == 0x2001_0003u128 || (b >> 80) == 0x2001_0004_0112u128 || (((b >> 96)
                    & 0xFFFFu128) >= 0x20u128 && ((b >> 96) & 0xFFFFu128) <= 0x2Fu128))) || (b
                    >> 96) == 0x2001_0DB8u128 || (b >> 80) == 0x2001_0002_0000u128 || (b >> 121)
                    == 0x7Eu128 || (b >> 118) == 0x3FAu128 || (b >> 120) == 0xFFu128
            },
            Host::Domain { name } => {
                *name == "localhost".to_string() || *name == "localhost.localdomain".to_string()
            },
        },
    }
}

} // verus!
