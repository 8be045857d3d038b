//! The address validator.
//!
//! A candidate endpoint is accepted when it is structurally valid (a
//! hierarchical URL that is a bare authority with host and explicit
//! port), is not rejected, does not collide with one of this node's own
//! advertised hosts, is not local — both waived in localnet mode — and
//! carries an enabled transport scheme. Onion-style schemes further
//! require the host to be a valid onion service identifier.

use vstd::prelude::*;
use crate::addr::{addr_views, AddrView, Host, HostView, PeerAddress};
use crate::locality::{is_local, local_addr};
use crate::settings::SettingsView;

verus! {

broadcast use vstd::string::to_string_from_display_ensures_for_str;

/// Whether a host stands in the rejection registry. Endpoints without a
/// host and local endpoints are never rejected.
pub open spec fn addr_rejected(rejected: Set<HostView>, a: AddrView) -> bool {
    match a.host {
        Option::Some(h) => !local_addr(a) && rejected.contains(h),
        Option::None => false,
    }
}

/// Whether the endpoint shares its host with one of the node's own
/// advertised addresses.
pub open spec fn self_addr_host(ext: Seq<AddrView>, a: AddrView) -> bool {
    exists|i: int| 0 <= i < ext.len() && (#[trigger] ext[i]).host == a.host
}

/// Whether `HsId::from_str` of the `tor-hscrypto` crate accepts the
/// string as a version-3 onion service identifier.
pub uninterp spec fn onion_id_ok(name: Seq<char>) -> bool;

/// Relies on `tor_hscrypto::pk::HsId`'s `FromStr` impl: a string parses
/// exactly when it is an onion service identifier — base32 data carrying
/// a public key, a matching checksum and the supported version byte,
/// followed by the `.onion` suffix. The outcome depends on the
/// characters of the string alone.
#[verifier::external_body]
fn onion_id_valid(name: &str) -> (r: bool)
    ensures
        r == onion_id_ok(name@),
{
    name.parse::<tor_hscrypto::pk::HsId>().is_ok()
}

/// Whether the endpoint's scheme is an enabled transport: plain or TLS
/// TCP always, plain or TLS Tor when the host is a valid onion service
/// identifier. Everything else — including the not yet supported `nym`
/// transports — is dropped.
pub open spec fn scheme_ok(a: AddrView) -> bool {
    ||| a.scheme == "tcp"@
    ||| a.scheme == "tcp+tls"@
    ||| ((a.scheme == "tor"@ || a.scheme == "tor+tls"@) && onion_host_ok(a.host))
}

/// Whether the host is a domain name holding a valid onion service
/// identifier.
pub open spec fn onion_host_ok(h: Option<HostView>) -> bool {
    match h {
        Option::Some(HostView::Domain { name }) => onion_id_ok(name),
        _ => false,
    }
}

/// Decide whether the endpoint's scheme is enabled, per [`scheme_ok`].
pub fn scheme_allowed(a: &PeerAddress) -> (r: bool)
    ensures
        r == scheme_ok(a@),
{
    if a.scheme == "tcp".to_string() || a.scheme == "tcp+tls".to_string() {
        true
    } else if a.scheme == "tor".to_string() || a.scheme == "tor+tls".to_string() {
        match &a.host {
            Option::Some(Host::Domain { name }) => onion_id_valid(name.as_str()),
            _ => false,
        }
    } else {
        false
    }
}

/// Decide whether the endpoint shares its host with an advertised
/// address, per [`self_addr_host`].
pub fn matches_external(ext: &Vec<PeerAddress>, addr: &PeerAddress) -> (r: bool)
    ensures
        r == self_addr_host(addr_views(ext@), addr@),
{
    let ghost eseq = addr_views(ext@);
    let mut i: usize = 0;
    while i < ext.len()
        invariant
            0 <= i <= ext.len(),
            eseq == addr_views(ext@),
            forall|k: int| 0 <= k < i ==> (#[trigger] eseq[k]).host != addr@.host,
        decreases ext.len() - i,
    {
        let same: bool = match (&ext[i].host, &addr.host) {
            (Option::None, Option::None) => true,
            (Option::Some(a), Option::Some(b)) => *a == *b,
            _ => false,
        };
        if same {
            assert(eseq[i as int].host == addr@.host);
            return true;
        }
        i = i + 1;
    }
    false
}

/// The full acceptance policy for one candidate endpoint.
pub open spec fn accepts(st: SettingsView, rejected: Set<HostView>, a: AddrView) -> bool {
    &&& a.host is Some
    &&& a.port is Some
    &&& a.hierarchical
    &&& !a.has_path
    &&& !addr_rejected(rejected, a)
    &&& (st.localnet || !self_addr_host(st.external_addrs, a))
    &&& (st.localnet || !local_addr(a))
    &&& scheme_ok(a)
}

/// The accepted candidates of a batch, kept in submission order,
/// duplicates included.
pub open spec fn accepted_seq(
    cands: Seq<AddrView>,
    st: SettingsView,
    rejected: Set<HostView>,
) -> Seq<AddrView>
    decreases cands.len(),
{
    if cands.len() == 0 {
        Seq::empty()
    } else {
        let rest = accepted_seq(cands.drop_last(), st, rejected);
        if accepts(st, rejected, cands.last()) {
            rest.push(cands.last())
        } else {
            rest
        }
    }
}

/// The set of accepted candidates of a batch.
pub open spec fn accepted_set(
    cands: Seq<AddrView>,
    st: SettingsView,
    rejected: Set<HostView>,
) -> Set<AddrView> {
    Set::new(|v: AddrView| cands.contains(v) && accepts(st, rejected, v))
}

/// An endpoint stands in the accepted subsequence of a batch exactly
/// when it stands in the batch and the policy accepts it.
pub proof fn lemma_accepted_seq_membership(
    cands: Seq<AddrView>,
    st: SettingsView,
    rejected: Set<HostView>,
    v: AddrView,
)
    ensures
        accepted_seq(cands, st, rejected).contains(v) <==> (cands.contains(v) && accepts(
            st,
            rejected,
            v,
        )),
    decreases cands.len(),
{
    if cands.len() == 0 {
    } else {
        lemma_accepted_seq_membership(cands.drop_last(), st, rejected, v);
        let rest = accepted_seq(cands.drop_last(), st, rejected);
        let full = accepted_seq(cands, st, rejected);
        assert(cands.drop_last().contains(v) || v == cands.last() <==> cands.contains(v)) by {
            if cands.drop_last().contains(v) {
                let i = choose|i: int|
                    0 <= i < cands.drop_last().len() && cands.drop_last()[i] == v;
                assert(cands[i] == v);
            }
            if cands.contains(v) {
                let i = choose|i: int| 0 <= i < cands.len() && cands[i] == v;
                if i < cands.len() - 1 {
                    assert(cands.drop_last()[i] == v);
                }
            }
        }
        if accepts(st, rejected, cands.last()) {
            assert(full == rest.push(cands.last()));
            assert(forall|u: AddrView| #[trigger]
                full.contains(u) <==> (rest.contains(u) || u == cands.last())) by {
                assert(forall|u: AddrView| #[trigger]
                    rest.contains(u) ==> full.contains(u)) by {
                    assert(forall|i: int|
                        0 <= i < rest.len() ==> full[i] == #[trigger] rest[i]);
                }
                assert(full[full.len() - 1] == cands.last());
            }
        }
    }
}

} // verus!
