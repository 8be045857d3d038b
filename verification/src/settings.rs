//! Static configuration of a ledger instance.

use vstd::prelude::*;
use crate::addr::{addr_views, AddrView, PeerAddress};

verus! {

/// The immutable settings a ledger instance is built with.
pub struct Settings {
    /// Whether the node runs in a local test topology. Localnet mode
    /// relaxes the locality and self-address filters.
    pub localnet: bool,
    /// This node's own advertised addresses; candidates sharing a host
    /// with one of them are dropped outside localnet mode.
    pub external_addrs: Vec<PeerAddress>,
    /// The exact number of quarantine calls that escalates an endpoint
    /// to rejection.
    pub quarantine_limit: usize,
}

/// The mathematical value of [`Settings`].
pub ghost struct SettingsView {
    pub localnet: bool,
    pub external_addrs: Seq<AddrView>,
    pub quarantine_limit: usize,
}

impl View for Settings {
    type V = SettingsView;

    open spec fn view(&self) -> SettingsView {
        SettingsView {
            localnet: self.localnet,
            external_addrs: addr_views(self.external_addrs@),
            quarantine_limit: self.quarantine_limit,
        }
    }
}

impl SettingsView {
    /// Well-formed settings: escalation takes at least one quarantine
    /// call, and every advertised self-address carries a host.
    pub open spec fn wf(self) -> bool {
        &&& self.quarantine_limit >= 1
        &&& forall|i: int|
            0 <= i < self.external_addrs.len() ==> (#[trigger] self.external_addrs[i].host)
                is Some
    }
}

} // verus!
