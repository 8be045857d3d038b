//! The peer address ledger.
//!
//! A [`Hosts`] instance keeps three collections: the set of stored
//! endpoints, the quarantine ledger mapping endpoints to retry
//! counters, and the registry of rejected hosts; beside them stands an
//! observer registry of store-event queues. Every mutation is described
//! against the abstract [`LedgerView`] by a pure transition function,
//! so that sequences of calls can be reasoned about at the level of
//! sets and maps.

use vstd::prelude::*;
use vstd::assert_sets_equal;
use vstd::assert_maps_equal;
use vstd::map::*;
use crate::addr::{AddrView, Host, HostView, PeerAddress};
use crate::locality::{is_local, local_addr};
use crate::settings::{Settings, SettingsView};
use crate::validate::{
    accepts, accepted_seq, accepted_set, addr_rejected, lemma_accepted_seq_membership,
    matches_external, scheme_allowed,
};
use crate::sample::{
    collect_by_scheme, distinct_seq, lemma_collect_distinct, lemma_collect_len,
    lemma_collect_snoc, sample_indices, scheme_fetch, scheme_in,
};

verus! {

/// One quarantine record: an endpoint and how often it has been
/// quarantined again after first entering the ledger.
struct QEntry {
    addr: PeerAddress,
    retries: usize,
}

/// The abstract state of a ledger: which endpoints are stored, which
/// are quarantined with which counter, and which hosts are rejected.
pub ghost struct LedgerView {
    pub stored: Set<AddrView>,
    pub quarantined: Map<AddrView, nat>,
    pub rejected: Set<HostView>,
}

impl LedgerView {
    /// The state of a freshly built ledger.
    pub open spec fn init() -> LedgerView {
        LedgerView { stored: Set::empty(), quarantined: Map::empty(), rejected: Set::empty() }
    }
}

/// Storing a batch adds exactly the accepted candidates to the stored
/// set; quarantine and rejection stand unchanged.
pub open spec fn store_step(l: LedgerView, st: SettingsView, cands: Seq<AddrView>) -> LedgerView {
    LedgerView {
        stored: l.stored.union(accepted_set(cands, st, l.rejected)),
        quarantined: l.quarantined,
        rejected: l.rejected,
    }
}

/// Removing an endpoint forgets it in the stored set and the
/// quarantine ledger; the rejection registry stands unchanged.
pub open spec fn remove_step(l: LedgerView, a: AddrView) -> LedgerView {
    LedgerView {
        stored: l.stored.remove(a),
        quarantined: l.quarantined.remove(a),
        rejected: l.rejected,
    }
}

/// Marking rejects the endpoint's host — unless the endpoint is local
/// or carries no host, in which case nothing happens.
pub open spec fn mark_rejected_step(l: LedgerView, a: AddrView) -> LedgerView {
    match a.host {
        Option::Some(h) => if !local_addr(a) {
            LedgerView { stored: l.stored, quarantined: l.quarantined, rejected: l.rejected.insert(h) }
        } else {
            l
        },
        Option::None => l,
    }
}

/// Unmarking forgets the endpoint's host in the rejection registry.
pub open spec fn unmark_rejected_step(l: LedgerView, a: AddrView) -> LedgerView {
    match a.host {
        Option::Some(h) => LedgerView {
            stored: l.stored,
            quarantined: l.quarantined,
            rejected: l.rejected.remove(h),
        },
        Option::None => l,
    }
}

/// Quarantining drops the endpoint from the stored set and advances
/// its retry counter: a fresh endpoint enters the ledger at zero, a
/// known one is counted up, and the endpoint whose count reaches the
/// limit — the limit'th quarantine call overall — leaves the ledger
/// and has its host rejected instead.
pub open spec fn quarantine_step(l: LedgerView, limit: int, a: AddrView) -> LedgerView {
    let s = l.stored.remove(a);
    if l.quarantined.dom().contains(a) {
        let c = l.quarantined[a];
        if c + 2 == limit {
            mark_rejected_step(
                LedgerView { stored: s, quarantined: l.quarantined.remove(a), rejected: l.rejected },
                a,
            )
        } else {
            LedgerView { stored: s, quarantined: l.quarantined.insert(a, (c + 1) as nat), rejected: l.rejected }
        }
    } else {
        if limit == 1 {
            mark_rejected_step(
                LedgerView { stored: s, quarantined: l.quarantined, rejected: l.rejected },
                a,
            )
        } else {
            LedgerView { stored: s, quarantined: l.quarantined.insert(a, 0), rejected: l.rejected }
        }
    }
}

/// No two endpoints of the sequence share their value.
spec fn distinct_addrs(s: Seq<PeerAddress>) -> bool {
    forall|i: int, j: int| 0 <= i < j < s.len() ==> s[i]@ != s[j]@
}

/// No two hosts of the sequence share their value.
spec fn distinct_hosts(s: Seq<Host>) -> bool {
    forall|i: int, j: int| 0 <= i < j < s.len() ==> s[i]@ != s[j]@
}

/// No two quarantine records share their endpoint.
spec fn distinct_qkeys(s: Seq<QEntry>) -> bool {
    forall|i: int, j: int| 0 <= i < j < s.len() ==> s[i].addr@ != s[j].addr@
}

/// The set of endpoint values of the sequence.
spec fn set_of_addrs(s: Seq<PeerAddress>) -> Set<AddrView> {
    Set::new(|v: AddrView| exists|i: int| 0 <= i < s.len() && s[i]@ == v)
}

/// The set of host values of the sequence.
spec fn set_of_hosts(s: Seq<Host>) -> Set<HostView> {
    Set::new(|v: HostView| exists|i: int| 0 <= i < s.len() && s[i]@ == v)
}

/// The map from quarantined endpoint to retry counter.
spec fn q_map(s: Seq<QEntry>) -> Map<AddrView, nat> {
    Map::new(
        |v: AddrView| exists|i: int| 0 <= i < s.len() && s[i].addr@ == v,
        |v: AddrView|
            s[choose|i: int| 0 <= i < s.len() && s[i].addr@ == v].retries as nat,
    )
}

/// A listener handle for store events.
pub struct Subscription {
    id: usize,
}

impl Subscription {
    /// Which event queue the handle reads.
    pub closed spec fn sid(self) -> int {
        self.id as int
    }
}

/// The peer address ledger.
pub struct Hosts {
    /// Stored endpoints, unique by value.
    addrs: Vec<PeerAddress>,
    /// Quarantine records, unique by endpoint.
    quarantine: Vec<QEntry>,
    /// Rejected hosts, unique by value.
    rejected: Vec<Host>,
    /// Undelivered store-event counts, one queue per subscriber.
    subscribers: Vec<Vec<usize>>,
    /// The static configuration of this instance.
    settings: Settings,
}

impl Hosts {
    /// The abstract ledger state.
    pub closed spec fn ledger(self) -> LedgerView {
        LedgerView {
            stored: set_of_addrs(self.addrs@),
            quarantined: q_map(self.quarantine@),
            rejected: set_of_hosts(self.rejected@),
        }
    }

    /// The stored endpoints as a snapshot sequence, in insertion order.
    pub closed spec fn stored_seq(self) -> Seq<AddrView> {
        self.addrs@.map_values(|p: PeerAddress| p@)
    }

    /// The quarantined endpoints as a snapshot sequence.
    pub closed spec fn quar_seq(self) -> Seq<AddrView> {
        self.quarantine@.map_values(|e: QEntry| e.addr@)
    }

    /// The configuration the instance was built with.
    pub closed spec fn config(self) -> SettingsView {
        self.settings@
    }

    /// The undelivered store events of each subscriber, oldest first.
    pub closed spec fn events(self) -> Seq<Seq<usize>> {
        self.subscribers@.map_values(|q: Vec<usize>| q@)
    }

    /// The internal invariant: well-formed settings, collections
    /// unique by value, and every retry counter at least two below the
    /// quarantine limit.
    pub closed spec fn wf(self) -> bool {
        &&& self.settings@.wf()
        &&& distinct_addrs(self.addrs@)
        &&& distinct_qkeys(self.quarantine@)
        &&& distinct_hosts(self.rejected@)
        &&& forall|i: int|
            0 <= i < self.quarantine@.len() ==> (#[trigger] self.quarantine@[i]).retries + 2
                <= self.settings.quarantine_limit
    }

    /// The stored snapshot sequence carries exactly the stored set,
    /// without repeats.
    pub proof fn lemma_stored_seq(self)
        requires
            self.wf(),
        ensures
            forall|v: AddrView| self.ledger().stored.contains(v) <==> self.stored_seq().contains(v),
            distinct_seq(self.stored_seq()),
            self.ledger().stored.finite(),
            self.ledger().stored.len() == self.stored_seq().len(),
    {
        assert(forall|i: int|
            0 <= i < self.addrs@.len() ==> self.stored_seq()[i] == (#[trigger] self.addrs@[i])@);
        assert forall|v: AddrView| self.ledger().stored.contains(v)
            <==> self.stored_seq().contains(v) by {
            if self.ledger().stored.contains(v) {
                let i = choose|i: int| 0 <= i < self.addrs@.len() && self.addrs@[i]@ == v;
                assert(self.stored_seq()[i] == v);
            }
            if self.stored_seq().contains(v) {
                let i = choose|i: int|
                    0 <= i < self.stored_seq().len() && self.stored_seq()[i] == v;
                assert(self.addrs@[i]@ == v);
            }
        }
        lemma_set_of_addrs_card(self.addrs@);
    }

    /// The quarantine snapshot sequence carries exactly the domain of
    /// the quarantine map, without repeats.
    pub proof fn lemma_quar_seq(self)
        requires
            self.wf(),
        ensures
            forall|v: AddrView|
                self.ledger().quarantined.dom().contains(v) <==> self.quar_seq().contains(v),
            distinct_seq(self.quar_seq()),
    {
        assert(forall|i: int|
            0 <= i < self.quarantine@.len() ==> self.quar_seq()[i] == (
            #[trigger] self.quarantine@[i]).addr@);
        assert forall|v: AddrView| self.ledger().quarantined.dom().contains(v)
            <==> self.quar_seq().contains(v) by {
            if self.ledger().quarantined.dom().contains(v) {
                let i = choose|i: int|
                    0 <= i < self.quarantine@.len() && self.quarantine@[i].addr@ == v;
                assert(self.quar_seq()[i] == v);
            }
            if self.quar_seq().contains(v) {
                let i = choose|i: int| 0 <= i < self.quar_seq().len() && self.quar_seq()[i] == v;
                assert(self.quarantine@[i].addr@ == v);
            }
        }
    }

    /// Build a fresh, empty ledger over the given settings.
    pub fn new(settings: Settings) -> (r: Hosts)
        requires
            settings@.wf(),
        ensures
            r.wf(),
            r.ledger() == LedgerView::init(),
            r.config() == settings@,
            r.events() == Seq::<Seq<usize>>::empty(),
    {
        let r = Hosts {
            addrs: Vec::new(),
            quarantine: Vec::new(),
            rejected: Vec::new(),
            subscribers: Vec::new(),
            settings,
        };
        proof {
            assert_sets_equal!(set_of_addrs(r.addrs@) == Set::<AddrView>::empty());
            assert_sets_equal!(set_of_hosts(r.rejected@) == Set::<HostView>::empty());
            assert_maps_equal!(q_map(r.quarantine@), Map::<AddrView, nat>::empty());
            assert(r.events() =~= Seq::<Seq<usize>>::empty());
        }
        r
    }

    /// Decide whether an endpoint is local; locality depends on the
    /// endpoint alone, not on the ledger.
    pub fn is_local_host(&self, url: PeerAddress) -> (r: bool)
        ensures
            r == local_addr(url@),
    {
        is_local(&url)
    }

    /// Whether the endpoint's host stands in the rejection registry.
    /// Endpoints without a host and local endpoints are never rejected.
    pub fn is_rejected(&self, peer: &PeerAddress) -> (r: bool)
        ensures
            r == addr_rejected(self.ledger().rejected, peer@),
    {
        match &peer.host {
            Option::None => false,
            Option::Some(h) => {
                if is_local(peer) {
                    false
                } else {
                    let found = find_host(&self.rejected, h);
                    proof {
                        if found is Some {
                            let i = found->Some_0 as int;
                            assert(set_of_hosts(self.rejected@).contains(h@));
                        }
                    }
                    found.is_some()
                }
            },
        }
    }

    /// Reject the endpoint's host, unless the endpoint is local or has
    /// no host.
    pub fn mark_rejected(&mut self, peer: &PeerAddress)
        requires
            old(self).wf(),
        ensures
            final(self).wf(),
            final(self).ledger() == mark_rejected_step(old(self).ledger(), peer@),
            final(self).config() == old(self).config(),
            final(self).events() == old(self).events(),
            final(self).stored_seq() == old(self).stored_seq(),
            final(self).quar_seq() == old(self).quar_seq(),
    {
        match &peer.host {
            Option::None => {},
            Option::Some(h) => {
                if is_local(peer) {
                    return ;
                }
                match find_host(&self.rejected, h) {
                    Option::Some(_) => {
                        proof {
                            assert(set_of_hosts(self.rejected@).contains(h@));
                            assert_sets_equal!(
                                set_of_hosts(self.rejected@).insert(h@)
                                    == set_of_hosts(self.rejected@));
                        }
                    },
                    Option::None => {
                        let ghost olds = self.rejected@;
                        self.rejected.push(h.clone());
                        proof {
                            lemma_set_of_hosts_push(olds, self.rejected@[olds.len() as int]);
                            assert(self.rejected@ =~= olds.push(
                                self.rejected@[olds.len() as int]));
                            assert(self.rejected@[olds.len() as int]@ == h@);
                            assert_sets_equal!(set_of_hosts(self.rejected@)
                                == set_of_hosts(olds).insert(h@));
                        }
                    },
                }
            },
        }
    }

    /// Forget the endpoint's host in the rejection registry.
    pub fn unmark_rejected(&mut self, peer: &PeerAddress)
        requires
            old(self).wf(),
        ensures
            final(self).wf(),
            final(self).ledger() == unmark_rejected_step(old(self).ledger(), peer@),
            final(self).config() == old(self).config(),
            final(self).events() == old(self).events(),
            final(self).stored_seq() == old(self).stored_seq(),
            final(self).quar_seq() == old(self).quar_seq(),
    {
        match &peer.host {
            Option::None => {},
            Option::Some(h) => {
                match find_host(&self.rejected, h) {
                    Option::Some(i) => {
                        let ghost olds = self.rejected@;
                        self.rejected.remove(i);
                        proof {
                            lemma_set_of_hosts_remove(olds, i as int);
                        }
                    },
                    Option::None => {
                        proof {
                            assert(!set_of_hosts(self.rejected@).contains(h@));
                            assert_sets_equal!(
                                set_of_hosts(self.rejected@).remove(h@)
                                    == set_of_hosts(self.rejected@));
                        }
                    },
                }
            },
        }
    }

    /// Whether the stored set holds the endpoint.
    pub fn contains(&self, addr: &PeerAddress) -> (r: bool)
        ensures
            r == self.ledger().stored.contains(addr@),
    {
        let found = find_addr(&self.addrs, addr);
        proof {
            if found is Some {
                assert(set_of_addrs(self.addrs@).contains(addr@));
            }
        }
        found.is_some()
    }

    /// Whether the stored set is empty.
    pub fn is_empty(&self) -> (r: bool)
        ensures
            r == (self.ledger().stored == Set::<AddrView>::empty()),
    {
        let r = self.addrs.is_empty();
        proof {
            if self.addrs@.len() == 0 {
                assert_sets_equal!(set_of_addrs(self.addrs@) == Set::<AddrView>::empty());
            } else {
                assert(set_of_addrs(self.addrs@).contains(self.addrs@[0]@));
                assert(!Set::<AddrView>::empty().contains(self.addrs@[0]@));
            }
        }
        r
    }

    /// A snapshot of every stored endpoint, in insertion order.
    pub fn fetch_all(&self) -> (r: Vec<PeerAddress>)
        ensures
            crate::addr::addr_views(r@) == self.stored_seq(),
    {
        let mut out: Vec<PeerAddress> = Vec::new();
        let mut i: usize = 0;
        while i < self.addrs.len()
            invariant
                0 <= i <= self.addrs@.len(),
                crate::addr::addr_views(out@) =~= self.stored_seq().take(i as int),
            decreases self.addrs@.len() - i,
        {
            let ghost prev = out@;
            out.push(self.addrs[i].clone());
            proof {
                assert(self.stored_seq().len() == self.addrs@.len());
                assert(crate::addr::addr_views(prev).len() == prev.len());
                assert(self.stored_seq().take(i as int).len() == i as int);
                assert(prev.len() == i as int);
                assert(out@ == prev.push(out@[prev.len() as int]));
                assert(out@[prev.len() as int]@ == self.addrs@[i as int]@);
                assert forall|k: int| 0 <= k < out@.len() implies crate::addr::addr_views(out@)[k]
                    == self.stored_seq().take(i as int + 1)[k] by {
                    assert(crate::addr::addr_views(out@)[k] == out@[k]@);
                    assert(self.stored_seq().take(i as int + 1)[k] == self.addrs@[k]@);
                    if k < prev.len() {
                        assert(out@[k] == prev[k]);
                        assert(crate::addr::addr_views(prev)[k] == prev[k]@);
                        assert(crate::addr::addr_views(prev)[k] == self.stored_seq().take(
                            i as int,
                        )[k]);
                    }
                }
                assert(crate::addr::addr_views(out@) =~= self.stored_seq().take(i as int + 1));
            }
            i = i + 1;
        }
        proof {
            assert(self.stored_seq().take(self.addrs@.len() as int) =~= self.stored_seq());
        }
        out
    }

    /// Register a listener; its queue starts empty.
    pub fn subscribe_store(&mut self) -> (r: Subscription)
        requires
            old(self).wf(),
        ensures
            final(self).wf(),
            final(self).events() == old(self).events().push(Seq::<usize>::empty()),
            r.sid() == old(self).events().len(),
            final(self).ledger() == old(self).ledger(),
            final(self).config() == old(self).config(),
            final(self).stored_seq() == old(self).stored_seq(),
            final(self).quar_seq() == old(self).quar_seq(),
    {
        let id = self.subscribers.len();
        self.subscribers.push(Vec::new());
        proof {
            assert(self.events() =~= old(self).events().push(Seq::<usize>::empty()));
        }
        Subscription { id }
    }

    /// Take the oldest undelivered store event of the subscription, if
    /// any.
    pub fn next_store_event(&mut self, sub: &Subscription) -> (r: Option<usize>)
        requires
            old(self).wf(),
        ensures
            final(self).wf(),
            final(self).ledger() == old(self).ledger(),
            final(self).config() == old(self).config(),
            final(self).stored_seq() == old(self).stored_seq(),
            final(self).quar_seq() == old(self).quar_seq(),
            if 0 <= sub.sid() < old(self).events().len() && old(self).events()[sub.sid()].len()
                > 0 {
                &&& r == Option::Some(old(self).events()[sub.sid()][0] as usize)
                &&& final(self).events() == old(self).events().update(
                    sub.sid(),
                    old(self).events()[sub.sid()].drop_first(),
                )
            } else {
                &&& r is None
                &&& final(self).events() == old(self).events()
            },
    {
        if sub.id < self.subscribers.len() {
            let ghost olds = self.subscribers@;
            let mut q = self.subscribers.remove(sub.id);
            if q.len() > 0 {
                let v = q.remove(0);
                self.subscribers.insert(sub.id, q);
                proof {
                    olds.remove_ensures(sub.id as int);
                    assert(self.subscribers@ =~= olds.update(sub.id as int, self.subscribers@[sub.id as int]));
                    assert(self.subscribers@[sub.id as int]@ =~= olds[sub.id as int]@.drop_first());
                    assert(self.events() =~= old(self).events().update(
                        sub.sid(),
                        old(self).events()[sub.sid()].drop_first(),
                    ));
                }
                Option::Some(v)
            } else {
                self.subscribers.insert(sub.id, q);
                proof {
                    olds.remove_ensures(sub.id as int);
                    assert(self.subscribers@ =~= olds);
                    assert(self.events() =~= old(self).events());
                }
                Option::None
            }
        } else {
            Option::None
        }
    }
}

/// Find the position of an endpoint with the given value.
fn find_addr(v: &Vec<PeerAddress>, a: &PeerAddress) -> (r: Option<usize>)
    ensures
        match r {
            Option::Some(i) => 0 <= i < v@.len() && v@[i as int]@ == a@,
            Option::None => forall|k: int| 0 <= k < v@.len() ==> (#[trigger] v@[k])@ != a@,
        },
{
    let mut i: usize = 0;
    while i < v.len()
        invariant
            0 <= i <= v@.len(),
            forall|k: int| 0 <= k < i ==> (#[trigger] v@[k])@ != a@,
        decreases v@.len() - i,
    {
        if v[i] == *a {
            return Option::Some(i);
        }
        i = i + 1;
    }
    Option::None
}

/// Find the position of a host with the given value.
fn find_host(v: &Vec<Host>, h: &Host) -> (r: Option<usize>)
    ensures
        match r {
            Option::Some(i) => 0 <= i < v@.len() && v@[i as int]@ == h@,
            Option::None => forall|k: int| 0 <= k < v@.len() ==> (#[trigger] v@[k])@ != h@,
        },
{
    let mut i: usize = 0;
    while i < v.len()
        invariant
            0 <= i <= v@.len(),
            forall|k: int| 0 <= k < i ==> (#[trigger] v@[k])@ != h@,
        decreases v@.len() - i,
    {
        if v[i] == *h {
            return Option::Some(i);
        }
        i = i + 1;
    }
    Option::None
}

/// Find the position of the quarantine record of an endpoint.
fn find_q(v: &Vec<QEntry>, a: &PeerAddress) -> (r: Option<usize>)
    ensures
        match r {
            Option::Some(i) => 0 <= i < v@.len() && v@[i as int].addr@ == a@,
            Option::None => forall|k: int| 0 <= k < v@.len() ==> (#[trigger] v@[k]).addr@ != a@,
        },
{
    let mut i: usize = 0;
    while i < v.len()
        invariant
            0 <= i <= v@.len(),
            forall|k: int| 0 <= k < i ==> (#[trigger] v@[k]).addr@ != a@,
        decreases v@.len() - i,
    {
        if v[i].addr == *a {
            return Option::Some(i);
        }
        i = i + 1;
    }
    Option::None
}

/// Appending an endpoint inserts its value into the set.
proof fn lemma_set_of_addrs_push(s: Seq<PeerAddress>, p: PeerAddress)
    ensures
        set_of_addrs(s.push(p)) == set_of_addrs(s).insert(p@),
        distinct_addrs(s) && !set_of_addrs(s).contains(p@) ==> distinct_addrs(s.push(p)),
{
    assert_sets_equal!(set_of_addrs(s.push(p)) == set_of_addrs(s).insert(p@), v => {
        if set_of_addrs(s.push(p)).contains(v) {
            let i = choose|i: int| 0 <= i < s.push(p).len() && s.push(p)[i]@ == v;
            if i < s.len() {
                assert(s[i]@ == v);
            } else {
                assert(v == p@);
            }
        }
        if set_of_addrs(s).contains(v) {
            let i = choose|i: int| 0 <= i < s.len() && s[i]@ == v;
            assert(s.push(p)[i]@ == v);
        }
        if v == p@ {
            assert(s.push(p)[s.len() as int]@ == v);
        }
    });
    if distinct_addrs(s) && !set_of_addrs(s).contains(p@) {
        assert forall|i: int, j: int| 0 <= i < j < s.push(p).len() implies s.push(p)[i]@ != s.push(
            p,
        )[j]@ by {
            if j < s.len() {
            } else {
                assert(s.push(p)[j]@ == p@);
                assert(s.push(p)[i]@ == s[i]@);
            }
        }
    }
}

/// Removing an endpoint deletes its value from the set, when the
/// sequence holds no repeats.
proof fn lemma_set_of_addrs_remove(s: Seq<PeerAddress>, i: int)
    requires
        0 <= i < s.len(),
        distinct_addrs(s),
    ensures
        set_of_addrs(s.remove(i)) == set_of_addrs(s).remove(s[i]@),
        distinct_addrs(s.remove(i)),
{
    s.remove_ensures(i);
    let t = s.remove(i);
    assert_sets_equal!(set_of_addrs(t) == set_of_addrs(s).remove(s[i]@), v => {
        if set_of_addrs(t).contains(v) {
            let k = choose|k: int| 0 <= k < t.len() && t[k]@ == v;
            if k < i {
                assert(s[k]@ == v);
            } else {
                assert(s[k + 1]@ == v);
            }
        }
        if set_of_addrs(s).contains(v) && v != s[i]@ {
            let k = choose|k: int| 0 <= k < s.len() && s[k]@ == v;
            if k < i {
                assert(t[k]@ == v);
            } else {
                assert(t[k - 1]@ == v);
            }
        }
    });
    assert forall|a: int, b: int| 0 <= a < b < t.len() implies t[a]@ != t[b]@ by {
        if b < i {
        } else if a < i {
            assert(t[a]@ == s[a]@ && t[b]@ == s[b + 1]@);
        } else {
            assert(t[a]@ == s[a + 1]@ && t[b]@ == s[b + 1]@);
        }
    }
}

/// Appending a host inserts its value into the set.
proof fn lemma_set_of_hosts_push(s: Seq<Host>, p: Host)
    ensures
        set_of_hosts(s.push(p)) == set_of_hosts(s).insert(p@),
        distinct_hosts(s) && !set_of_hosts(s).contains(p@) ==> distinct_hosts(s.push(p)),
{
    assert_sets_equal!(set_of_hosts(s.push(p)) == set_of_hosts(s).insert(p@), v => {
        if set_of_hosts(s.push(p)).contains(v) {
            let i = choose|i: int| 0 <= i < s.push(p).len() && s.push(p)[i]@ == v;
            if i < s.len() {
                assert(s[i]@ == v);
            } else {
                assert(v == p@);
            }
        }
        if set_of_hosts(s).contains(v) {
            let i = choose|i: int| 0 <= i < s.len() && s[i]@ == v;
            assert(s.push(p)[i]@ == v);
        }
        if v == p@ {
            assert(s.push(p)[s.len() as int]@ == v);
        }
    });
    if distinct_hosts(s) && !set_of_hosts(s).contains(p@) {
        assert forall|i: int, j: int| 0 <= i < j < s.push(p).len() implies s.push(p)[i]@ != s.push(
            p,
        )[j]@ by {
            if j < s.len() {
            } else {
                assert(s.push(p)[j]@ == p@);
                assert(s.push(p)[i]@ == s[i]@);
            }
        }
    }
}

/// Removing a host deletes its value from the set, when the sequence
/// holds no repeats.
proof fn lemma_set_of_hosts_remove(s: Seq<Host>, i: int)
    requires
        0 <= i < s.len(),
        distinct_hosts(s),
    ensures
        set_of_hosts(s.remove(i)) == set_of_hosts(s).remove(s[i]@),
        distinct_hosts(s.remove(i)),
{
    s.remove_ensures(i);
    let t = s.remove(i);
    assert_sets_equal!(set_of_hosts(t) == set_of_hosts(s).remove(s[i]@), v => {
        if set_of_hosts(t).contains(v) {
            let k = choose|k: int| 0 <= k < t.len() && t[k]@ == v;
            if k < i {
                assert(s[k]@ == v);
            } else {
                assert(s[k + 1]@ == v);
            }
        }
        if set_of_hosts(s).contains(v) && v != s[i]@ {
            let k = choose|k: int| 0 <= k < s.len() && s[k]@ == v;
            if k < i {
                assert(t[k]@ == v);
            } else {
                assert(t[k - 1]@ == v);
            }
        }
    });
    assert forall|a: int, b: int| 0 <= a < b < t.len() implies t[a]@ != t[b]@ by {
        if b < i {
        } else if a < i {
            assert(t[a]@ == s[a]@ && t[b]@ == s[b + 1]@);
        } else {
            assert(t[a]@ == s[a + 1]@ && t[b]@ == s[b + 1]@);
        }
    }
}

/// The value of the record at a position, when the keys are unique.
proof fn lemma_q_map_get(s: Seq<QEntry>, i: int)
    requires
        0 <= i < s.len(),
        distinct_qkeys(s),
    ensures
        q_map(s).dom().contains(s[i].addr@),
        q_map(s)[s[i].addr@] == s[i].retries as nat,
{
    let v = s[i].addr@;
    let c = choose|k: int| 0 <= k < s.len() && s[k].addr@ == v;
    assert(c == i);
}

/// An endpoint under no record is outside the map's domain.
proof fn lemma_q_map_absent(s: Seq<QEntry>, v: AddrView)
    requires
        forall|k: int| 0 <= k < s.len() ==> (#[trigger] s[k]).addr@ != v,
    ensures
        !q_map(s).dom().contains(v),
{
}

/// Appending a record for a fresh endpoint inserts it into the map.
proof fn lemma_q_map_push(s: Seq<QEntry>, e: QEntry)
    requires
        distinct_qkeys(s),
        forall|k: int| 0 <= k < s.len() ==> (#[trigger] s[k]).addr@ != e.addr@,
    ensures
        q_map(s.push(e)) == q_map(s).insert(e.addr@, e.retries as nat),
        distinct_qkeys(s.push(e)),
{
    let t = s.push(e);
    assert(forall|k: int| 0 <= k < s.len() ==> t[k] == #[trigger] s[k]);
    assert(t[s.len() as int] == e);
    assert_maps_equal!(q_map(t), q_map(s).insert(e.addr@, e.retries as nat), v => {
        if v == e.addr@ {
            assert(t[s.len() as int].addr@ == v);
            let c = choose|k: int| 0 <= k < t.len() && t[k].addr@ == v;
            assert(c == s.len());
        } else {
            if q_map(t).dom().contains(v) {
                let c = choose|k: int| 0 <= k < t.len() && t[k].addr@ == v;
                assert(c < s.len());
                assert(s[c].addr@ == v);
                let c2 = choose|k: int| 0 <= k < s.len() && s[k].addr@ == v;
                assert(c2 == c);
                assert(t[c2].addr@ == v);
            }
            if q_map(s).dom().contains(v) {
                let c = choose|k: int| 0 <= k < s.len() && s[k].addr@ == v;
                assert(t[c].addr@ == v);
            }
        }
    });
    assert forall|i: int, j: int| 0 <= i < j < t.len() implies t[i].addr@ != t[j].addr@ by {
        if j < s.len() {
        } else {
            assert(t[j].addr@ == e.addr@);
            assert(t[i].addr@ == s[i].addr@);
        }
    }
}

/// Removing the record at a position deletes its endpoint from the
/// map, when the keys are unique.
proof fn lemma_q_map_remove(s: Seq<QEntry>, i: int)
    requires
        0 <= i < s.len(),
        distinct_qkeys(s),
    ensures
        q_map(s.remove(i)) == q_map(s).remove(s[i].addr@),
        distinct_qkeys(s.remove(i)),
{
    s.remove_ensures(i);
    let t = s.remove(i);
    assert forall|a: int, b: int| 0 <= a < b < t.len() implies t[a].addr@ != t[b].addr@ by {
        if b < i {
        } else if a < i {
            assert(t[a].addr@ == s[a].addr@ && t[b].addr@ == s[b + 1].addr@);
        } else {
            assert(t[a].addr@ == s[a + 1].addr@ && t[b].addr@ == s[b + 1].addr@);
        }
    }
    assert_maps_equal!(q_map(t), q_map(s).remove(s[i].addr@), v => {
        if q_map(t).dom().contains(v) {
            let k = choose|k: int| 0 <= k < t.len() && t[k].addr@ == v;
            if k < i {
                assert(s[k].addr@ == v);
                let c = choose|c: int| 0 <= c < s.len() && s[c].addr@ == v;
                assert(c == k);
                let c2 = choose|c: int| 0 <= c < t.len() && t[c].addr@ == v;
                assert(c2 == k);
            } else {
                assert(s[k + 1].addr@ == v);
                let c = choose|c: int| 0 <= c < s.len() && s[c].addr@ == v;
                assert(c == k + 1);
                let c2 = choose|c: int| 0 <= c < t.len() && t[c].addr@ == v;
                assert(c2 == k);
            }
        }
        if q_map(s).dom().contains(v) && v != s[i].addr@ {
            let k = choose|k: int| 0 <= k < s.len() && s[k].addr@ == v;
            if k < i {
                assert(t[k].addr@ == v);
            } else {
                assert(t[k - 1].addr@ == v);
            }
        }
    });
}

/// A sequence of endpoints unique by value carries a finite set of the
/// same size.
proof fn lemma_set_of_addrs_card(s: Seq<PeerAddress>)
    requires
        distinct_addrs(s),
    ensures
        set_of_addrs(s).finite(),
        set_of_addrs(s).len() == s.len(),
    decreases s.len(),
{
    if s.len() == 0 {
        assert_sets_equal!(set_of_addrs(s) == Set::<AddrView>::empty());
    } else {
        let s0 = s.drop_last();
        assert(distinct_addrs(s0)) by {
            assert(forall|i: int| 0 <= i < s0.len() ==> s0[i] == s[i]);
        }
        lemma_set_of_addrs_card(s0);
        lemma_set_of_addrs_push(s0, s.last());
        assert(s0.push(s.last()) =~= s);
        assert(!set_of_addrs(s0).contains(s.last()@)) by {
            if set_of_addrs(s0).contains(s.last()@) {
                let i = choose|i: int| 0 <= i < s0.len() && s0[i]@ == s.last()@;
                assert(s[i]@ == s[s.len() - 1]@);
            }
        }
    }
}


impl Hosts {
    /// Forget an endpoint: it leaves the stored set and the quarantine
    /// ledger; the rejection registry is untouched.
    pub fn remove(&mut self, url: &PeerAddress)
        requires
            old(self).wf(),
        ensures
            final(self).wf(),
            final(self).ledger() == remove_step(old(self).ledger(), url@),
            final(self).config() == old(self).config(),
            final(self).events() == old(self).events(),
    {
        match find_addr(&self.addrs, url) {
            Option::Some(i) => {
                let ghost olda = self.addrs@;
                self.addrs.remove(i);
                proof {
                    lemma_set_of_addrs_remove(olda, i as int);
                }
            },
            Option::None => {
                proof {
                    assert(!set_of_addrs(self.addrs@).contains(url@));
                    assert_sets_equal!(set_of_addrs(self.addrs@).remove(url@)
                        == set_of_addrs(self.addrs@));
                }
            },
        }
        match find_q(&self.quarantine, url) {
            Option::Some(i) => {
                let ghost oldq = self.quarantine@;
                self.quarantine.remove(i);
                proof {
                    lemma_q_map_remove(oldq, i as int);
                    oldq.remove_ensures(i as int);
                    assert(forall|k: int|
                        0 <= k < self.quarantine@.len() ==> (#[trigger] self.quarantine@[k])
                            == if k < i as int {
                            oldq[k]
                        } else {
                            oldq[k + 1]
                        });
                }
            },
            Option::None => {
                proof {
                    lemma_q_map_absent(self.quarantine@, url@);
                    assert_maps_equal!(q_map(self.quarantine@).remove(url@),
                        q_map(self.quarantine@));
                }
            },
        }
    }

    /// Quarantine an endpoint: drop it from the stored set and advance
    /// its retry counter; the quarantine call that reaches the
    /// configured limit deletes the ledger entry and rejects the host
    /// instead.
    pub fn quarantine(&mut self, url: &PeerAddress)
        requires
            old(self).wf(),
        ensures
            final(self).wf(),
            final(self).ledger() == quarantine_step(
                old(self).ledger(),
                old(self).config().quarantine_limit as int,
                url@,
            ),
            final(self).config() == old(self).config(),
            final(self).events() == old(self).events(),
    {
        match find_addr(&self.addrs, url) {
            Option::Some(i) => {
                let ghost olda = self.addrs@;
                self.addrs.remove(i);
                proof {
                    lemma_set_of_addrs_remove(olda, i as int);
                }
            },
            Option::None => {
                proof {
                    assert(!set_of_addrs(self.addrs@).contains(url@));
                    assert_sets_equal!(set_of_addrs(self.addrs@).remove(url@)
                        == set_of_addrs(self.addrs@));
                }
            },
        }
        let limit = self.settings.quarantine_limit;
        match find_q(&self.quarantine, url) {
            Option::Some(i) => {
                let c = self.quarantine[i].retries;
                proof {
                    lemma_q_map_get(self.quarantine@, i as int);
                }
                let c2 = c + 1;
                let ghost oldq = self.quarantine@;
                self.quarantine.remove(i);
                proof {
                    lemma_q_map_remove(oldq, i as int);
                    oldq.remove_ensures(i as int);
                    assert(forall|k: int|
                        0 <= k < self.quarantine@.len() ==> (#[trigger] self.quarantine@[k])
                            == if k < i as int {
                            oldq[k]
                        } else {
                            oldq[k + 1]
                        });
                }
                if c2 + 1 == limit {
                    self.mark_rejected(url);
                } else {
                    let ghost oldq2 = self.quarantine@;
                    self.quarantine.push(QEntry { addr: url.clone(), retries: c2 });
                    proof {
                        assert(forall|k: int|
                            0 <= k < oldq2.len() ==> (#[trigger] oldq2[k]).addr@ != url@);
                        lemma_q_map_push(oldq2, self.quarantine@[oldq2.len() as int]);
                        assert(self.quarantine@ =~= oldq2.push(
                            self.quarantine@[oldq2.len() as int]));
                        assert_maps_equal!(
                            q_map(oldq2).insert(url@, c2 as nat),
                            q_map(oldq).insert(url@, c2 as nat));
                    }
                }
            },
            Option::None => {
                proof {
                    lemma_q_map_absent(self.quarantine@, url@);
                }
                if limit == 1 {
                    self.mark_rejected(url);
                } else {
                    let ghost oldq2 = self.quarantine@;
                    self.quarantine.push(QEntry { addr: url.clone(), retries: 0 });
                    proof {
                        lemma_q_map_push(oldq2, self.quarantine@[oldq2.len() as int]);
                        assert(self.quarantine@ =~= oldq2.push(
                            self.quarantine@[oldq2.len() as int]));
                    }
                }
            },
        }
    }

    /// The accepted candidates of a batch, in submission order,
    /// duplicates included.
    fn filter_addresses(&self, cands: &Vec<PeerAddress>) -> (r: Vec<PeerAddress>)
        requires
            self.wf(),
        ensures
            crate::addr::addr_views(r@) == accepted_seq(
                crate::addr::addr_views(cands@),
                self.config(),
                self.ledger().rejected,
            ),
    {
        let ghost cs = crate::addr::addr_views(cands@);
        let ghost st = self.config();
        let ghost rej = self.ledger().rejected;
        let mut ret: Vec<PeerAddress> = Vec::new();
        let localnet = self.settings.localnet;
        let mut i: usize = 0;
        while i < cands.len()
            invariant
                self.wf(),
                0 <= i <= cands@.len(),
                cs == crate::addr::addr_views(cands@),
                st == self.config(),
                rej == self.ledger().rejected,
                localnet == self.config().localnet,
                crate::addr::addr_views(ret@) =~= accepted_seq(cs.take(i as int), st, rej),
            decreases cands@.len() - i,
        {
            let a = &cands[i];
            let ok: bool = if a.host.is_none() || a.port.is_none() || !a.hierarchical
                || a.has_path {
                false
            } else if self.is_rejected(a) {
                false
            } else if !localnet && matches_external(&self.settings.external_addrs, a) {
                false
            } else if !localnet && is_local(a) {
                false
            } else {
                scheme_allowed(a)
            };
            proof {
                assert(cs[i as int] == a@);
                assert(ok == accepts(st, rej, a@));
            }
            let ghost prev = ret@;
            if ok {
                ret.push(a.clone());
            }
            proof {
                assert(cs.take(i as int + 1).drop_last() =~= cs.take(i as int));
                assert(cs.take(i as int + 1).last() == cs[i as int]);
                if ok {
                    assert(ret@ == prev.push(ret@[prev.len() as int]));
                    assert(ret@[prev.len() as int]@ == a@);
                    lemma_addr_views_push(prev, ret@[prev.len() as int]);
                    assert(accepted_seq(cs.take(i as int + 1), st, rej) == accepted_seq(
                        cs.take(i as int),
                        st,
                        rej,
                    ).push(cs[i as int]));
                    assert(crate::addr::addr_views(ret@) =~= accepted_seq(
                        cs.take(i as int + 1),
                        st,
                        rej,
                    ));
                } else {
                    assert(accepted_seq(cs.take(i as int + 1), st, rej) == accepted_seq(
                        cs.take(i as int),
                        st,
                        rej,
                    ));
                }
            }
            i = i + 1;
        }
        proof {
            assert(cs.take(cands@.len() as int) =~= cs);
        }
        ret
    }

    /// Store a batch of candidates: the validator's accepted
    /// candidates enter the stored set, and every subscriber is handed
    /// one event carrying the count of accepted candidates — zero
    /// included. A stored endpoint that still stands in the quarantine
    /// ledger keeps its ledger entry: re-acceptance does not clear the
    /// counter.
    pub fn store(&mut self, addrs: &Vec<PeerAddress>)
        requires
            old(self).wf(),
        ensures
            final(self).wf(),
            final(self).ledger() == store_step(
                old(self).ledger(),
                old(self).config(),
                crate::addr::addr_views(addrs@),
            ),
            final(self).config() == old(self).config(),
            final(self).events().len() == old(self).events().len(),
            forall|k: int|
                0 <= k < old(self).events().len() ==> final(self).events()[k] == old(
                    self,
                ).events()[k].push(
                    accepted_seq(
                        crate::addr::addr_views(addrs@),
                        old(self).config(),
                        old(self).ledger().rejected,
                    ).len() as usize,
                ),
    {
        let filtered = self.filter_addresses(addrs);
        let n = filtered.len();
        let ghost acc = accepted_seq(
            crate::addr::addr_views(addrs@),
            self.config(),
            self.ledger().rejected,
        );
        proof {
            assert(crate::addr::addr_views(filtered@).len() == filtered@.len());
            assert(n as int == acc.len());
        }
        let ghost olda = self.addrs@;
        let mut j: usize = 0;
        while j < filtered.len()
            invariant
                0 <= j <= filtered@.len(),
                distinct_addrs(self.addrs@),
                set_of_addrs(self.addrs@) =~= set_of_addrs(olda).union(
                    set_of_addrs(filtered@.take(j as int)),
                ),
                self.quarantine@ == old(self).quarantine@,
                self.rejected@ == old(self).rejected@,
                self.subscribers@ == old(self).subscribers@,
                self.settings == old(self).settings,
                old(self).wf(),
                olda == old(self).addrs@,
            decreases filtered@.len() - j,
        {
            let ghost before = self.addrs@;
            match find_addr(&self.addrs, &filtered[j]) {
                Option::Some(_) => {
                    proof {
                        assert(set_of_addrs(before).contains(filtered@[j as int]@));
                    }
                },
                Option::None => {
                    self.addrs.push(filtered[j].clone());
                    proof {
                        lemma_set_of_addrs_push(before, self.addrs@[before.len() as int]);
                        assert(self.addrs@ =~= before.push(self.addrs@[before.len() as int]));
                        assert(self.addrs@[before.len() as int]@ == filtered@[j as int]@);
                    }
                },
            }
            proof {
                assert(filtered@.take(j as int + 1).drop_last() =~= filtered@.take(j as int));
                assert(set_of_addrs(filtered@.take(j as int + 1)) =~= set_of_addrs(
                    filtered@.take(j as int),
                ).insert(filtered@[j as int]@)) by {
                    lemma_set_of_addrs_push(
                        filtered@.take(j as int),
                        filtered@[j as int],
                    );
                    assert(filtered@.take(j as int).push(filtered@[j as int]) =~= filtered@.take(
                        j as int + 1,
                    ));
                }
                assert(set_of_addrs(self.addrs@) =~= set_of_addrs(olda).union(
                    set_of_addrs(filtered@.take(j as int + 1)),
                ));
            }
            j = j + 1;
        }
        proof {
            assert(filtered@.take(filtered@.len() as int) =~= filtered@);
            assert_sets_equal!(set_of_addrs(filtered@)
                == accepted_set(crate::addr::addr_views(addrs@), old(self).config(),
                    old(self).ledger().rejected), v => {
                if set_of_addrs(filtered@).contains(v) {
                    let i = choose|i: int| 0 <= i < filtered@.len() && filtered@[i]@ == v;
                    assert(crate::addr::addr_views(filtered@)[i] == v);
                    assert(acc.contains(v));
                }
                if acc.contains(v) {
                    let i = choose|i: int| 0 <= i < acc.len() && acc[i] == v;
                    assert(crate::addr::addr_views(filtered@)[i] == v);
                    assert(filtered@[i]@ == v);
                }
                lemma_accepted_seq_membership(crate::addr::addr_views(addrs@),
                    old(self).config(), old(self).ledger().rejected, v);
            });
        }
        let ghost mid = *self;
        let ghost oldsubs = self.subscribers@;
        let mut k: usize = 0;
        while k < self.subscribers.len()
            invariant
                0 <= k <= self.subscribers@.len(),
                self.subscribers@.len() == oldsubs.len(),
                forall|t: int|
                    0 <= t < k ==> (#[trigger] self.subscribers@[t])@ == oldsubs[t]@.push(n),
                forall|t: int|
                    k <= t < oldsubs.len() ==> (#[trigger] self.subscribers@[t]) == oldsubs[t],
                self.addrs@ == mid.addrs@,
                self.quarantine@ == mid.quarantine@,
                self.rejected@ == mid.rejected@,
                self.settings == mid.settings,
                oldsubs == mid.subscribers@,
            decreases self.subscribers@.len() - k,
        {
            let ghost cur = self.subscribers@;
            let mut q = self.subscribers.remove(k);
            q.push(n);
            let ghost qg = q;
            let ghost mids = self.subscribers@;
            self.subscribers.insert(k, q);
            proof {
                oldsubs_frame(cur, mids, self.subscribers@, k as int, qg);
                assert(self.subscribers@[k as int]@ == cur[k as int]@.push(n));
                assert forall|t: int| 0 <= t < k + 1 implies (#[trigger] self.subscribers@[t])@
                    == oldsubs[t]@.push(n) by {
                    if t < k {
                        assert(self.subscribers@[t] == cur[t]);
                    }
                }
            }
            k = k + 1;
        }
        proof {
            assert(self.events().len() == old(self).events().len());
            assert forall|t: int| 0 <= t < old(self).events().len() implies self.events()[t]
                == old(self).events()[t].push(acc.len() as usize) by {
                assert(self.events()[t] == self.subscribers@[t]@);
                assert(old(self).events()[t] == old(self).subscribers@[t]@);
            }
        }
    }
}

/// Appending an endpoint appends its value to the view sequence.
proof fn lemma_addr_views_push(s: Seq<PeerAddress>, p: PeerAddress)
    ensures
        crate::addr::addr_views(s.push(p)) == crate::addr::addr_views(s).push(p@),
{
    let l = crate::addr::addr_views(s.push(p));
    let r = crate::addr::addr_views(s).push(p@);
    assert forall|k: int| 0 <= k < l.len() implies l[k] == r[k] by {
        assert(l[k] == s.push(p)[k]@);
        if k < s.len() {
            assert(crate::addr::addr_views(s)[k] == s[k]@);
        }
    }
    assert(l =~= r);
}

/// After taking queue `k` out and putting a replacement back in the
/// same position, exactly queue `k` changed.
proof fn oldsubs_frame(
    olds: Seq<Vec<usize>>,
    mids: Seq<Vec<usize>>,
    news: Seq<Vec<usize>>,
    k: int,
    q: Vec<usize>,
)
    requires
        0 <= k < olds.len(),
        mids == olds.remove(k),
        news == mids.insert(k, q),
    ensures
        news.len() == olds.len(),
        news[k] == q,
        forall|t: int| 0 <= t < olds.len() && t != k ==> news[t] == olds[t],
{
    olds.remove_ensures(k);
    mids.insert_ensures(k, q);
    assert forall|t: int| 0 <= t < olds.len() && t != k implies news[t] == olds[t] by {
        if t < k {
            assert(news[t] == mids[t]);
            assert(mids[t] == olds[t]);
        } else {
            assert(news[t] == mids[t - 1]);
            assert(mids[t - 1] == olds[t]);
        }
    }
}


impl Hosts {
    /// Up to `limit` stored endpoints whose scheme stands in the list
    /// — all of them when no limit is given — falling back to the
    /// quarantined endpoints, under the same limit, when the store
    /// yields none.
    pub fn fetch_with_schemes(&self, schemes: &Vec<String>, limit: Option<usize>) -> (r: Vec<
        PeerAddress,
    >)
        requires
            self.wf(),
        ensures
            crate::addr::addr_views(r@) == scheme_fetch(
                self.stored_seq(),
                self.quar_seq(),
                crate::sample::str_views(schemes@),
                true,
                limit,
            ),
            distinct_seq(crate::addr::addr_views(r@)),
    {
        self.fetch_by_scheme(schemes, limit, true)
    }

    /// Up to `limit` stored endpoints whose scheme stands outside the
    /// list, with the same quarantine fallback.
    pub fn fetch_exluding_schemes(&self, schemes: &Vec<String>, limit: Option<usize>) -> (r: Vec<
        PeerAddress,
    >)
        requires
            self.wf(),
        ensures
            crate::addr::addr_views(r@) == scheme_fetch(
                self.stored_seq(),
                self.quar_seq(),
                crate::sample::str_views(schemes@),
                false,
                limit,
            ),
            distinct_seq(crate::addr::addr_views(r@)),
    {
        self.fetch_by_scheme(schemes, limit, false)
    }

    /// The shared scan behind the two scheme-filtered fetches.
    fn fetch_by_scheme(&self, schemes: &Vec<String>, limit: Option<usize>, keep: bool) -> (r: Vec<
        PeerAddress,
    >)
        requires
            self.wf(),
        ensures
            crate::addr::addr_views(r@) == scheme_fetch(
                self.stored_seq(),
                self.quar_seq(),
                crate::sample::str_views(schemes@),
                keep,
                limit,
            ),
            distinct_seq(crate::addr::addr_views(r@)),
    {
        let cap: usize = match limit {
            Option::Some(l) => l,
            Option::None => self.addrs.len(),
        };
        let ghost sv = crate::sample::str_views(schemes@);
        let ghost ss = self.stored_seq();
        let ghost qs = self.quar_seq();
        proof {
            assert(ss.len() == self.addrs@.len());
            assert(forall|k: int| 0 <= k < ss.len() ==> ss[k] == (#[trigger] self.addrs@[k])@);
            assert(qs.len() == self.quarantine@.len());
            assert(forall|k: int|
                0 <= k < qs.len() ==> qs[k] == (#[trigger] self.quarantine@[k]).addr@);
            assert(distinct_seq(ss));
            assert(distinct_seq(qs));
        }
        let mut ret: Vec<PeerAddress> = Vec::new();
        let mut i: usize = 0;
        while i < self.addrs.len()
            invariant
                self.wf(),
                0 <= i <= self.addrs@.len(),
                sv == crate::sample::str_views(schemes@),
                ss == self.stored_seq(),
                cap as int == (match limit {
                    Option::Some(l) => l as int,
                    Option::None => ss.len() as int,
                }),
                crate::addr::addr_views(ret@) =~= collect_by_scheme(
                    ss.take(i as int),
                    sv,
                    keep,
                    cap as int,
                ),
                ret@.len() <= cap,
            decreases self.addrs@.len() - i,
        {
            let ghost prev = ret@;
            proof {
                lemma_collect_snoc(ss.take(i as int), ss[i as int], sv, keep, cap as int);
                assert(ss.take(i as int + 1) =~= ss.take(i as int).push(ss[i as int]));
                lemma_collect_len(ss.take(i as int + 1), sv, keep, cap as int);
                assert(ss[i as int] == self.addrs@[i as int]@);
            }
            if ret.len() < cap && scheme_in(schemes, &self.addrs[i]) == keep {
                ret.push(self.addrs[i].clone());
                proof {
                    assert(ret@ == prev.push(ret@[prev.len() as int]));
                    assert(ret@[prev.len() as int]@ == self.addrs@[i as int]@);
                    lemma_addr_views_push(prev, ret@[prev.len() as int]);
                    assert(crate::addr::addr_views(ret@) =~= collect_by_scheme(
                        ss.take(i as int + 1),
                        sv,
                        keep,
                        cap as int,
                    ));
                }
            } else {
                proof {
                    assert(crate::addr::addr_views(prev).len() == prev.len());
                    assert(crate::addr::addr_views(ret@) =~= collect_by_scheme(
                        ss.take(i as int + 1),
                        sv,
                        keep,
                        cap as int,
                    ));
                }
            }
            i = i + 1;
        }
        proof {
            assert(ss.take(ss.len() as int) =~= ss);
            lemma_collect_distinct(ss, sv, keep, cap as int);
        }
        if ret.len() > 0 {
            return ret;
        }
        let mut j: usize = 0;
        while j < self.quarantine.len()
            invariant
                self.wf(),
                0 <= j <= self.quarantine@.len(),
                sv == crate::sample::str_views(schemes@),
                qs == self.quar_seq(),
                cap as int >= 0,
                crate::addr::addr_views(ret@) =~= collect_by_scheme(
                    qs.take(j as int),
                    sv,
                    keep,
                    cap as int,
                ),
                ret@.len() <= cap,
            decreases self.quarantine@.len() - j,
        {
            let ghost prev = ret@;
            proof {
                lemma_collect_snoc(qs.take(j as int), qs[j as int], sv, keep, cap as int);
                assert(qs.take(j as int + 1) =~= qs.take(j as int).push(qs[j as int]));
                lemma_collect_len(qs.take(j as int + 1), sv, keep, cap as int);
                assert(qs[j as int] == self.quarantine@[j as int].addr@);
            }
            if ret.len() < cap && scheme_in(schemes, &self.quarantine[j].addr) == keep {
                ret.push(self.quarantine[j].addr.clone());
                proof {
                    assert(ret@ == prev.push(ret@[prev.len() as int]));
                    assert(ret@[prev.len() as int]@ == self.quarantine@[j as int].addr@);
                    lemma_addr_views_push(prev, ret@[prev.len() as int]);
                    assert(crate::addr::addr_views(ret@) =~= collect_by_scheme(
                        qs.take(j as int + 1),
                        sv,
                        keep,
                        cap as int,
                    ));
                }
            } else {
                proof {
                    assert(crate::addr::addr_views(prev).len() == prev.len());
                    assert(crate::addr::addr_views(ret@) =~= collect_by_scheme(
                        qs.take(j as int + 1),
                        sv,
                        keep,
                        cap as int,
                    ));
                }
            }
            j = j + 1;
        }
        proof {
            assert(qs.take(qs.len() as int) =~= qs);
            lemma_collect_distinct(qs, sv, keep, cap as int);
        }
        ret
    }

    /// The retry counter of a quarantined endpoint, if it has one.
    pub fn quarantine_count(&self, addr: &PeerAddress) -> (r: Option<usize>)
        requires
            self.wf(),
        ensures
            match r {
                Option::Some(c) => self.ledger().quarantined.dom().contains(addr@)
                    && self.ledger().quarantined[addr@] == c as nat,
                Option::None => !self.ledger().quarantined.dom().contains(addr@),
            },
    {
        match find_q(&self.quarantine, addr) {
            Option::Some(i) => {
                let c = self.quarantine[i].retries;
                proof {
                    lemma_q_map_get(self.quarantine@, i as int);
                }
                Option::Some(c)
            },
            Option::None => {
                proof {
                    lemma_q_map_absent(self.quarantine@, addr@);
                }
                Option::None
            },
        }
    }

    /// Up to `n` stored endpoints, drawn without replacement from the
    /// current snapshot: exactly `min(n, |store|)` many, pairwise
    /// distinct, all stored.
    pub fn fetch_n_random(&self, n: u32) -> (r: Vec<PeerAddress>)
        requires
            self.wf(),
        ensures
            r@.len() == vstd::math::min(n as int, self.ledger().stored.len() as int),
            forall|k: int|
                0 <= k < r@.len() ==> self.ledger().stored.contains((#[trigger] r@[k])@),
            distinct_seq(crate::addr::addr_views(r@)),
    {
        proof {
            self.lemma_stored_seq();
            assert(self.stored_seq().len() == self.addrs@.len());
        }
        if n == 0 {
            let r: Vec<PeerAddress> = Vec::new();
            proof {
                assert(crate::addr::addr_views(r@).len() == 0);
            }
            return r;
        }
        let out = sample_from(&self.addrs, n as usize);
        proof {
            assert forall|k: int|
                0 <= k < out@.len() implies self.ledger().stored.contains(
                (#[trigger] out@[k])@,
            ) by {
                assert(crate::addr::addr_views(self.addrs@).contains(out@[k]@));
                let t = choose|t: int|
                    0 <= t < crate::addr::addr_views(self.addrs@).len() && crate::addr::addr_views(
                        self.addrs@,
                    )[t] == out@[k]@;
                assert(self.addrs@[t]@ == out@[k]@);
            }
        }
        out
    }

    /// Up to `n` random endpoints among those a scheme-including fetch
    /// over the whole store would return.
    pub fn fetch_n_random_with_schemes(&self, schemes: &Vec<String>, n: u32) -> (r: Vec<
        PeerAddress,
    >)
        requires
            self.wf(),
        ensures
            ({
                let base = scheme_fetch(
                    self.stored_seq(),
                    self.quar_seq(),
                    crate::sample::str_views(schemes@),
                    true,
                    Option::None,
                );
                &&& r@.len() == (if n == 0 {
                    0int
                } else {
                    vstd::math::min(n as int, base.len() as int)
                })
                &&& (forall|k: int| 0 <= k < r@.len() ==> base.contains((#[trigger] r@[k])@))
                &&& distinct_seq(crate::addr::addr_views(r@))
            }),
    {
        if n == 0 {
            let r: Vec<PeerAddress> = Vec::new();
            proof {
                assert(crate::addr::addr_views(r@).len() == 0);
            }
            return r;
        }
        let hosts = self.fetch_by_scheme(schemes, Option::None, true);
        sample_filtered(hosts, n as usize)
    }

    /// Up to `n` random endpoints among those a scheme-excluding fetch
    /// over the whole store would return.
    pub fn fetch_n_random_excluding_schemes(&self, schemes: &Vec<String>, n: u32) -> (r: Vec<
        PeerAddress,
    >)
        requires
            self.wf(),
        ensures
            ({
                let base = scheme_fetch(
                    self.stored_seq(),
                    self.quar_seq(),
                    crate::sample::str_views(schemes@),
                    false,
                    Option::None,
                );
                &&& r@.len() == (if n == 0 {
                    0int
                } else {
                    vstd::math::min(n as int, base.len() as int)
                })
                &&& (forall|k: int| 0 <= k < r@.len() ==> base.contains((#[trigger] r@[k])@))
                &&& distinct_seq(crate::addr::addr_views(r@))
            }),
    {
        if n == 0 {
            let r: Vec<PeerAddress> = Vec::new();
            proof {
                assert(crate::addr::addr_views(r@).len() == 0);
            }
            return r;
        }
        let hosts = self.fetch_by_scheme(schemes, Option::None, false);
        sample_filtered(hosts, n as usize)
    }
}

/// Draw `min(n, |v|)` endpoints from `v` at pairwise distinct
/// positions.
fn sample_from(v: &Vec<PeerAddress>, n: usize) -> (r: Vec<PeerAddress>)
    requires
        distinct_addrs(v@),
    ensures
        r@.len() == vstd::math::min(n as int, v@.len() as int),
        forall|k: int|
            0 <= k < r@.len() ==> crate::addr::addr_views(v@).contains((#[trigger] r@[k])@),
        distinct_seq(crate::addr::addr_views(r@)),
{
    let idx = sample_indices(v.len(), n);
    let mut out: Vec<PeerAddress> = Vec::new();
    let mut k: usize = 0;
    while k < idx.len()
        invariant
            0 <= k <= idx@.len(),
            idx@.len() == vstd::math::min(n as int, v@.len() as int),
            forall|t: int| 0 <= t < idx@.len() ==> #[trigger] idx@[t] < v@.len(),
            forall|t: int, u: int| 0 <= t < u < idx@.len() ==> idx@[t] != idx@[u],
            out@.len() == k,
            forall|t: int| 0 <= t < k ==> (#[trigger] out@[t])@ == v@[idx@[t] as int]@,
        decreases idx@.len() - k,
    {
        out.push(v[idx[k]].clone());
        k = k + 1;
    }
    proof {
        assert forall|t: int|
            0 <= t < out@.len() implies crate::addr::addr_views(v@).contains(
            (#[trigger] out@[t])@,
        ) by {
            assert(crate::addr::addr_views(v@)[idx@[t] as int] == v@[idx@[t] as int]@);
        }
        assert forall|t: int, u: int|
            0 <= t < u < crate::addr::addr_views(out@).len() implies crate::addr::addr_views(
            out@,
        )[t] != crate::addr::addr_views(out@)[u] by {
            assert(crate::addr::addr_views(out@)[t] == out@[t]@);
            assert(crate::addr::addr_views(out@)[u] == out@[u]@);
            assert(out@[t]@ == v@[idx@[t] as int]@);
            assert(out@[u]@ == v@[idx@[u] as int]@);
            if idx@[t] < idx@[u] {
            } else {
            }
        }
    }
    out
}

/// Draw `min(n, |v|)` endpoints from an already filtered fetch result,
/// keeping its membership and distinctness.
fn sample_filtered(v: Vec<PeerAddress>, n: usize) -> (r: Vec<PeerAddress>)
    requires
        distinct_seq(crate::addr::addr_views(v@)),
        n >= 1,
    ensures
        r@.len() == vstd::math::min(n as int, v@.len() as int),
        forall|k: int|
            0 <= k < r@.len() ==> crate::addr::addr_views(v@).contains((#[trigger] r@[k])@),
        distinct_seq(crate::addr::addr_views(r@)),
{
    proof {
        assert forall|i: int, j: int| 0 <= i < j < v@.len() implies (#[trigger] v@[i])@ != (
        #[trigger] v@[j])@ by {
            assert(crate::addr::addr_views(v@)[i] == v@[i]@);
            assert(crate::addr::addr_views(v@)[j] == v@[j]@);
        }
    }
    sample_from(&v, n)
}

} // verus!
