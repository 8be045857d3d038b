//! Laws of the ledger, proved once and for all over the abstract
//! state and the pure policy functions that the public contracts
//! speak of.

use vstd::prelude::*;
use crate::addr::{AddrView, HostView};
use crate::hosts::{quarantine_step, LedgerView};
use crate::locality::local_addr;
use crate::sample::{collect_by_scheme, lemma_collect_unbounded, scheme_fetch, scheme_matches};
use crate::validate::addr_rejected;

verus! {

/// A local endpoint is never rejected, whatever the rejection
/// registry holds.
pub proof fn lemma_local_never_rejected(rejected: Set<HostView>, a: AddrView)
    requires
        local_addr(a),
    ensures
        !addr_rejected(rejected, a),
{
}

/// The abstract ledger after `n` quarantine calls on one endpoint.
pub open spec fn quarantine_n(l: LedgerView, limit: int, a: AddrView, n: nat) -> LedgerView
    decreases n,
{
    if n == 0 {
        l
    } else {
        quarantine_step(quarantine_n(l, limit, a, (n - 1) as nat), limit, a)
    }
}

/// After `k` quarantine calls on a fresh endpoint, `1 <= k < limit`,
/// the endpoint stands in the quarantine ledger with counter `k - 1`
/// and the rejection registry is untouched.
proof fn lemma_quarantine_progress(l: LedgerView, limit: int, a: AddrView, k: nat)
    requires
        !l.quarantined.dom().contains(a),
        1 <= k,
        k + 1 <= limit,
    ensures
        quarantine_n(l, limit, a, k).quarantined.dom().contains(a),
        quarantine_n(l, limit, a, k).quarantined[a] == k - 1,
        quarantine_n(l, limit, a, k).rejected == l.rejected,
    decreases k,
{
    if k == 1 {
        assert(quarantine_n(l, limit, a, 0) == l);
        assert(quarantine_n(l, limit, a, 1) == quarantine_step(l, limit, a));
    } else {
        lemma_quarantine_progress(l, limit, a, (k - 1) as nat);
        let prev = quarantine_n(l, limit, a, (k - 1) as nat);
        assert(quarantine_n(l, limit, a, k) == quarantine_step(prev, limit, a));
    }
}

/// Quarantine escalation exactness: quarantining a fresh, non-local,
/// not yet rejected endpoint exactly `limit` times rejects its host
/// and leaves the endpoint outside the quarantine ledger, while
/// `limit - 1` calls leave it in the ledger with counter `limit - 2`
/// and its host not rejected.
pub proof fn lemma_quarantine_escalation(l: LedgerView, limit: int, a: AddrView, h: HostView)
    requires
        a.host == Option::Some(h),
        !local_addr(a),
        !l.quarantined.dom().contains(a),
        !l.rejected.contains(h),
        limit >= 1,
    ensures
        quarantine_n(l, limit, a, limit as nat).rejected.contains(h),
        !quarantine_n(l, limit, a, limit as nat).quarantined.dom().contains(a),
        limit >= 2 ==> quarantine_n(l, limit, a, (limit - 1) as nat).quarantined[a] == limit - 2,
        limit >= 2 ==> !quarantine_n(l, limit, a, (limit - 1) as nat).rejected.contains(h),
{
    if limit == 1 {
        assert(quarantine_n(l, limit, a, 0) == l);
        assert(quarantine_n(l, limit, a, 1) == quarantine_step(l, limit, a));
    } else {
        lemma_quarantine_progress(l, limit, a, (limit - 1) as nat);
        let prev = quarantine_n(l, limit, a, (limit - 1) as nat);
        assert(quarantine_n(l, limit, a, limit as nat) == quarantine_step(prev, limit, a));
    }
}

/// Scheme partition: a scheme-including collection that may take the
/// whole snapshot holds exactly the endpoints whose scheme is listed;
/// the excluding collection holds exactly its complement within the
/// snapshot; no endpoint stands in both.
pub proof fn lemma_scheme_partition(s: Seq<AddrView>, schemes: Seq<Seq<char>>, v: AddrView)
    ensures
        collect_by_scheme(s, schemes, true, s.len() as int).contains(v) <==> (s.contains(v)
            && scheme_matches(schemes, v)),
        collect_by_scheme(s, schemes, false, s.len() as int).contains(v) <==> (s.contains(v)
            && !scheme_matches(schemes, v)),
        !(collect_by_scheme(s, schemes, true, s.len() as int).contains(v) && collect_by_scheme(
            s,
            schemes,
            false,
            s.len() as int,
        ).contains(v)),
{
    lemma_collect_unbounded(s, schemes, true, s.len() as int, v);
    lemma_collect_unbounded(s, schemes, false, s.len() as int, v);
}

/// Scheme round-trip at the fetch level: over a ledger whose
/// quarantine is empty, an unlimited scheme-including fetch returns
/// exactly the stored endpoints with a listed scheme, and the
/// excluding fetch exactly the complement.
pub proof fn lemma_scheme_fetch_no_quarantine(
    stored: Seq<AddrView>,
    schemes: Seq<Seq<char>>,
    keep: bool,
    v: AddrView,
)
    ensures
        scheme_fetch(stored, Seq::empty(), schemes, keep, Option::None).contains(v) <==> (
        stored.contains(v) && scheme_matches(schemes, v) == keep),
{
    lemma_collect_unbounded(stored, schemes, keep, stored.len() as int, v);
    let first = collect_by_scheme(stored, schemes, keep, stored.len() as int);
    if first.len() == 0 {
        assert(collect_by_scheme(Seq::<AddrView>::empty(), schemes, keep, stored.len() as int)
            == Seq::<AddrView>::empty());
        assert(!Seq::<AddrView>::empty().contains(v));
    }
}

} // verus!
