//! Scheme-filtered collection and random sampling.
//!
//! The query surface of the ledger scans a snapshot of the stored
//! endpoints in order, keeps those whose scheme does or does not stand
//! in a caller-given list, and stops once a limit many are collected.
//! Random selection draws distinct positions through the `rand` crate.

use vstd::prelude::*;
use crate::addr::{AddrView, PeerAddress};

verus! {

/// The character sequences of a list of scheme names.
pub open spec fn str_views(s: Seq<String>) -> Seq<Seq<char>> {
    s.map_values(|x: String| x@)
}

/// Whether the endpoint's scheme stands in the list.
pub open spec fn scheme_matches(schemes: Seq<Seq<char>>, a: AddrView) -> bool {
    exists|i: int| 0 <= i < schemes.len() && schemes[i] == a.scheme
}

/// The endpoints of `s`, in order, whose scheme membership in
/// `schemes` equals `keep`, cut off after `limit` many.
pub open spec fn collect_by_scheme(
    s: Seq<AddrView>,
    schemes: Seq<Seq<char>>,
    keep: bool,
    limit: int,
) -> Seq<AddrView>
    decreases s.len(),
{
    if s.len() == 0 || limit <= 0 {
        Seq::empty()
    } else if scheme_matches(schemes, s[0]) == keep {
        seq![s[0]] + collect_by_scheme(s.drop_first(), schemes, keep, limit - 1)
    } else {
        collect_by_scheme(s.drop_first(), schemes, keep, limit)
    }
}

/// What a scheme-filtered fetch returns: the collection over the stored
/// snapshot, capped by the given limit — the size of the store when
/// none is given; when that collection is empty, the same collection
/// over the quarantined endpoints as a fallback, under the same cap.
pub open spec fn scheme_fetch(
    stored: Seq<AddrView>,
    quar: Seq<AddrView>,
    schemes: Seq<Seq<char>>,
    keep: bool,
    limit: Option<usize>,
) -> Seq<AddrView> {
    let cap: int = match limit {
        Option::Some(l) => l as int,
        Option::None => stored.len() as int,
    };
    let first = collect_by_scheme(stored, schemes, keep, cap);
    if first.len() > 0 {
        first
    } else {
        collect_by_scheme(quar, schemes, keep, cap)
    }
}

/// A sequence without repeated elements.
pub open spec fn distinct_seq<A>(s: Seq<A>) -> bool {
    forall|i: int, j: int| 0 <= i < j < s.len() ==> s[i] != s[j]
}

/// The collection never grows past its limit nor past its input.
pub proof fn lemma_collect_len(s: Seq<AddrView>, schemes: Seq<Seq<char>>, keep: bool, limit: int)
    ensures
        collect_by_scheme(s, schemes, keep, limit).len() <= s.len(),
        limit >= 0 ==> collect_by_scheme(s, schemes, keep, limit).len() <= limit,
    decreases s.len(),
{
    if s.len() == 0 || limit <= 0 {
    } else if scheme_matches(schemes, s[0]) == keep {
        lemma_collect_len(s.drop_first(), schemes, keep, limit - 1);
    } else {
        lemma_collect_len(s.drop_first(), schemes, keep, limit);
    }
}

/// Extending the scanned snapshot by one endpoint extends the
/// collection exactly when the endpoint matches and the limit is not
/// yet reached.
pub proof fn lemma_collect_snoc(
    s: Seq<AddrView>,
    x: AddrView,
    schemes: Seq<Seq<char>>,
    keep: bool,
    limit: int,
)
    ensures
        collect_by_scheme(s.push(x), schemes, keep, limit) == if scheme_matches(schemes, x)
            == keep && collect_by_scheme(s, schemes, keep, limit).len() < limit {
            collect_by_scheme(s, schemes, keep, limit).push(x)
        } else {
            collect_by_scheme(s, schemes, keep, limit)
        },
    decreases s.len(),
{
    lemma_collect_len(s, schemes, keep, limit);
    if limit <= 0 {
        assert(collect_by_scheme(s.push(x), schemes, keep, limit) == Seq::<AddrView>::empty());
        assert(collect_by_scheme(s, schemes, keep, limit) == Seq::<AddrView>::empty());
    } else if s.len() == 0 {
        assert(s.push(x).len() == 1);
        assert(s.push(x)[0] == x);
        assert(s.push(x).drop_first() =~= Seq::<AddrView>::empty());
        assert(collect_by_scheme(Seq::<AddrView>::empty(), schemes, keep, limit - 1)
            == Seq::<AddrView>::empty());
        assert(collect_by_scheme(Seq::<AddrView>::empty(), schemes, keep, limit)
            == Seq::<AddrView>::empty());
        assert(collect_by_scheme(s, schemes, keep, limit) == Seq::<AddrView>::empty());
        if scheme_matches(schemes, x) == keep {
            assert(collect_by_scheme(s.push(x), schemes, keep, limit) == seq![x]
                + Seq::<AddrView>::empty());
            assert(seq![x] + Seq::<AddrView>::empty() =~= collect_by_scheme(
                s,
                schemes,
                keep,
                limit,
            ).push(x));
        } else {
            assert(collect_by_scheme(s.push(x), schemes, keep, limit) == Seq::<AddrView>::empty());
        }
    } else {
        let s2 = s.drop_first();
        assert(s.push(x).drop_first() =~= s2.push(x));
        assert(s.push(x)[0] == s[0]);
        assert(s.push(x).len() == s.len() + 1);
        lemma_collect_snoc(s2, x, schemes, keep, limit - 1);
        lemma_collect_snoc(s2, x, schemes, keep, limit);
        lemma_collect_len(s2, schemes, keep, limit - 1);
        if scheme_matches(schemes, s[0]) == keep {
            let rest = collect_by_scheme(s2, schemes, keep, limit - 1);
            assert(collect_by_scheme(s, schemes, keep, limit) == seq![s[0]] + rest);
            assert((seq![s[0]] + rest).len() == 1 + rest.len());
            assert(collect_by_scheme(s.push(x), schemes, keep, limit) == seq![s[0]]
                + collect_by_scheme(s2.push(x), schemes, keep, limit - 1));
            if scheme_matches(schemes, x) == keep && rest.len() < limit - 1 {
                assert(seq![s[0]] + rest.push(x) =~= (seq![s[0]] + rest).push(x));
            }
        } else {
            assert(collect_by_scheme(s, schemes, keep, limit) == collect_by_scheme(
                s2,
                schemes,
                keep,
                limit,
            ));
            assert(collect_by_scheme(s.push(x), schemes, keep, limit) == collect_by_scheme(
                s2.push(x),
                schemes,
                keep,
                limit,
            ));
        }
    }
}

/// A collection over a snapshot without repeats keeps its elements from
/// the snapshot and repeats none of them.
pub proof fn lemma_collect_distinct(
    s: Seq<AddrView>,
    schemes: Seq<Seq<char>>,
    keep: bool,
    limit: int,
)
    requires
        distinct_seq(s),
    ensures
        distinct_seq(collect_by_scheme(s, schemes, keep, limit)),
        forall|k: int|
            0 <= k < collect_by_scheme(s, schemes, keep, limit).len() ==> s.contains(
                #[trigger] collect_by_scheme(s, schemes, keep, limit)[k],
            ),
    decreases s.len(),
{
    if s.len() == 0 || limit <= 0 {
    } else {
        assert(distinct_seq(s.drop_first())) by {
            assert(forall|i: int, j: int|
                0 <= i < j < s.drop_first().len() ==> s.drop_first()[i] == s[i + 1]
                    && s.drop_first()[j] == s[j + 1]);
        }
        assert(forall|k: int|
            0 <= k < s.drop_first().len() && s.drop_first().contains(
                #[trigger] s.drop_first()[k],
            ) ==> s.contains(s.drop_first()[k])) by {
            assert(forall|k: int| 0 <= k < s.drop_first().len() ==> s.drop_first()[k] == s[k + 1]);
        }
        if scheme_matches(schemes, s[0]) == keep {
            lemma_collect_distinct(s.drop_first(), schemes, keep, limit - 1);
            let rest = collect_by_scheme(s.drop_first(), schemes, keep, limit - 1);
            let whole = seq![s[0]] + rest;
            assert(forall|k: int| 0 <= k < rest.len() ==> whole[k + 1] == #[trigger] rest[k]);
            assert(forall|k: int|
                0 <= k < rest.len() ==> s.drop_first().contains(#[trigger] rest[k]));
            assert(forall|k: int| 0 <= k < s.drop_first().len() ==> s.drop_first()[k] == s[k + 1]);
            assert(forall|k: int|
                1 <= k < whole.len() ==> s.contains(#[trigger] whole[k]) && whole[k] != s[0]);
            assert(whole[0] == s[0] && s.contains(s[0]));
        } else {
            lemma_collect_distinct(s.drop_first(), schemes, keep, limit);
            assert(forall|k: int| 0 <= k < s.drop_first().len() ==> s.drop_first()[k] == s[k + 1]);
        }
    }
}

/// A collection that may take the whole snapshot is exactly the
/// subsequence of endpoints whose scheme membership equals `keep`.
pub proof fn lemma_collect_unbounded(
    s: Seq<AddrView>,
    schemes: Seq<Seq<char>>,
    keep: bool,
    limit: int,
    v: AddrView,
)
    requires
        limit >= s.len(),
    ensures
        collect_by_scheme(s, schemes, keep, limit).contains(v) <==> (s.contains(v)
            && scheme_matches(schemes, v) == keep),
    decreases s.len(),
{
    if s.len() == 0 {
    } else {
        lemma_collect_unbounded(s.drop_first(), schemes, keep, limit - 1, v);
        lemma_collect_unbounded(s.drop_first(), schemes, keep, limit, v);
        assert(s.contains(v) <==> (v == s[0] || s.drop_first().contains(v))) by {
            assert(forall|k: int| 0 <= k < s.drop_first().len() ==> s.drop_first()[k] == s[k + 1]);
            if s.contains(v) {
                let i = choose|i: int| 0 <= i < s.len() && s[i] == v;
                if i > 0 {
                    assert(s.drop_first()[i - 1] == v);
                }
            }
        }
        if scheme_matches(schemes, s[0]) == keep {
            let rest = collect_by_scheme(s.drop_first(), schemes, keep, limit - 1);
            let whole = seq![s[0]] + rest;
            assert(whole.contains(v) <==> (v == s[0] || rest.contains(v))) by {
                assert(forall|k: int| 0 <= k < rest.len() ==> whole[k + 1] == #[trigger] rest[k]);
                assert(whole[0] == s[0]);
                if whole.contains(v) {
                    let i = choose|i: int| 0 <= i < whole.len() && whole[i] == v;
                    if i > 0 {
                        assert(rest[i - 1] == v);
                    }
                }
            }
        }
    }
}

/// Decide whether the endpoint's scheme stands in the list, per
/// [`scheme_matches`].
pub fn scheme_in(schemes: &Vec<String>, a: &PeerAddress) -> (r: bool)
    ensures
        r == scheme_matches(str_views(schemes@), a@),
{
    let ghost sviews = str_views(schemes@);
    let mut i: usize = 0;
    while i < schemes.len()
        invariant
            0 <= i <= schemes.len(),
            sviews == str_views(schemes@),
            forall|k: int| 0 <= k < i ==> #[trigger] sviews[k] != a@.scheme,
        decreases schemes.len() - i,
    {
        if schemes[i] == a.scheme {
            assert(sviews[i as int] == a@.scheme);
            return true;
        }
        i = i + 1;
    }
    false
}

/// Relies on `rand`'s `IteratorRandom::choose_multiple` over the range
/// of positions below `len`: it returns `amount` values sampled without
/// replacement, or every position when fewer are available, so the
/// result holds pairwise distinct positions below `len` and has length
/// `min(amount, len)`.
#[verifier::external_body]
pub(crate) fn sample_indices(len: usize, amount: usize) -> (r: Vec<usize>)
    ensures
        r@.len() == vstd::math::min(amount as int, len as int),
        forall|i: int| 0 <= i < r@.len() ==> #[trigger] r@[i] < len,
        forall|i: int, j: int| 0 <= i < j < r@.len() ==> r@[i] != r@[j],
{
    rand::seq::IteratorRandom::choose_multiple(0..len, &mut rand::rngs::OsRng, amount)
}

} // verus!
