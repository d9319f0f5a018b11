use vstd::prelude::*;

verus! {

/// The items of `v` whose quality is `q`, in their order in `v`.
pub open spec fn at_level<A>(v: Seq<(A, int)>, q: int) -> Seq<(A, int)>
    decreases v.len(),
{
    if v.len() == 0 {
        v
    } else {
        let rest = at_level(v.drop_last(), q);
        if v.last().1 == q {
            rest.push(v.last())
        } else {
            rest
        }
    }
}

/// The items of `v` whose quality lies between `level` and one thousand:
/// higher qualities first, and items of equal quality in their order in `v`.
pub open spec fn ranked_from<A>(v: Seq<(A, int)>, level: int) -> Seq<(A, int)>
    decreases 1001 - level,
{
    if level > 1000 {
        Seq::empty()
    } else {
        ranked_from(v, level + 1) + at_level(v, level)
    }
}

/// `v` ordered by descending quality, stable among equal qualities; items
/// whose quality is not in `0..=1000` are left out.
pub open spec fn ranked<A>(v: Seq<(A, int)>) -> Seq<(A, int)> {
    ranked_from(v, 0)
}

/// The items kept at one level all have that quality.
pub proof fn lemma_at_level_quality<A>(v: Seq<(A, int)>, q: int)
    ensures
        forall|k: int| 0 <= k < at_level(v, q).len() ==> (#[trigger] at_level(v, q)[k]).1 == q,
    decreases v.len(),
{
    if v.len() > 0 {
        lemma_at_level_quality(v.drop_last(), q);
        let rest = at_level(v.drop_last(), q);
        let r = at_level(v, q);
        assert forall|k: int| 0 <= k < r.len() implies (#[trigger] r[k]).1 == q by {
            if k < rest.len() {
                assert(r[k] == rest[k]);
            }
        }
    }
}

/// A ranking from `level` up holds qualities from `level` to one thousand,
/// in non-increasing order.
pub proof fn lemma_ranked_from_sorted<A>(v: Seq<(A, int)>, level: int)
    ensures
        forall|k: int|
            0 <= k < ranked_from(v, level).len() ==> level <= (#[trigger] ranked_from(v, level)[k]).1 <= 1000,
        forall|j: int, k: int|
            0 <= j < k < ranked_from(v, level).len() ==> (#[trigger] ranked_from(v, level)[j]).1
                >= (#[trigger] ranked_from(v, level)[k]).1,
    decreases 1001 - level,
{
    if level <= 1000 {
        lemma_ranked_from_sorted(v, level + 1);
        lemma_at_level_quality(v, level);
        let a = ranked_from(v, level + 1);
        let b = at_level(v, level);
        let r = ranked_from(v, level);
        assert(r == a + b);
        assert forall|k: int| 0 <= k < r.len() implies level <= (#[trigger] r[k]).1 <= 1000 by {
            if k < a.len() {
                assert(r[k] == a[k]);
            } else {
                assert(r[k] == b[k - a.len()]);
            }
        }
        assert forall|j: int, k: int| 0 <= j < k < r.len() implies (#[trigger] r[j]).1 >= (#[trigger] r[k]).1 by {
            if k < a.len() {
                assert(r[j] == a[j] && r[k] == a[k]);
            } else if j < a.len() {
                assert(r[j] == a[j] && r[k] == b[k - a.len()]);
            } else {
                assert(r[j] == b[j - a.len()] && r[k] == b[k - a.len()]);
            }
        }
    }
}

/// The items of `v` whose quality is at least `level`, in order.
pub open spec fn at_or_above<A>(v: Seq<(A, int)>, level: int) -> Seq<(A, int)>
    decreases v.len(),
{
    if v.len() == 0 {
        v
    } else {
        let rest = at_or_above(v.drop_last(), level);
        if v.last().1 >= level {
            rest.push(v.last())
        } else {
            rest
        }
    }
}

/// Splitting off one level from those at or above it.
proof fn lemma_at_or_above_split<A>(v: Seq<(A, int)>, level: int)
    ensures
        at_or_above(v, level).to_multiset() == at_or_above(v, level + 1).to_multiset().add(
            at_level(v, level).to_multiset(),
        ),
    decreases v.len(),
{
    broadcast use vstd::seq_lib::group_to_multiset_ensures, vstd::multiset::group_multiset_axioms;

    if v.len() > 0 {
        lemma_at_or_above_split(v.drop_last(), level);
        assert(at_or_above(v, level).to_multiset() =~= at_or_above(v, level + 1).to_multiset().add(
            at_level(v, level).to_multiset(),
        ));
    } else {
        assert(at_or_above(v, level).to_multiset() =~= at_or_above(v, level + 1).to_multiset().add(
            at_level(v, level).to_multiset(),
        ));
    }
}

/// A ranking from `level` up holds exactly the items at or above `level`.
proof fn lemma_ranked_from_items<A>(v: Seq<(A, int)>, level: int)
    requires
        forall|k: int| 0 <= k < v.len() ==> (#[trigger] v[k]).1 <= 1000,
    ensures
        ranked_from(v, level).to_multiset() == at_or_above(v, level).to_multiset(),
    decreases 1001 - level,
{
    broadcast use vstd::seq_lib::group_to_multiset_ensures, vstd::multiset::group_multiset_axioms,
        vstd::seq_lib::lemma_multiset_commutative;

    if level <= 1000 {
        lemma_ranked_from_items(v, level + 1);
        lemma_at_or_above_split(v, level);
        assert(ranked_from(v, level) == ranked_from(v, level + 1) + at_level(v, level));
    } else {
        lemma_none_above(v, level);
        assert(ranked_from(v, level).to_multiset() =~= at_or_above(v, level).to_multiset());
    }
}

/// Nothing lies above the highest quality.
proof fn lemma_none_above<A>(v: Seq<(A, int)>, level: int)
    requires
        forall|k: int| 0 <= k < v.len() ==> (#[trigger] v[k]).1 <= 1000,
        level > 1000,
    ensures
        at_or_above(v, level) == Seq::<(A, int)>::empty(),
    decreases v.len(),
{
    if v.len() > 0 {
        assert(v.last() == v[v.len() - 1]);
        lemma_none_above(v.drop_last(), level);
    }
}

/// Where no quality is negative, every item is at or above zero.
proof fn lemma_all_at_or_above<A>(v: Seq<(A, int)>)
    requires
        forall|k: int| 0 <= k < v.len() ==> 0 <= (#[trigger] v[k]).1,
    ensures
        at_or_above(v, 0) == v,
    decreases v.len(),
{
    if v.len() > 0 {
        assert(v.last() == v[v.len() - 1]);
        lemma_all_at_or_above(v.drop_last());
        assert(v.drop_last().push(v.last()) =~= v);
    }
}

/// Ranking loses and adds nothing: where every quality lies between zero
/// and one, the ranked sequence holds the same items as `v`.
pub proof fn law_ranking_keeps_items<A>(v: Seq<(A, int)>)
    requires
        forall|k: int| 0 <= k < v.len() ==> 0 <= (#[trigger] v[k]).1 <= 1000,
    ensures
        ranked(v).to_multiset() == v.to_multiset(),
{
    lemma_ranked_from_items(v, 0);
    lemma_all_at_or_above(v);
}

} // verus!
