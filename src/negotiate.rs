use vstd::prelude::*;

use crate::header::{preference_views, Preference, PreferenceView};
use crate::qvalue::QValue;
use crate::rank::{at_level, lemma_ranked_from_sorted, law_ranking_keeps_items, ranked, ranked_from};
use crate::tag::{range_matches, LanguageTag};

verus! {

/// The highest quality among the preferences whose range matches `tag`, or
/// -1 where none matches.
pub open spec fn best_quality(prefs: Seq<PreferenceView>, tag: Seq<Seq<char>>) -> int
    decreases prefs.len(),
{
    if prefs.len() == 0 {
        -1
    } else {
        let rest = best_quality(prefs.drop_last(), tag);
        if range_matches(prefs.last().0, tag) && prefs.last().1 > rest {
            prefs.last().1
        } else {
            rest
        }
    }
}

/// What an accepted tag is: its components and its quality in thousandths.
pub type AcceptanceView = (Seq<Seq<char>>, int);

/// The tags that some preference with a quality above zero matches, each
/// with the best quality that matches it, in the order of `tags`.
pub open spec fn acceptable(prefs: Seq<PreferenceView>, tags: Seq<Seq<Seq<char>>>) -> Seq<AcceptanceView>
    decreases tags.len(),
{
    if tags.len() == 0 {
        Seq::empty()
    } else {
        let rest = acceptable(prefs, tags.drop_last());
        let q = best_quality(prefs, tags.last());
        if q > 0 {
            rest.push((tags.last(), q))
        } else {
            rest
        }
    }
}

/// A content tag that the client accepts, with its effective quality.
#[derive(Debug)]
pub struct Acceptance {
    pub tag: LanguageTag,
    pub quality: QValue,
}

impl View for Acceptance {
    type V = AcceptanceView;

    open spec fn view(&self) -> AcceptanceView {
        (self.tag@, self.quality@)
    }
}

impl Clone for Acceptance {
    fn clone(&self) -> (r: Self)
        ensures
            r@ == self@,
    {
        Acceptance { tag: self.tag.clone(), quality: self.quality }
    }
}

/// Views of a sequence of acceptances.
pub open spec fn acceptance_views(v: Seq<Acceptance>) -> Seq<AcceptanceView> {
    v.map_values(|a: Acceptance| a@)
}

/// Views of a sequence of tags.
pub open spec fn tag_views(v: Seq<LanguageTag>) -> Seq<Seq<Seq<char>>> {
    v.map_values(|t: LanguageTag| t@)
}

/// The acceptances of `v` by descending quality, keeping the order of
/// those with equal quality.
pub fn rank_acceptances(v: &Vec<Acceptance>) -> (r: Vec<Acceptance>)
    ensures
        acceptance_views(r@) == ranked(acceptance_views(v@)),
{
    let ghost av = acceptance_views(v@);
    let mut out: Vec<Acceptance> = Vec::new();
    let mut next: u16 = 1001;
    proof {
        assert(acceptance_views(out@) =~= Seq::<AcceptanceView>::empty());
    }
    while next > 0
        invariant
            next <= 1001,
            av == acceptance_views(v@),
            acceptance_views(out@) == ranked_from(av, next as int),
        decreases next,
    {
        let level = next - 1;
        let mut i: usize = 0;
        proof {
            assert(av.take(0) =~= Seq::<AcceptanceView>::empty());
            assert(ranked_from(av, next as int) + at_level(av.take(0), level as int) =~= ranked_from(av, next as int));
        }
        while i < v.len()
            invariant
                level < 1001,
                next == level + 1,
                i <= v@.len(),
                av == acceptance_views(v@),
                acceptance_views(out@) == ranked_from(av, next as int) + at_level(av.take(i as int), level as int),
            decreases v@.len() - i,
        {
            proof {
                assert(av.take(i as int + 1).drop_last() =~= av.take(i as int));
                assert(av[i as int] == v@[i as int]@);
            }
            if v[i].quality.thousandths() == level {
                let ghost before = out@;
                out.push(v[i].clone());
                proof {
                    assert(acceptance_views(out@) =~= acceptance_views(before).push(av[i as int]));
                }
            }
            i = i + 1;
        }
        proof {
            assert(av.take(v@.len() as int) =~= av);
        }
        next = level;
    }
    out
}

/// The best preference for `tag`: the index of the first preference of
/// highest quality among those whose range matches it.
pub fn best_match(prefs: &Vec<Preference>, tag: &LanguageTag) -> (r: Option<usize>)
    ensures
        best_quality(preference_views(prefs@), tag@) < 0 ==> r is None,
        best_quality(preference_views(prefs@), tag@) >= 0 ==> (r matches Some(j) && j < prefs@.len()
            && prefs@[j as int]@.1 == best_quality(preference_views(prefs@), tag@)
            && range_matches(prefs@[j as int]@.0, tag@)),
{
    let ghost pv = preference_views(prefs@);
    let mut best: Option<usize> = None;
    let mut best_q: i32 = -1;
    let mut j: usize = 0;
    proof {
        assert(pv.take(0) =~= Seq::<PreferenceView>::empty());
    }
    while j < prefs.len()
        invariant
            pv == preference_views(prefs@),
            j <= prefs@.len(),
            best_q as int == best_quality(pv.take(j as int), tag@),
            best_q < 0 ==> best is None,
            best_q >= 0 ==> (best matches Some(k) && k < j && pv[k as int].1 == best_q as int
                && range_matches(pv[k as int].0, tag@)),
        decreases prefs@.len() - j,
    {
        proof {
            assert(pv.take(j as int + 1).drop_last() =~= pv.take(j as int));
            assert(pv[j as int] == prefs@[j as int]@);
        }
        let q = prefs[j].quality.thousandths();
        if prefs[j].range.matches(tag) && q as i32 > best_q {
            best = Some(j);
            best_q = q as i32;
        }
        j = j + 1;
    }
    proof {
        assert(pv.take(prefs@.len() as int) =~= pv);
    }
    best
}

/// Matches content tags against ranked preferences: each tag takes the
/// highest quality among the ranges that match it; tags that no range
/// matches, or only ranges of quality zero, are left out. The accepted
/// tags come by descending quality, in the order of `tags` among equal
/// qualities.
pub fn negotiate(prefs: &Vec<Preference>, tags: &Vec<LanguageTag>) -> (r: Vec<Acceptance>)
    ensures
        acceptance_views(r@) == ranked(acceptable(preference_views(prefs@), tag_views(tags@))),
{
    let ghost pv = preference_views(prefs@);
    let ghost tv = tag_views(tags@);
    let mut found: Vec<Acceptance> = Vec::new();
    let mut i: usize = 0;
    proof {
        assert(tv.take(0) =~= Seq::<Seq<Seq<char>>>::empty());
        assert(acceptance_views(found@) =~= Seq::<AcceptanceView>::empty());
    }
    while i < tags.len()
        invariant
            pv == preference_views(prefs@),
            tv == tag_views(tags@),
            i <= tags@.len(),
            acceptance_views(found@) == acceptable(pv, tv.take(i as int)),
        decreases tags@.len() - i,
    {
        proof {
            assert(tv.take(i as int + 1).drop_last() =~= tv.take(i as int));
            assert(tv[i as int] == tags@[i as int]@);
        }
        match best_match(prefs, &tags[i]) {
            Some(j) => {
                let quality = prefs[j].quality;
                if quality.thousandths() > 0 {
                    let ghost before = found@;
                    found.push(Acceptance { tag: tags[i].clone(), quality });
                    proof {
                        assert(acceptance_views(found@) =~= acceptance_views(before).push((tv[i as int], quality@)));
                    }
                }
            },
            None => {},
        }
        i = i + 1;
    }
    proof {
        assert(tv.take(tags@.len() as int) =~= tv);
    }
    rank_acceptances(&found)
}

/// Negotiation keeps no tag at quality zero.
proof fn lemma_acceptable_no_zero(prefs: Seq<PreferenceView>, tags: Seq<Seq<Seq<char>>>)
    ensures
        at_level(acceptable(prefs, tags), 0) == Seq::<AcceptanceView>::empty(),
    decreases tags.len(),
{
    if tags.len() > 0 {
        lemma_acceptable_no_zero(prefs, tags.drop_last());
        let rest = acceptable(prefs, tags.drop_last());
        if best_quality(prefs, tags.last()) > 0 {
            assert(acceptable(prefs, tags).drop_last() =~= rest);
        }
    }
}

/// The tags accepted by negotiation come by non-increasing quality, and
/// every one of them has a quality above zero and at most one.
pub proof fn law_negotiated_by_quality(prefs: Seq<PreferenceView>, tags: Seq<Seq<Seq<char>>>)
    ensures
        forall|k: int|
            0 <= k < ranked(acceptable(prefs, tags)).len() ==> 0 < (#[trigger] ranked(acceptable(prefs, tags))[k]).1 <= 1000,
        forall|j: int, k: int|
            0 <= j < k < ranked(acceptable(prefs, tags)).len() ==> (#[trigger] ranked(acceptable(prefs, tags))[j]).1
                >= (#[trigger] ranked(acceptable(prefs, tags))[k]).1,
{
    let v = acceptable(prefs, tags);
    lemma_acceptable_no_zero(prefs, tags);
    lemma_ranked_from_sorted(v, 1);
    assert(ranked(v) =~= ranked_from(v, 1));
}

/// The best quality is at most the highest quality of the preferences.
proof fn lemma_best_quality_bounded(prefs: Seq<PreferenceView>, tag: Seq<Seq<char>>)
    requires
        forall|k: int| 0 <= k < prefs.len() ==> 0 <= (#[trigger] prefs[k]).1 <= 1000,
    ensures
        best_quality(prefs, tag) <= 1000,
    decreases prefs.len(),
{
    if prefs.len() > 0 {
        assert(prefs.last() == prefs[prefs.len() - 1]);
        lemma_best_quality_bounded(prefs.drop_last(), tag);
    }
}

/// Acceptable tags have qualities between zero and one.
proof fn lemma_acceptable_bounded(prefs: Seq<PreferenceView>, tags: Seq<Seq<Seq<char>>>)
    requires
        forall|k: int| 0 <= k < prefs.len() ==> 0 <= (#[trigger] prefs[k]).1 <= 1000,
    ensures
        forall|k: int|
            0 <= k < acceptable(prefs, tags).len() ==> 0 <= (#[trigger] acceptable(prefs, tags)[k]).1 <= 1000,
    decreases tags.len(),
{
    if tags.len() > 0 {
        lemma_acceptable_bounded(prefs, tags.drop_last());
        lemma_best_quality_bounded(prefs, tags.last());
        let rest = acceptable(prefs, tags.drop_last());
        let a = acceptable(prefs, tags);
        assert forall|k: int| 0 <= k < a.len() implies 0 <= (#[trigger] a[k]).1 <= 1000 by {
            if k < rest.len() {
                assert(a[k] == rest[k]);
            }
        }
    }
}

/// Negotiation returns exactly the acceptable tags, reordered, where every
/// preference has a quality between zero and one.
pub proof fn law_negotiation_keeps_acceptable(prefs: Seq<PreferenceView>, tags: Seq<Seq<Seq<char>>>)
    requires
        forall|k: int| 0 <= k < prefs.len() ==> 0 <= (#[trigger] prefs[k]).1 <= 1000,
    ensures
        ranked(acceptable(prefs, tags)).to_multiset() == acceptable(prefs, tags).to_multiset(),
{
    lemma_acceptable_bounded(prefs, tags);
    law_ranking_keeps_items(acceptable(prefs, tags));
}

} // verus!
