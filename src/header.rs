use vstd::prelude::*;
use vstd::string::*;
use vstd::utf8::is_ascii_chars;

use crate::error::AcceptError;
use crate::qvalue::{qvalue_thousandths, valid_qvalue_text, QValue};
use crate::range::{is_star, LanguageRange};
use crate::rank::{lemma_ranked_from_sorted, law_ranking_keeps_items, at_level, ranked, ranked_from};
use crate::tag::{lemma_tag_ascii, valid_tag};
use crate::text::{ascii_slice, lemma_ascii_bytes, lemma_split_chars, lemma_split_len, split_ascii, split_on, views};

verus! {

broadcast use is_ascii_spec_bytes;

/// Optional white space around the pieces of a header value.
pub open spec fn is_ows(c: char) -> bool {
    c == ' ' || c == '\t'
}

/// `s` without its leading white space.
pub open spec fn trim_front(s: Seq<char>) -> Seq<char>
    decreases s.len(),
{
    if s.len() > 0 && is_ows(s[0]) {
        trim_front(s.drop_first())
    } else {
        s
    }
}

/// `s` without its trailing white space.
pub open spec fn trim_back(s: Seq<char>) -> Seq<char>
    decreases s.len(),
{
    if s.len() > 0 && is_ows(s.last()) {
        trim_back(s.drop_last())
    } else {
        s
    }
}

/// `s` without white space at either end.
pub open spec fn trimmed(s: Seq<char>) -> Seq<char> {
    trim_back(trim_front(s))
}

/// An ASCII string without white space at either end.
pub fn trim_ascii(s: &str) -> (r: String)
    requires
        is_ascii(s),
    ensures
        r@ == trimmed(s@),
        is_ascii_chars(r@),
{
    proof {
        lemma_ascii_bytes(s);
    }
    let bytes = s.as_bytes();
    let n = bytes.len();
    let mut a: usize = 0;
    proof {
        assert(s@.subrange(0, n as int) =~= s@);
    }
    while a < n && (bytes[a] == 32 || bytes[a] == 9)
        invariant
            n == s@.len(),
            bytes@.len() == n,
            forall|k: int| 0 <= k < n ==> bytes@[k] as int == #[trigger] s@[k] as int,
            a <= n,
            trim_front(s@) == trim_front(s@.subrange(a as int, n as int)),
        decreases n - a,
    {
        proof {
            assert(s@.subrange(a as int, n as int).drop_first() =~= s@.subrange(a as int + 1, n as int));
        }
        a = a + 1;
    }
    proof {
        if a < n {
            assert(bytes@[a as int] as int == s@[a as int] as int);
        }
        assert(trim_front(s@.subrange(a as int, n as int)) == s@.subrange(a as int, n as int));
    }
    let ghost front = s@.subrange(a as int, n as int);
    let mut b: usize = n;
    while b > a && (bytes[b - 1] == 32 || bytes[b - 1] == 9)
        invariant
            n == s@.len(),
            bytes@.len() == n,
            forall|k: int| 0 <= k < n ==> bytes@[k] as int == #[trigger] s@[k] as int,
            a <= b <= n,
            front == s@.subrange(a as int, n as int),
            trim_back(front) == trim_back(s@.subrange(a as int, b as int)),
        decreases b - a,
    {
        proof {
            assert(s@.subrange(a as int, b as int).drop_last() =~= s@.subrange(a as int, b as int - 1));
        }
        b = b - 1;
    }
    proof {
        if b > a {
            assert(bytes@[b as int - 1] as int == s@[b as int - 1] as int);
        }
        assert(trim_back(s@.subrange(a as int, b as int)) == s@.subrange(a as int, b as int));
    }
    ascii_slice(s, a, b)
}

/// What a preference is: its range (`None` for the wildcard) and its
/// quality in thousandths.
pub type PreferenceView = (Option<Seq<Seq<char>>>, int);

/// The pieces of an entry between semicolons, after trimming the entry.
pub open spec fn entry_parts(e: Seq<char>) -> Seq<Seq<char>> {
    split_on(trimmed(e), ';')
}

/// The range text of an entry.
pub open spec fn entry_range_text(e: Seq<char>) -> Seq<char> {
    trimmed(entry_parts(e)[0])
}

/// The parameter text of an entry, where it has one.
pub open spec fn entry_param(e: Seq<char>) -> Seq<char> {
    trimmed(entry_parts(e)[1])
}

/// `*` or a language tag.
pub open spec fn valid_range_text(t: Seq<char>) -> bool {
    is_star(t) || valid_tag(t)
}

/// The range that a valid range text reads as.
pub open spec fn range_view_of(t: Seq<char>) -> Option<Seq<Seq<char>>> {
    if is_star(t) {
        None
    } else {
        Some(split_on(t, '-'))
    }
}

/// `q=` (or `Q=`) followed by a quality text.
pub open spec fn valid_param(p: Seq<char>) -> bool {
    &&& p.len() >= 2
    &&& p[0] == 'q' || p[0] == 'Q'
    &&& p[1] == '='
    &&& valid_qvalue_text(p.subrange(2, p.len() as int))
}

/// `range [ ";" "q=" qvalue ]`, with optional white space around each piece.
pub open spec fn entry_well_formed(e: Seq<char>) -> bool {
    &&& entry_parts(e).len() <= 2
    &&& valid_range_text(entry_range_text(e))
    &&& entry_parts(e).len() == 1 || valid_param(entry_param(e))
}

/// The quality of a well-formed entry in thousandths: one where it names none.
pub open spec fn entry_quality(e: Seq<char>) -> int {
    if entry_parts(e).len() == 1 {
        1000
    } else {
        qvalue_thousandths(entry_param(e).subrange(2, entry_param(e).len() as int))
    }
}

/// A well-formed entry whose quality is at most one.
pub open spec fn entry_accepted(e: Seq<char>) -> bool {
    entry_well_formed(e) && entry_quality(e) <= 1000
}

/// What an accepted entry reads as.
pub open spec fn entry_view(e: Seq<char>) -> PreferenceView {
    (range_view_of(entry_range_text(e)), entry_quality(e))
}

/// Text is ASCII where it is ASCII once trimmed.
proof fn lemma_trimmed_ascii(s: Seq<char>)
    requires
        is_ascii_chars(trimmed(s)),
    ensures
        is_ascii_chars(s),
{
    lemma_trim_back_ascii(trim_front(s));
    lemma_trim_front_ascii(s);
}

/// Leading white space is ASCII.
proof fn lemma_trim_front_ascii(s: Seq<char>)
    requires
        is_ascii_chars(trim_front(s)),
    ensures
        is_ascii_chars(s),
    decreases s.len(),
{
    if s.len() > 0 && is_ows(s[0]) {
        lemma_trim_front_ascii(s.drop_first());
        assert forall|k: int| 0 <= k < s.len() implies '\0' <= #[trigger] s[k] <= '\u{7f}' by {
            if k > 0 {
                assert(s[k] == s.drop_first()[k - 1]);
            }
        }
    }
}

/// Trailing white space is ASCII.
proof fn lemma_trim_back_ascii(s: Seq<char>)
    requires
        is_ascii_chars(trim_back(s)),
    ensures
        is_ascii_chars(s),
    decreases s.len(),
{
    if s.len() > 0 && is_ows(s.last()) {
        lemma_trim_back_ascii(s.drop_last());
        assert forall|k: int| 0 <= k < s.len() implies '\0' <= #[trigger] s[k] <= '\u{7f}' by {
            if k < s.len() - 1 {
                assert(s[k] == s.drop_last()[k]);
            }
        }
    }
}

/// A well-formed entry is ASCII text.
proof fn lemma_entry_ascii(e: Seq<char>)
    requires
        entry_well_formed(e),
    ensures
        is_ascii_chars(e),
{
    let t = trimmed(e);
    let parts = entry_parts(e);
    lemma_split_len(t, ';');
    let rt = entry_range_text(e);
    if !is_star(rt) {
        lemma_tag_ascii(rt);
    }
    assert(is_ascii_chars(rt));
    lemma_trimmed_ascii(parts[0]);
    if parts.len() == 2 {
        let p = entry_param(e);
        let q = p.subrange(2, p.len() as int);
        assert forall|k: int| 0 <= k < p.len() implies '\0' <= #[trigger] p[k] <= '\u{7f}' by {
            if k >= 2 {
                assert(p[k] == q[k - 2]);
            }
        }
        lemma_trimmed_ascii(parts[1]);
    }
    assert forall|i: int, j: int| 0 <= i < parts.len() && 0 <= j < parts[i].len() implies
        ('\0' <= #[trigger] parts[i][j] <= '\u{7f}') by {
        assert(i == 0 || i == 1);
    }
    lemma_split_chars(t, ';', |c: char| '\0' <= c <= '\u{7f}');
    assert forall|k: int| 0 <= k < t.len() implies '\0' <= #[trigger] t[k] <= '\u{7f}' by {
        assert(t[k] == ';' || '\0' <= t[k] <= '\u{7f}');
    }
    lemma_trimmed_ascii(e);
}

/// One entry of an `Accept-Language` value: a range and its quality.
#[derive(Debug)]
pub struct Preference {
    pub range: LanguageRange,
    pub quality: QValue,
}

impl View for Preference {
    type V = PreferenceView;

    open spec fn view(&self) -> PreferenceView {
        (self.range@, self.quality@)
    }
}

impl Clone for Preference {
    fn clone(&self) -> (r: Self)
        ensures
            r@ == self@,
    {
        Preference { range: self.range.clone(), quality: self.quality }
    }
}

/// Reads one entry, such as `fr;q=0.8`: a range, then optionally `;q=`
/// and a quality; a missing quality is one.
pub fn parse_preference(entry: &str) -> (r: Result<Preference, AcceptError>)
    ensures
        !entry_well_formed(entry@) ==> r == Err::<Preference, AcceptError>(AcceptError::Grammar),
        entry_well_formed(entry@) && entry_quality(entry@) > 1000 ==> r == Err::<Preference, AcceptError>(AcceptError::Range),
        entry_accepted(entry@) ==> (r matches Ok(p) && p@ == entry_view(entry@)),
{
    if !entry.is_ascii() {
        proof {
            if entry_well_formed(entry@) {
                lemma_entry_ascii(entry@);
            }
        }
        return Err(AcceptError::Grammar);
    }
    let text = trim_ascii(entry);
    let parts = split_ascii(text.as_str(), ';');
    proof {
        lemma_split_len(text@, ';');
        assert(parts@[0]@ == entry_parts(entry@)[0]);
    }
    if parts.len() > 2 {
        return Err(AcceptError::Grammar);
    }
    let range_text = trim_ascii(parts[0].as_str());
    let range = match LanguageRange::from_str(range_text.as_str()) {
        Ok(x) => x,
        Err(e) => {
            return Err(e);
        },
    };
    if parts.len() == 1 {
        return Ok(Preference { range, quality: QValue::one() });
    }
    proof {
        assert(parts@[1]@ == entry_parts(entry@)[1]);
    }
    let param = trim_ascii(parts[1].as_str());
    let param_str = param.as_str();
    let pb = param_str.as_bytes();
    proof {
        lemma_ascii_bytes(param_str);
        if pb@.len() >= 2 {
            assert(pb@[0] as int == param@[0] as int);
            assert(pb@[1] as int == param@[1] as int);
        }
    }
    if pb.len() < 2 || !(pb[0] == 113 || pb[0] == 81) || pb[1] != 61 {
        return Err(AcceptError::Grammar);
    }
    let quality_text = ascii_slice(param_str, 2, pb.len());
    match QValue::from_str(quality_text.as_str()) {
        Ok(quality) => Ok(Preference { range, quality }),
        Err(e) => Err(e),
    }
}

/// Views of a sequence of preferences.
pub open spec fn preference_views(v: Seq<Preference>) -> Seq<PreferenceView> {
    v.map_values(|p: Preference| p@)
}

/// The preferences of `v` by descending quality, keeping the order of
/// those with equal quality.
pub fn rank_preferences(v: &Vec<Preference>) -> (r: Vec<Preference>)
    ensures
        preference_views(r@) == ranked(preference_views(v@)),
{
    let ghost pv = preference_views(v@);
    let mut out: Vec<Preference> = Vec::new();
    let mut next: u16 = 1001;
    proof {
        assert(preference_views(out@) =~= Seq::<PreferenceView>::empty());
    }
    while next > 0
        invariant
            next <= 1001,
            pv == preference_views(v@),
            preference_views(out@) == ranked_from(pv, next as int),
        decreases next,
    {
        let level = next - 1;
        let mut i: usize = 0;
        proof {
            assert(pv.take(0) =~= Seq::<PreferenceView>::empty());
            assert(ranked_from(pv, next as int) + at_level(pv.take(0), level as int) =~= ranked_from(pv, next as int));
        }
        while i < v.len()
            invariant
                level < 1001,
                next == level + 1,
                i <= v@.len(),
                pv == preference_views(v@),
                preference_views(out@) == ranked_from(pv, next as int) + at_level(pv.take(i as int), level as int),
            decreases v@.len() - i,
        {
            proof {
                assert(pv.take(i as int + 1).drop_last() =~= pv.take(i as int));
                assert(pv[i as int] == v@[i as int]@);
            }
            if v[i].quality.thousandths() == level {
                let ghost before = out@;
                out.push(v[i].clone());
                proof {
                    assert(preference_views(out@) =~= preference_views(before).push(pv[i as int]));
                }
            }
            i = i + 1;
        }
        proof {
            assert(pv.take(v@.len() as int) =~= pv);
        }
        next = level;
    }
    out
}

/// The entries of a header that read as preferences, in order.
pub open spec fn accepted_entries(entries: Seq<Seq<char>>) -> Seq<PreferenceView>
    decreases entries.len(),
{
    if entries.len() == 0 {
        Seq::empty()
    } else {
        let rest = accepted_entries(entries.drop_last());
        if entry_accepted(entries.last()) {
            rest.push(entry_view(entries.last()))
        } else {
            rest
        }
    }
}

/// The preferences of a header value: its comma-separated entries that read
/// as preferences, ranked by descending quality.
pub open spec fn header_preferences(header: Seq<char>) -> Seq<PreferenceView> {
    ranked(accepted_entries(split_on(header, ',')))
}

/// Reads an `Accept-Language` value such as `fr-FR,fr;q=0.8,en;q=0.4`.
/// Entries that are malformed, or whose quality is above one, are left
/// out; the rest come by descending quality, in header order among equal
/// qualities. A value that is not ASCII is refused as a whole.
pub fn parse_accept_language(header: &str) -> (r: Result<Vec<Preference>, AcceptError>)
    ensures
        !is_ascii_chars(header@) ==> r == Err::<Vec<Preference>, AcceptError>(AcceptError::Grammar),
        is_ascii_chars(header@) ==> (r matches Ok(v) && preference_views(v@) == header_preferences(header@)),
{
    if !header.is_ascii() {
        return Err(AcceptError::Grammar);
    }
    let entries = split_ascii(header, ',');
    let ghost ev = views(entries@);
    let mut valid: Vec<Preference> = Vec::new();
    let mut i: usize = 0;
    proof {
        assert(ev.take(0) =~= Seq::<Seq<char>>::empty());
        assert(preference_views(valid@) =~= Seq::<PreferenceView>::empty());
    }
    while i < entries.len()
        invariant
            ev == views(entries@),
            ev == split_on(header@, ','),
            i <= ev.len(),
            preference_views(valid@) == accepted_entries(ev.take(i as int)),
        decreases ev.len() - i,
    {
        proof {
            assert(ev.take(i as int + 1).drop_last() =~= ev.take(i as int));
            assert(entries@[i as int]@ == ev[i as int]);
        }
        match parse_preference(entries[i].as_str()) {
            Ok(p) => {
                let ghost before = valid@;
                valid.push(p);
                proof {
                    assert(preference_views(valid@) =~= preference_views(before).push(p@));
                }
            },
            Err(_) => {},
        }
        i = i + 1;
    }
    proof {
        assert(ev.take(ev.len() as int) =~= ev);
    }
    Ok(rank_preferences(&valid))
}


/// The preferences read from a header come by non-increasing quality, and
/// every quality lies between zero and one.
pub proof fn law_header_preferences_by_quality(header: Seq<char>)
    ensures
        forall|k: int|
            0 <= k < header_preferences(header).len() ==> 0 <= (#[trigger] header_preferences(header)[k]).1 <= 1000,
        forall|j: int, k: int|
            0 <= j < k < header_preferences(header).len() ==> (#[trigger] header_preferences(header)[j]).1
                >= (#[trigger] header_preferences(header)[k]).1,
{
    lemma_ranked_from_sorted(accepted_entries(split_on(header, ',')), 0);
}

/// Accepted entries have qualities between zero and one.
proof fn lemma_accepted_entries_bounded(entries: Seq<Seq<char>>)
    ensures
        forall|k: int|
            0 <= k < accepted_entries(entries).len() ==> 0 <= (#[trigger] accepted_entries(entries)[k]).1 <= 1000,
    decreases entries.len(),
{
    if entries.len() > 0 {
        lemma_accepted_entries_bounded(entries.drop_last());
        let rest = accepted_entries(entries.drop_last());
        let a = accepted_entries(entries);
        assert forall|k: int| 0 <= k < a.len() implies 0 <= (#[trigger] a[k]).1 <= 1000 by {
            if k < rest.len() {
                assert(a[k] == rest[k]);
            }
        }
    }
}

/// The preferences read from a header are exactly its accepted entries,
/// reordered.
pub proof fn law_header_keeps_accepted_entries(header: Seq<char>)
    ensures
        header_preferences(header).to_multiset() == accepted_entries(split_on(header, ',')).to_multiset(),
{
    lemma_accepted_entries_bounded(split_on(header, ','));
    law_ranking_keeps_items(accepted_entries(split_on(header, ',')));
}

} // verus!
