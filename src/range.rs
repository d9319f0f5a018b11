use vstd::prelude::*;
use vstd::string::*;

use crate::error::AcceptError;
use crate::tag::{is_component_prefix, range_matches, same_components, valid_tag, LanguageTag};
use crate::text::split_on;

verus! {

broadcast use is_ascii_spec_bytes;

/// A language range of RFC 3066: the wildcard `*`, or a tag that matches
/// itself and every tag that extends it by further subtags.
#[derive(Debug)]
pub enum LanguageRange {
    Prefix(LanguageTag),
    Wildcard,
}

impl View for LanguageRange {
    /// `None` for the wildcard, else the components of the prefix.
    type V = Option<Seq<Seq<char>>>;

    open spec fn view(&self) -> Option<Seq<Seq<char>>> {
        match self {
            LanguageRange::Prefix(t) => Some(t@),
            LanguageRange::Wildcard => None,
        }
    }
}

/// The text `*`.
pub open spec fn is_star(s: Seq<char>) -> bool {
    s.len() == 1 && s[0] == '*'
}

impl LanguageRange {
    /// Reads `*` as the wildcard and any other text as a prefix tag.
    pub fn from_str(s: &str) -> (r: Result<LanguageRange, AcceptError>)
        ensures
            is_star(s@) ==> r matches Ok(LanguageRange::Wildcard),
            !is_star(s@) ==> (r is Ok <==> valid_tag(s@)),
            !is_star(s@) ==> (r matches Ok(x) ==> x@ == Some(split_on(s@, '-'))),
            r is Err ==> r == Err::<LanguageRange, AcceptError>(AcceptError::Grammar),
    {
        if s.is_ascii() {
            let bytes = s.as_bytes();
            proof {
                crate::text::lemma_ascii_bytes(s);
            }
            if bytes.len() == 1 && bytes[0] == 42 {
                proof {
                    assert(s@[0] as int == bytes@[0] as int);
                }
                return Ok(LanguageRange::Wildcard);
            }
            proof {
                if s@.len() == 1 {
                    assert(s@[0] as int == bytes@[0] as int);
                }
            }
        } else {
            proof {
                if is_star(s@) {
                    assert('\0' <= s@[0] <= '\u{7f}');
                }
            }
        }
        match LanguageTag::from_str(s) {
            Ok(t) => Ok(LanguageRange::Prefix(t)),
            Err(e) => Err(e),
        }
    }

    /// Whether this range matches `tag`: the wildcard matches every tag; a
    /// prefix matches a tag whose leading components equal its own, up to
    /// case, and never a tag with fewer components.
    pub fn matches(&self, tag: &LanguageTag) -> (r: bool)
        ensures
            r == range_matches(self@, tag@),
    {
        match self {
            LanguageRange::Wildcard => true,
            LanguageRange::Prefix(pattern) => {
                let n = pattern.components.len();
                if n > tag.components.len() {
                    return false;
                }
                let mut i: usize = 0;
                while i < n
                    invariant
                        self@ == Some(pattern@),
                        n == pattern@.len(),
                        n <= tag@.len(),
                        tag@.len() == tag.components@.len(),
                        i <= n,
                        forall|k: int| 0 <= k < i ==> crate::text::same_ignoring_case(#[trigger] pattern@[k], tag@[k]),
                    decreases n - i,
                {
                    if !pattern.components[i].eq(&tag.components[i]) {
                        proof {
                            assert(pattern@[i as int] == pattern.components@[i as int]@);
                            assert(tag@[i as int] == tag.components@[i as int]@);
                            assert(!crate::text::same_ignoring_case(pattern@[i as int], tag@[i as int]));
                        }
                        return false;
                    }
                    i = i + 1;
                }
                true
            },
        }
    }
}

/// Reads a language range, or gives `None` where the text is not one.
pub fn language_range(s: &str) -> (r: Option<LanguageRange>)
    ensures
        is_star(s@) ==> r matches Some(LanguageRange::Wildcard),
        !is_star(s@) ==> (r is Some <==> valid_tag(s@)),
        !is_star(s@) ==> (r matches Some(x) ==> x@ == Some(split_on(s@, '-'))),
{
    match LanguageRange::from_str(s) {
        Ok(x) => Some(x),
        Err(_) => None,
    }
}

impl Clone for LanguageRange {
    fn clone(&self) -> (r: Self)
        ensures
            r@ == self@,
    {
        match self {
            LanguageRange::Prefix(t) => LanguageRange::Prefix(t.clone()),
            LanguageRange::Wildcard => LanguageRange::Wildcard,
        }
    }
}

/// Equality of ranges: both wildcards, or prefixes with equal components.
pub open spec fn same_range(a: Option<Seq<Seq<char>>>, b: Option<Seq<Seq<char>>>) -> bool {
    match (a, b) {
        (None, None) => true,
        (Some(x), Some(y)) => same_components(x, y),
        _ => false,
    }
}

impl PartialEq for LanguageRange {
    fn eq(&self, other: &LanguageRange) -> (r: bool) {
        match (self, other) {
            (LanguageRange::Wildcard, LanguageRange::Wildcard) => true,
            (LanguageRange::Prefix(a), LanguageRange::Prefix(b)) => a.eq(b),
            _ => false,
        }
    }
}

impl vstd::std_specs::cmp::PartialEqSpecImpl for LanguageRange {
    open spec fn obeys_eq_spec() -> bool {
        true
    }

    open spec fn eq_spec(&self, other: &LanguageRange) -> bool {
        same_range(self@, other@)
    }
}

/// The wildcard matches every tag.
pub proof fn law_wildcard_matches_every_tag(tag: Seq<Seq<char>>)
    ensures
        range_matches(None, tag),
{
}

/// A tag, taken as a range, matches itself.
pub proof fn law_prefix_matches_itself(tag: Seq<Seq<char>>)
    ensures
        range_matches(Some(tag), tag),
{
}

/// A prefix longer than a tag never matches it.
pub proof fn law_longer_prefix_never_matches(pattern: Seq<Seq<char>>, tag: Seq<Seq<char>>)
    requires
        pattern.len() > tag.len(),
    ensures
        !range_matches(Some(pattern), tag),
{
}

} // verus!
