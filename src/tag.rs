use vstd::prelude::*;
use vstd::string::*;
use vstd::utf8::is_ascii_chars;

use crate::error::AcceptError;
use crate::subtag::{valid_subtag, Subtag};
use crate::text::{all_alpha, is_alnum, is_alpha, lemma_split_chars, lemma_split_len, same_ignoring_case, split_ascii, split_on, views};

verus! {

/// A first subtag: one to eight ASCII letters.
pub open spec fn valid_primary(s: Seq<char>) -> bool {
    valid_subtag(s) && forall|i: int| 0 <= i < s.len() ==> is_alpha(#[trigger] s[i])
}

/// `ALPHA{1,8}(-ALNUM{1,8})*`: the pieces between hyphens are subtags, and
/// the first of them is made of letters only.
pub open spec fn valid_tag(s: Seq<char>) -> bool {
    &&& valid_primary(split_on(s, '-')[0])
    &&& forall|i: int| 0 <= i < split_on(s, '-').len() ==> valid_subtag(#[trigger] split_on(s, '-')[i])
}

/// A valid tag is ASCII text.
pub proof fn lemma_tag_ascii(s: Seq<char>)
    requires
        valid_tag(s),
    ensures
        is_ascii_chars(s),
{
    let p = split_on(s, '-');
    assert forall|i: int, j: int| 0 <= i < p.len() && 0 <= j < p[i].len() implies is_alnum(#[trigger] p[i][j]) by {
        assert(valid_subtag(p[i]));
    }
    lemma_split_chars(s, '-', |c: char| is_alnum(c));
    assert forall|k: int| 0 <= k < s.len() implies '\0' <= #[trigger] s[k] <= '\u{7f}' by {
        assert(s[k] == '-' || is_alnum(s[k]));
    }
}

/// Component-wise equality up to case, in order.
pub open spec fn same_components(a: Seq<Seq<char>>, b: Seq<Seq<char>>) -> bool {
    &&& a.len() == b.len()
    &&& forall|i: int| 0 <= i < a.len() ==> same_ignoring_case(#[trigger] a[i], b[i])
}

/// Whether `pattern` is a prefix of `tag`, whole components at a time.
pub open spec fn is_component_prefix(pattern: Seq<Seq<char>>, tag: Seq<Seq<char>>) -> bool {
    &&& pattern.len() <= tag.len()
    &&& forall|i: int| 0 <= i < pattern.len() ==> same_ignoring_case(#[trigger] pattern[i], tag[i])
}

/// Whether a range (`None` for the wildcard) matches a tag.
pub open spec fn range_matches(range: Option<Seq<Seq<char>>>, tag: Seq<Seq<char>>) -> bool {
    match range {
        None => true,
        Some(pattern) => is_component_prefix(pattern, tag),
    }
}

impl Clone for Subtag {
    fn clone(&self) -> (r: Self)
        ensures
            r@ == self@,
    {
        Subtag(self.0.clone())
    }
}

/// A language tag of RFC 1766: subtags joined by hyphens, such as `fr-FR`.
#[derive(Debug)]
pub struct LanguageTag {
    pub components: Vec<Subtag>,
}

impl View for LanguageTag {
    type V = Seq<Seq<char>>;

    open spec fn view(&self) -> Seq<Seq<char>> {
        self.components@.map_values(|t: Subtag| t@)
    }
}

impl LanguageTag {
    /// Reads a tag of the form `ALPHA{1,8}(-ALNUM{1,8})*`.
    pub fn from_str(s: &str) -> (r: Result<LanguageTag, AcceptError>)
        ensures
            r is Ok <==> valid_tag(s@),
            r is Err ==> r == Err::<LanguageTag, AcceptError>(AcceptError::Grammar),
            r matches Ok(t) ==> t@ == split_on(s@, '-'),
    {
        if !s.is_ascii() {
            proof {
                if valid_tag(s@) {
                    lemma_tag_ascii(s@);
                }
            }
            return Err(AcceptError::Grammar);
        }
        let pieces = split_ascii(s, '-');
        proof {
            lemma_split_len(s@, '-');
        }
        let ghost p = split_on(s@, '-');
        let mut components: Vec<Subtag> = Vec::new();
        let mut i: usize = 0;
        while i < pieces.len()
            invariant
                views(pieces@) == p,
                p == split_on(s@, '-'),
                p.len() >= 1,
                is_ascii_chars(s@),
                i <= p.len(),
                components@.map_values(|t: Subtag| t@) == p.take(i as int),
                forall|k: int| 0 <= k < i ==> valid_subtag(#[trigger] p[k]),
                i > 0 ==> valid_primary(p[0]),
            decreases p.len() - i,
        {
            let piece = pieces[i].as_str();
            proof {
                assert(piece@ == p[i as int]);
            }
            if i == 0 && !all_alpha(piece) {
                return Err(AcceptError::Grammar);
            }
            match Subtag::from_str(piece) {
                Ok(t) => {
                    let ghost before = components@;
                    components.push(t);
                    proof {
                        assert(components@.map_values(|t: Subtag| t@) =~= before.map_values(|t: Subtag| t@).push(p[i as int]));
                        assert(p.take(i as int + 1) =~= p.take(i as int).push(p[i as int]));
                    }
                },
                Err(e) => {
                    return Err(e);
                },
            }
            i = i + 1;
        }
        proof {
            assert(p.take(p.len() as int) =~= p);
        }
        Ok(LanguageTag { components })
    }
}

/// Reads a language tag, or gives `None` where the text is not one.
pub fn language_tag(s: &str) -> (r: Option<LanguageTag>)
    ensures
        r is Some <==> valid_tag(s@),
        r matches Some(t) ==> t@ == split_on(s@, '-'),
{
    match LanguageTag::from_str(s) {
        Ok(t) => Some(t),
        Err(_) => None,
    }
}

impl Clone for LanguageTag {
    fn clone(&self) -> (r: Self)
        ensures
            r@ == self@,
    {
        let mut components: Vec<Subtag> = Vec::new();
        let mut i: usize = 0;
        while i < self.components.len()
            invariant
                i <= self@.len(),
                self@.len() == self.components@.len(),
                components@.map_values(|t: Subtag| t@) == self@.take(i as int),
            decreases self@.len() - i,
        {
            let ghost before = components@;
            components.push(self.components[i].clone());
            proof {
                assert(components@.map_values(|t: Subtag| t@) =~= before.map_values(|t: Subtag| t@).push(self@[i as int]));
                assert(self@.take(i as int + 1) =~= self@.take(i as int).push(self@[i as int]));
            }
            i = i + 1;
        }
        proof {
            assert(self@.take(self@.len() as int) =~= self@);
        }
        LanguageTag { components }
    }
}

impl PartialEq for LanguageTag {
    fn eq(&self, other: &LanguageTag) -> (r: bool) {
        let n = self.components.len();
        if n != other.components.len() {
            return false;
        }
        let mut i: usize = 0;
        while i < n
            invariant
                n == self@.len(),
                n == other@.len(),
                i <= n,
                forall|k: int| 0 <= k < i ==> same_ignoring_case(#[trigger] self@[k], other@[k]),
            decreases n - i,
        {
            if !self.components[i].eq(&other.components[i]) {
                proof {
                    assert(self@[i as int] == self.components@[i as int]@);
                    assert(other@[i as int] == other.components@[i as int]@);
                }
                return false;
            }
            i = i + 1;
        }
        true
    }
}

impl vstd::std_specs::cmp::PartialEqSpecImpl for LanguageTag {
    open spec fn obeys_eq_spec() -> bool {
        true
    }

    open spec fn eq_spec(&self, other: &LanguageTag) -> bool {
        same_components(self@, other@)
    }
}

} // verus!
