use vstd::prelude::*;
use vstd::string::*;

use crate::error::AcceptError;
use crate::text::{is_alnum, lemma_ascii_bytes, same_ignoring_case, folded, fold_byte};

verus! {

broadcast use is_ascii_spec_bytes;

/// One to eight ASCII letters and digits.
pub open spec fn valid_subtag(s: Seq<char>) -> bool {
    1 <= s.len() <= 8 && forall|i: int| 0 <= i < s.len() ==> is_alnum(#[trigger] s[i])
}

/// One component of a language tag, stored with the case it was written in.
/// Two subtags are equal when they differ at most in the case of letters.
#[derive(Debug)]
pub struct Subtag(pub String);

impl View for Subtag {
    type V = Seq<char>;

    open spec fn view(&self) -> Seq<char> {
        self.0@
    }
}

/// Whether the ASCII byte `b` is a letter or a digit.
pub fn is_alnum_byte(b: u8) -> (r: bool)
    ensures
        r == is_alnum(b as char),
{
    (97 <= b && b <= 122) || (65 <= b && b <= 90) || (48 <= b && b <= 57)
}

/// `b` with an upper-case ASCII letter lowered.
pub fn fold_ascii(b: u8) -> (r: u8)
    ensures
        r == fold_byte(b),
{
    if 65 <= b && b <= 90 {
        b + 32
    } else {
        b
    }
}

impl Subtag {
    /// Reads one subtag: one to eight ASCII letters and digits.
    pub fn from_str(s: &str) -> (r: Result<Subtag, AcceptError>)
        ensures
            r is Ok <==> valid_subtag(s@),
            r is Err ==> r == Err::<Subtag, AcceptError>(AcceptError::Grammar),
            r matches Ok(t) ==> t@ == s@,
    {
        if !s.is_ascii() {
            proof {
                if valid_subtag(s@) {
                    assert forall|i: int| 0 <= i < s@.len() implies '\0' <= #[trigger] s@[i] <= '\u{7f}' by {
                        assert(is_alnum(s@[i]));
                    }
                }
            }
            return Err(AcceptError::Grammar);
        }
        proof {
            lemma_ascii_bytes(s);
        }
        let bytes = s.as_bytes();
        let n = bytes.len();
        if n == 0 || n > 8 {
            return Err(AcceptError::Grammar);
        }
        let mut i: usize = 0;
        while i < n
            invariant
                n == s@.len(),
                bytes@ == s.spec_bytes(),
                s.spec_bytes().len() == s@.len(),
                forall|k: int| 0 <= k < s@.len() ==> s.spec_bytes()[k] as int == #[trigger] s@[k] as int,
                i <= n,
                forall|k: int| 0 <= k < i ==> is_alnum(#[trigger] s@[k]),
            decreases n - i,
        {
            if !is_alnum_byte(bytes[i]) {
                proof {
                    assert(s@[i as int] as int == bytes@[i as int] as int);
                    assert(!is_alnum(s@[i as int]));
                }
                return Err(AcceptError::Grammar);
            }
            proof {
                assert(s@[i as int] as int == bytes@[i as int] as int);
            }
            i = i + 1;
        }
        Ok(Subtag(s.to_owned()))
    }

    /// The text of the subtag, in the case it was written in.
    pub fn as_str(&self) -> (r: &str)
        ensures
            r@ == self@,
    {
        self.0.as_str()
    }
}

/// Reads one subtag, or gives `None` where the text is not one.
pub fn subtag(s: &str) -> (r: Option<Subtag>)
    ensures
        r is Some <==> valid_subtag(s@),
        r matches Some(t) ==> t@ == s@,
{
    match Subtag::from_str(s) {
        Ok(t) => Some(t),
        Err(_) => None,
    }
}

impl PartialEq for Subtag {
    fn eq(&self, other: &Subtag) -> (r: bool) {
        let a = self.0.as_str().as_bytes();
        let b = other.0.as_str().as_bytes();
        if a.len() != b.len() {
            proof {
                assert(folded(self@).len() != folded(other@).len());
            }
            return false;
        }
        let mut i: usize = 0;
        while i < a.len()
            invariant
                a@ == vstd::utf8::encode_utf8(self@),
                b@ == vstd::utf8::encode_utf8(other@),
                a@.len() == b@.len(),
                i <= a@.len(),
                forall|k: int| 0 <= k < i ==> fold_byte(#[trigger] a@[k]) == fold_byte(b@[k]),
            decreases a@.len() - i,
        {
            if fold_ascii(a[i]) != fold_ascii(b[i]) {
                proof {
                    assert(folded(self@)[i as int] != folded(other@)[i as int]);
                }
                return false;
            }
            i = i + 1;
        }
        proof {
            assert(folded(self@) =~= folded(other@));
        }
        true
    }
}

impl vstd::std_specs::cmp::PartialEqSpecImpl for Subtag {
    open spec fn obeys_eq_spec() -> bool {
        true
    }

    open spec fn eq_spec(&self, other: &Subtag) -> bool {
        same_ignoring_case(self@, other@)
    }
}

/// A valid subtag text reads as a subtag holding that very text, which
/// equals it up to case.
pub proof fn law_subtag_round_trip(s: Seq<char>)
    requires
        valid_subtag(s),
    ensures
        same_ignoring_case(s, s),
{
}

/// Empty text, text of nine or more characters, and text holding a hyphen
/// or any other character that is neither a letter nor a digit is no
/// subtag.
pub proof fn law_subtag_rejects(s: Seq<char>)
    requires
        s.len() == 0 || s.len() > 8 || exists|i: int| 0 <= i < s.len() && !is_alnum(#[trigger] s[i]),
    ensures
        !valid_subtag(s),
{
}

} // verus!
