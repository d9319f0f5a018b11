use vstd::prelude::*;
use vstd::string::*;

use crate::error::AcceptError;
use crate::text::{is_digit, lemma_ascii_bytes};

verus! {

broadcast use is_ascii_spec_bytes;

/// The value of a decimal digit.
pub open spec fn digit_value(c: char) -> int {
    c as int - '0' as int
}

/// `digit [ "." digit{0,3} ]`.
pub open spec fn valid_qvalue_text(s: Seq<char>) -> bool {
    &&& s.len() >= 1
    &&& is_digit(s[0])
    &&& s.len() == 1 || (s[1] == '.' && s.len() <= 5 && forall|k: int|
        2 <= k < s.len() ==> is_digit(#[trigger] s[k]))
}

/// The digit at `k` after the point, or zero where it is not written.
pub open spec fn fraction_digit(s: Seq<char>, k: int) -> int {
    if k < s.len() {
        digit_value(s[k])
    } else {
        0
    }
}

/// The value of a well-formed quality text, in thousandths.
pub open spec fn qvalue_thousandths(s: Seq<char>) -> int {
    1000 * digit_value(s[0]) + 100 * fraction_digit(s, 2) + 10 * fraction_digit(s, 3)
        + fraction_digit(s, 4)
}

/// A quality value of RFC 2616: a weight from 0 to 1 with at most three
/// decimals, held exactly as a number of thousandths.
#[derive(Clone, Copy, Debug, PartialEq, Eq)]
pub struct QValue {
    thousandths: u16,
}

impl View for QValue {
    type V = int;

    closed spec fn view(&self) -> int {
        self.thousandths as int
    }
}

impl QValue {
    #[verifier::type_invariant]
    spec fn at_most_one(self) -> bool {
        self.thousandths <= 1000
    }

    /// The weight one, given to a range that names no quality.
    pub fn one() -> (r: QValue)
        ensures
            r@ == 1000,
    {
        QValue { thousandths: 1000 }
    }

    /// The weight in thousandths.
    pub fn thousandths(&self) -> (r: u16)
        ensures
            r as int == self@,
            r <= 1000,
    {
        proof {
            use_type_invariant(self);
        }
        self.thousandths
    }

    /// Reads `digit [ "." digit{0,3} ]`; a value above one is refused.
    pub fn from_str(s: &str) -> (r: Result<QValue, AcceptError>)
        ensures
            !valid_qvalue_text(s@) ==> r == Err::<QValue, AcceptError>(AcceptError::Grammar),
            valid_qvalue_text(s@) && qvalue_thousandths(s@) > 1000 ==> r == Err::<QValue, AcceptError>(AcceptError::Range),
            valid_qvalue_text(s@) && qvalue_thousandths(s@) <= 1000 ==> (r matches Ok(q) && q@ == qvalue_thousandths(s@)),
    {
        if !s.is_ascii() {
            proof {
                if valid_qvalue_text(s@) {
                    assert forall|i: int| 0 <= i < s@.len() implies '\0' <= #[trigger] s@[i] <= '\u{7f}' by {
                        if i >= 2 {
                            assert(is_digit(s@[i]));
                        }
                    }
                }
            }
            return Err(AcceptError::Grammar);
        }
        proof {
            lemma_ascii_bytes(s);
        }
        let bytes = s.as_bytes();
        let n = bytes.len();
        if n == 0 || n > 5 {
            return Err(AcceptError::Grammar);
        }
        proof {
            assert forall|k: int| 0 <= k < n implies bytes@[k] as int == #[trigger] s@[k] as int by {}
        }
        if !(48 <= bytes[0] && bytes[0] <= 57) {
            return Err(AcceptError::Grammar);
        }
        let mut value: u16 = (bytes[0] - 48) as u16 * 1000;
        if n >= 2 {
            if bytes[1] != 46 {
                return Err(AcceptError::Grammar);
            }
            let mut k: usize = 2;
            let mut scale: u16 = 100;
            while k < n
                invariant
                    2 <= k <= n <= 5,
                    n == s@.len(),
                    bytes@.len() == n,
                    bytes@ == s.spec_bytes(),
                    forall|j: int| 0 <= j < n ==> bytes@[j] as int == #[trigger] s@[j] as int,
                    is_digit(s@[0]),
                    s@[1] == '.',
                    forall|j: int| 2 <= j < k ==> is_digit(#[trigger] s@[j]),
                    k == 2 ==> scale == 100,
                    k == 3 ==> scale == 10,
                    k == 4 ==> scale == 1,
                    k == 5 ==> scale == 0,
                    value as int == 1000 * digit_value(s@[0]) + 100 * (if 2 < k { digit_value(s@[2]) } else { 0 })
                        + 10 * (if 3 < k { digit_value(s@[3]) } else { 0 }) + (if 4 < k { digit_value(s@[4]) } else { 0 }),
                decreases n - k,
            {
                let b = bytes[k];
                if !(48 <= b && b <= 57) {
                    return Err(AcceptError::Grammar);
                }
                value = value + (b - 48) as u16 * scale;
                scale = scale / 10;
                k = k + 1;
            }
        }
        if value > 1000 {
            return Err(AcceptError::Range);
        }
        Ok(QValue { thousandths: value })
    }
}

} // verus!
