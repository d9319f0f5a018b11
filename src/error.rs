use vstd::prelude::*;

verus! {

/// Why a piece of an `Accept-Language` value was refused.
#[derive(Clone, Copy, Debug, PartialEq, Eq, Structural)]
pub enum AcceptError {
    /// The text breaks the grammar of subtags, tags, ranges or quality values.
    Grammar,
    /// A quality value is well formed but greater than one.
    Range,
}

} // verus!
