//! The two capability contracts shared by every identifier kind: a validity
//! check and a normalization to a canonical string form.

use vstd::prelude::*;

verus! {

/// Relates an optional owned string to an optional character-sequence model:
/// either both are absent, or both are present and the string's view is the
/// modelled sequence.
pub open spec fn option_view_eq(r: Option<String>, m: Option<Seq<char>>) -> bool {
    match (r, m) {
        (Option::Some(t), Option::Some(u)) => t@ == u,
        (Option::None, Option::None) => true,
        _ => false,
    }
}

/// An identifier that can be checked for structural and arithmetic validity.
pub trait Valid {
    /// What it means for this identifier to be valid.
    spec fn spec_valid(&self) -> bool;

    /// Whether the identifier is valid.
    fn valid(&self) -> (r: bool)
        ensures
            r == self.spec_valid(),
    ;
}

/// An identifier that has a canonical string form when it is valid.
pub trait Normalize: Valid {
    /// The canonical form, or `None` when the identifier is invalid.
    spec fn spec_normalize(&self) -> Option<Seq<char>>;

    /// The canonical string form, or `None` when the identifier is invalid.
    fn normalize(&self) -> (r: Option<String>)
        ensures
            option_view_eq(r, self.spec_normalize()),
    ;
}

} // verus!
