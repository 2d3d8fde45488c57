//! Small helper types.

use vstd::prelude::*;
use vstd::std_specs::cmp::PartialEqSpec;
use vstd::std_specs::cmp::PartialEqSpecImpl;

verus! {

/// A pair whose two components may be given in either order: two pairs are
/// equal if they hold equal components, in the same order or swapped.
#[derive(Debug)]
pub struct UnorderedPair<T>(pub T, pub T);

impl<T: PartialEq> PartialEq for UnorderedPair<T> {
    /// Compares component by component, straight and crosswise.
    fn eq(&self, other: &Self) -> (equal: bool) {
        (self.0 == other.0 && self.1 == other.1) || (self.0 == other.1 && self.1 == other.0)
    }
}

impl<T: PartialEq> PartialEqSpecImpl for UnorderedPair<T> {
    open spec fn obeys_eq_spec() -> bool {
        T::obeys_eq_spec()
    }

    open spec fn eq_spec(&self, other: &Self) -> bool {
        ||| self.0.eq_spec(&other.0) && self.1.eq_spec(&other.1)
        ||| self.0.eq_spec(&other.1) && self.1.eq_spec(&other.0)
    }
}

} // verus!
