use vstd::prelude::*;

verus! {

/// A move of some game: a small value that can be copied and compared.
pub trait Step: Copy + Sized {
    /// Structural equality of two steps.
    fn same(&self, other: &Self) -> (r: bool)
        ensures
            r == (*self == *other),
    ;
}

} // verus!
