use vstd::prelude::*;

verus! {

/// A storage whose addressable length can be asked for.
///
/// The specification speaks of the storage's model (its view): `well_formed`
/// says which models are valid, and `shape_of` gives the number of
/// addressable units of a model.
pub trait Shape: View + Sized {
    spec fn well_formed(v: Self::V) -> bool;

    spec fn shape_of(v: Self::V) -> nat;

    fn shape(&self) -> (r: usize)
        requires
            Self::well_formed(self@),
        ensures
            r == Self::shape_of(self@),
    ;
}

impl<A> Shape for Vec<A> {
    open spec fn well_formed(v: Seq<A>) -> bool {
        true
    }

    open spec fn shape_of(v: Seq<A>) -> nat {
        v.len()
    }

    fn shape(&self) -> (r: usize) {
        self.len()
    }
}

} // verus!
