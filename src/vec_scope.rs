use vstd::prelude::*;

use core::marker::PhantomData;

use crate::lens::{set_view_law, view_set_law, Accessor};
use crate::scope::{clamp_position, fits, Scope};
use crate::shape::Shape;

verus! {

/// A cursor over the elements of a vector. Its model is the elements' models
/// and the position.
pub struct VecScope<A> {
    pub vec: Vec<A>,
    pub pos: usize,
}

impl<A: View> View for VecScope<A> {
    type V = (Seq<A::V>, nat);

    open spec fn view(&self) -> (Seq<A::V>, nat) {
        (self.vec@.map_values(|x: A| x@), self.pos as nat)
    }
}

impl<A: View> VecScope<A> {
    /// A cursor at the first element; `None` when the vector is empty.
    pub fn with_vec(vec: Vec<A>) -> (r: Option<VecScope<A>>)
        ensures
            r is None <==> vec@.len() == 0,
            r matches Some(s) ==> s.vec == vec && s.pos == 0,
    {
        if vec.len() > 0 {
            Some(VecScope { vec, pos: 0 })
        } else {
            None
        }
    }

    /// The accessor for the element under the cursor.
    pub fn lens() -> (r: VecLens<A>) {
        VecLens { element: PhantomData }
    }
}

impl<A: View> Shape for VecScope<A> {
    open spec fn well_formed(v: (Seq<A::V>, nat)) -> bool {
        v.1 < v.0.len()
    }

    open spec fn shape_of(v: (Seq<A::V>, nat)) -> nat {
        v.0.len()
    }

    fn shape(&self) -> (r: usize) {
        self.vec.len()
    }
}

impl<A: View> Scope<usize> for VecScope<A> {
    open spec fn position(v: (Seq<A::V>, nat)) -> int {
        v.1 as int
    }

    open spec fn target(v: (Seq<A::V>, nat), index: usize) -> int {
        index as int
    }

    open spec fn moved(v: (Seq<A::V>, nat), p: int) -> (Seq<A::V>, nat) {
        (v.0, p as nat)
    }

    fn adjust(&mut self, pos: usize) {
        self.pos = clamp_position(pos as i128, self.vec.len());
    }
}

impl<A: View> Scope<isize> for VecScope<A> {
    open spec fn position(v: (Seq<A::V>, nat)) -> int {
        v.1 as int
    }

    open spec fn target(v: (Seq<A::V>, nat), offset: isize) -> int {
        v.1 + offset
    }

    open spec fn moved(v: (Seq<A::V>, nat), p: int) -> (Seq<A::V>, nat) {
        (v.0, p as nat)
    }

    fn adjust(&mut self, offset: isize) {
        self.pos = clamp_position(self.pos as i128 + offset as i128, self.vec.len());
    }
}

/// The element under the cursor.
pub fn get_vec_scope<A: Copy + View>(vec_scope: &VecScope<A>) -> (r: A)
    requires
        VecScope::<A>::well_formed(vec_scope@),
    ensures
        r == vec_scope.vec@[vec_scope.pos as int],
        r@ == vec_scope@.0[vec_scope@.1 as int],
{
    vec_scope.vec[vec_scope.pos]
}

/// Replaces the element under the cursor.
pub fn set_vec_scope<A: View>(vec_scope: &mut VecScope<A>, a: A)
    requires
        VecScope::<A>::well_formed(old(vec_scope)@),
    ensures
        final(vec_scope).vec@ == old(vec_scope).vec@.update(old(vec_scope).pos as int, a),
        final(vec_scope).pos == old(vec_scope).pos,
        final(vec_scope)@ == (old(vec_scope)@.0.update(old(vec_scope)@.1 as int, a@), old(vec_scope)@.1),
{
    let ghost old_vec = vec_scope.vec@;
    let pos = vec_scope.pos;
    vec_scope.vec.set(pos, a);
    proof {
        assert(vec_scope.vec@.map_values(|x: A| x@) =~= old_vec.map_values(|x: A| x@).update(
            pos as int,
            a@,
        ));
    }
}

/// The accessor for the element under a `VecScope`.
pub struct VecLens<A> {
    pub element: PhantomData<A>,
}

impl<A: Copy + View> Accessor<VecScope<A>, A> for VecLens<A> {
    open spec fn valid(&self, s: (Seq<A::V>, nat)) -> bool {
        VecScope::<A>::well_formed(s)
    }

    open spec fn get_spec(&self, s: (Seq<A::V>, nat)) -> A::V {
        s.0[s.1 as int]
    }

    open spec fn put_spec(&self, s: (Seq<A::V>, nat), a: A::V) -> (Seq<A::V>, nat) {
        (s.0.update(s.1 as int, a), s.1)
    }

    fn view(&self, s: &VecScope<A>) -> (r: A) {
        get_vec_scope(s)
    }

    fn set(&self, s: &mut VecScope<A>, a: A) {
        set_vec_scope(s, a)
    }
}

/// Reading the element under the cursor after writing it gives the value
/// written, and writing back what was read changes nothing.
pub proof fn lemma_vec_lens_round_trip<A: Copy + View>(l: VecLens<A>, s: (Seq<A::V>, nat), a: A::V)
    ensures
        set_view_law::<VecScope<A>, A, VecLens<A>>(l, s, a),
        view_set_law::<VecScope<A>, A, VecLens<A>>(l, s),
{
    assert(s.1 < s.0.len() ==> s.0.update(s.1 as int, s.0[s.1 as int]) =~= s.0);
}

/// The element accessor may run on every well-formed `VecScope`, and its
/// writes keep the cursor well-formed.
pub proof fn lemma_vec_lens_fits<A: Copy + View>(l: VecLens<A>)
    ensures
        fits::<VecScope<A>, A, VecLens<A>>(l),
{
}

} // verus!
