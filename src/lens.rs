use vstd::prelude::*;

use core::marker::PhantomData;

verus! {

/// A read/write pair for one value of type `A` inside a subject of type `S`.
///
/// The specification speaks of models (views): `valid` says on which
/// subjects the accessor may be used, `get_spec` what it reads there, and
/// `put_spec` what the subject becomes when a value is written.
pub trait Accessor<S: View, A: View> {
    spec fn valid(&self, s: S::V) -> bool;

    spec fn get_spec(&self, s: S::V) -> A::V;

    spec fn put_spec(&self, s: S::V, a: A::V) -> S::V;

    fn view(&self, s: &S) -> (r: A)
        requires
            self.valid(s@),
        ensures
            r@ == self.get_spec(s@),
    ;

    fn set(&self, s: &mut S, a: A)
        requires
            self.valid(old(s)@),
        ensures
            final(s)@ == self.put_spec(old(s)@, a@),
    ;
}

/// Writing back what was read leaves the subject as it was.
pub open spec fn view_set_law<S: View, A: View, L: Accessor<S, A>>(l: L, s: S::V) -> bool {
    l.valid(s) ==> l.put_spec(s, l.get_spec(s)) == s
}

/// Reading after a write gives the value written, and the subject stays
/// usable.
pub open spec fn set_view_law<S: View, A: View, L: Accessor<S, A>>(l: L, s: S::V, a: A::V) -> bool {
    l.valid(s) ==> {
        &&& l.valid(l.put_spec(s, a))
        &&& l.get_spec(l.put_spec(s, a)) == a
    }
}

/// An accessor made of two functions: `view` reads the value out of a
/// subject, and `set` gives the subject with a new value written into it.
pub struct Lens<G, P> {
    pub view: G,
    pub set: P,
}

/// The accessor made of `getter` and `setter`.
pub fn lens<G, P>(getter: G, setter: P) -> (r: Lens<G, P>)
    ensures
        r.view == getter,
        r.set == setter,
{
    Lens { view: getter, set: setter }
}

/// `y` is a result of `g` on a subject with model `s`.
pub open spec fn reads_to<S: View, A, G: Fn(&S) -> A>(g: G, s: S::V, y: A) -> bool {
    exists|x: S| x@ == s && #[trigger] g.ensures((&x,), y)
}

/// `y` is a result of `p` on a subject with model `s` and a value with model
/// `a`.
pub open spec fn writes_to<S: View, A: View, P: Fn(&S, A) -> S>(p: P, s: S::V, a: A::V, y: S) -> bool {
    exists|x: S, b: A| x@ == s && b@ == a && #[trigger] p.ensures((&x, b), y)
}

impl<S: View, A: View, G: Fn(&S) -> A, P: Fn(&S, A) -> S> Accessor<S, A> for Lens<G, P> {
    /// The two functions may be called on every subject with model `s`, and
    /// their results depend on the models of their arguments alone.
    open spec fn valid(&self, s: S::V) -> bool {
        &&& forall|x: S| x@ == s ==> #[trigger] self.view.requires((&x,))
        &&& forall|x: S, a: A| x@ == s ==> #[trigger] self.set.requires((&x, a))
        &&& forall|x1: S, x2: S, r1: A, r2: A|
            #![trigger self.view.ensures((&x1,), r1), self.view.ensures((&x2,), r2)]
            x1@ == s && x2@ == s && self.view.ensures((&x1,), r1) && self.view.ensures((&x2,), r2)
                ==> r1@ == r2@
        &&& forall|x1: S, x2: S, a1: A, a2: A, t1: S, t2: S|
            #![trigger self.set.ensures((&x1, a1), t1), self.set.ensures((&x2, a2), t2)]
            x1@ == s && x2@ == s && a1@ == a2@ && self.set.ensures((&x1, a1), t1)
                && self.set.ensures((&x2, a2), t2) ==> t1@ == t2@
    }

    open spec fn get_spec(&self, s: S::V) -> A::V {
        (choose|y: A| #[trigger] reads_to(self.view, s, y))@
    }

    open spec fn put_spec(&self, s: S::V, a: A::V) -> S::V {
        (choose|y: S| #[trigger] writes_to(self.set, s, a, y))@
    }

    fn view(&self, s: &S) -> (r: A) {
        let r = (self.view)(s);
        proof {
            assert(reads_to(self.view, s@, r)) by {
                assert(self.view.ensures((s,), r));
            }
        }
        r
    }

    fn set(&self, s: &mut S, a: A) {
        let ghost av = a@;
        let ghost sv = s@;
        let t = (self.set)(&*s, a);
        proof {
            assert(writes_to(self.set, sv, av, t));
        }
        *s = t;
    }
}

/// The accessor that reads and writes the value that `rhs` reaches inside
/// the value that `lhs` reaches.
pub struct Composed<L1, L2, A> {
    pub lhs: L1,
    pub rhs: L2,
    pub mid: PhantomData<A>,
}

/// `rhs` seen through `lhs`.
pub fn compose<L1, L2, A>(lhs: L1, rhs: L2) -> (r: Composed<L1, L2, A>)
    ensures
        r.lhs == lhs,
        r.rhs == rhs,
{
    Composed { lhs, rhs, mid: PhantomData }
}

impl<S: View, A: View, B: View, L1: Accessor<S, A>, L2: Accessor<A, B>> Accessor<S, B> for Composed<
    L1,
    L2,
    A,
> {
    open spec fn valid(&self, s: S::V) -> bool {
        self.lhs.valid(s) && self.rhs.valid(self.lhs.get_spec(s))
    }

    open spec fn get_spec(&self, s: S::V) -> B::V {
        self.rhs.get_spec(self.lhs.get_spec(s))
    }

    open spec fn put_spec(&self, s: S::V, b: B::V) -> S::V {
        self.lhs.put_spec(s, self.rhs.put_spec(self.lhs.get_spec(s), b))
    }

    fn view(&self, s: &S) -> (r: B) {
        let a = self.lhs.view(s);
        self.rhs.view(&a)
    }

    fn set(&self, s: &mut S, b: B) {
        let mut a = self.lhs.view(s);
        self.rhs.set(&mut a, b);
        self.lhs.set(s, a);
    }
}

/// A composed accessor writes back what it reads without changing the
/// subject, when each of its two parts does so on the values involved.
pub proof fn lemma_compose_view_set<
    S: View,
    A: View,
    B: View,
    L1: Accessor<S, A>,
    L2: Accessor<A, B>,
>(c: Composed<L1, L2, A>, s: S::V)
    requires
        view_set_law(c.lhs, s),
        view_set_law(c.rhs, c.lhs.get_spec(s)),
    ensures
        view_set_law(c, s),
{
}

/// A composed accessor reads back what was written through it, when each of
/// its two parts does so on the values involved.
pub proof fn lemma_compose_set_view<
    S: View,
    A: View,
    B: View,
    L1: Accessor<S, A>,
    L2: Accessor<A, B>,
>(c: Composed<L1, L2, A>, s: S::V, b: B::V)
    requires
        set_view_law(c.rhs, c.lhs.get_spec(s), b),
        set_view_law(c.lhs, s, c.rhs.put_spec(c.lhs.get_spec(s), b)),
    ensures
        set_view_law(c, s, b),
{
}

} // verus!
