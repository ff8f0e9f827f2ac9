use vstd::prelude::*;

use core::marker::PhantomData;

use crate::indices::Indices;
use crate::lens::Accessor;
use crate::merge::{lemma_pick, lemma_total_update, merge_order, merged, pick, total};
use crate::shape::Shape;

verus! {

/// `x` brought into `[lo, hi]`.
pub open spec fn clamp_spec(x: int, lo: int, hi: int) -> int {
    if x < lo {
        lo
    } else if x > hi {
        hi
    } else {
        x
    }
}

/// A movable position inside a storage.
///
/// `adjust` takes an index of type `I`: `target` says which position the
/// index asks for (an absolute position, or one relative to the current
/// position), and the cursor moves there, clamped to `[0, shape - 1]`.
/// Only the position changes: `moved` gives the model with a new position.
pub trait Scope<I>: Shape {
    spec fn position(v: Self::V) -> int;

    spec fn target(v: Self::V, index: I) -> int;

    spec fn moved(v: Self::V, p: int) -> Self::V;

    fn adjust(&mut self, index: I)
        requires
            Self::well_formed(old(self)@),
        ensures
            final(self)@ == Self::moved(
                old(self)@,
                clamp_spec(Self::target(old(self)@, index), 0, Self::shape_of(old(self)@) - 1),
            ),
            Self::well_formed(final(self)@),
            Self::shape_of(final(self)@) == Self::shape_of(old(self)@),
            0 <= Self::position(final(self)@) < Self::shape_of(final(self)@),
    ;
}

/// Relies on num::clamp: the input when it lies in `[min, max]`, else the
/// bound it passed.
#[verifier::external_body]
fn clamp_wide(input: i128, min: i128, max: i128) -> (r: i128)
    requires
        min <= max,
    ensures
        r == clamp_spec(input as int, min as int, max as int),
{
    num::clamp(input, min, max)
}

/// The position that a request for `target` gives in a storage of `shape`
/// units.
pub fn clamp_position(target: i128, shape: usize) -> (r: usize)
    requires
        shape >= 1,
    ensures
        r == clamp_spec(target as int, 0, shape - 1),
        r < shape,
{
    let hi = (shape - 1) as i128;
    clamp_wide(target, 0, hi) as usize
}

/// The model of a cursor after `adjust(index)`.
pub open spec fn adjusted<I, D: Scope<I>>(v: D::V, index: I) -> D::V {
    D::moved(v, clamp_spec(D::target(v, index), 0, D::shape_of(v) - 1))
}

/// `f` may be called on every value, and the model of its result depends on
/// the model of its argument alone.
pub open spec fn is_update<A: View, F: Fn(A) -> A>(f: F) -> bool {
    &&& forall|a: A| #[trigger] f.requires((a,))
    &&& forall|a1: A, a2: A, r1: A, r2: A|
        #![trigger f.ensures((a1,), r1), f.ensures((a2,), r2)]
        a1@ == a2@ && f.ensures((a1,), r1) && f.ensures((a2,), r2) ==> r1@ == r2@
}

/// `r` is a result of `f` on a value with model `a`.
pub open spec fn updates_to<A: View, F: Fn(A) -> A>(f: F, a: A::V, r: A) -> bool {
    exists|x: A| x@ == a && #[trigger] f.ensures((x,), r)
}

/// The model of what `f` makes of a value with model `a`.
pub open spec fn update_of<A: View, F: Fn(A) -> A>(f: F, a: A::V) -> A::V {
    (choose|r: A| #[trigger] updates_to(f, a, r))@
}

/// The accessor suits the cursor: it may be used on every well-formed
/// cursor, and a write keeps the cursor well-formed, with its shape.
pub open spec fn fits<D: Shape, A: View, O: Accessor<D, A>>(lens: O) -> bool {
    &&& forall|v: D::V| D::well_formed(v) ==> #[trigger] lens.valid(v)
    &&& forall|v: D::V, a: A::V|
        D::well_formed(v) ==> D::well_formed(#[trigger] lens.put_spec(v, a)) && D::shape_of(
            lens.put_spec(v, a),
        ) == D::shape_of(v)
}

/// An update function bound to an accessor: reading the value the accessor
/// reaches, applying `act`, and writing the result back.
pub struct Action<F, O, D, A> {
    pub act: F,
    pub lens: O,
    pub a: PhantomData<A>,
    pub d: PhantomData<D>,
}

impl<F: Fn(A) -> A, O: Accessor<D, A>, D: View, A: View> Action<F, O, D, A> {
    /// The model of the subject after the action.
    pub open spec fn acted(&self, v: D::V) -> D::V {
        self.lens.put_spec(v, update_of(self.act, self.lens.get_spec(v)))
    }

    /// Reads the value under the accessor, applies the update, writes the
    /// result back.
    pub fn act(&self, d: &mut D)
        requires
            is_update(self.act),
            self.lens.valid(old(d)@),
        ensures
            final(d)@ == self.acted(old(d)@),
    {
        let val = self.lens.view(d);
        let val_f = (self.act)(val);
        proof {
            let a = self.lens.get_spec(d@);
            assert(updates_to(self.act, a, val_f));
            let c = choose|r: A| #[trigger] updates_to(self.act, a, r);
            let x = choose|x: A| x@ == a && #[trigger] self.act.ensures((x,), c);
            assert(self.act.ensures((x,), c) && self.act.ensures((val,), val_f));
        }
        self.lens.set(d, val_f);
    }
}

impl<F: Fn(A) -> A, O: Accessor<D, A>, D: Scope<usize>, A: View> Action<F, O, D, A> {
    /// The action may run on every well-formed cursor.
    pub open spec fn ready(&self) -> bool {
        is_update(self.act) && fits(self.lens)
    }

    /// The model of the cursor after moving to `i` and acting there.
    pub open spec fn visited(&self, v: D::V, i: usize) -> D::V {
        self.acted(adjusted::<usize, D>(v, i))
    }

    /// The model of the cursor after visiting each of `idx` in turn.
    pub open spec fn visited_all(&self, v: D::V, idx: Seq<usize>) -> D::V
        decreases idx.len(),
    {
        if idx.len() == 0 {
            v
        } else {
            self.visited_all(self.visited(v, idx[0]), idx.drop_first())
        }
    }

    /// Moves to `i` and acts there.
    fn visit(&self, d: &mut D, i: usize)
        requires
            self.ready(),
            D::well_formed(old(d)@),
        ensures
            final(d)@ == self.visited(old(d)@, i),
            D::well_formed(final(d)@),
            D::shape_of(final(d)@) == D::shape_of(old(d)@),
    {
        d.adjust(i);
        self.act(d);
    }

    /// Visits each of `idx` in turn.
    fn visit_all<Ix: Indices>(&self, d: &mut D, idx: &Ix)
        requires
            self.ready(),
            D::well_formed(old(d)@),
        ensures
            final(d)@ == self.visited_all(old(d)@, idx.positions()),
            D::well_formed(final(d)@),
    {
        let ghost all = idx.positions();
        let ghost goal = self.visited_all(d@, all);
        let n = idx.count();
        let mut k: usize = 0;
        proof {
            assert(all.skip(0) =~= all);
        }
        while k < n
            invariant
                k <= n == all.len(),
                all == idx.positions(),
                self.ready(),
                D::well_formed(d@),
                self.visited_all(d@, all.skip(k as int)) == goal,
            decreases n - k,
        {
            proof {
                assert(all.skip(k as int).drop_first() =~= all.skip(k + 1));
            }
            let i = idx.at(k);
            self.visit(d, i);
            k = k + 1;
        }
        proof {
            assert(all.skip(k as int) =~= Seq::<usize>::empty());
        }
    }
}

/// An action together with the positions, in order, at which it is to be
/// applied.
pub struct Transform<F, O, D, A, Ix> {
    pub action: Action<F, O, D, A>,
    pub indices: Ix,
}

impl<F: Fn(A) -> A, O: Accessor<D, A>, D: Scope<usize>, A: View, Ix: Indices> Transform<
    F,
    O,
    D,
    A,
    Ix,
> {
    /// For each index in order: move the cursor there, read the value,
    /// apply the update, write the result back.
    pub fn transform(&self, d: &mut D)
        requires
            self.action.ready(),
            D::well_formed(old(d)@),
        ensures
            final(d)@ == self.action.visited_all(old(d)@, self.indices.positions()),
            D::well_formed(final(d)@),
    {
        self.action.visit_all(d, &self.indices)
    }

    /// The transform that applies `f` through `lens` at each of `indices`.
    pub fn make_transform(lens: O, indices: Ix, f: F) -> (r: Transform<F, O, D, A, Ix>)
        ensures
            r.action.act == f,
            r.action.lens == lens,
            r.indices == indices,
    {
        Transform { action: Action { act: f, lens, d: PhantomData, a: PhantomData }, indices }
    }
}

/// The model of the cursor after the visits of `sched`, in order: each is a
/// position and the number of the action that runs there (`0` for `t1`,
/// any other for `t2`).
pub open spec fn run_both<F: Fn(A) -> A, G: Fn(A) -> A, O: Accessor<D, A>, D: Scope<usize>, A: View>(
    t1: Action<F, O, D, A>,
    t2: Action<G, O, D, A>,
    v: D::V,
    sched: Seq<(usize, nat)>,
) -> D::V
    decreases sched.len(),
{
    if sched.len() == 0 {
        v
    } else {
        let next = if sched[0].1 == 0 {
            t1.visited(v, sched[0].0)
        } else {
            t2.visited(v, sched[0].0)
        };
        run_both(t1, t2, next, sched.drop_first())
    }
}

/// The model of the cursor after the visits of `sched`, in order: each is a
/// position and the number of the transform whose action runs there.
pub open spec fn run_many<
    F: Fn(A) -> A,
    O: Accessor<D, A>,
    D: Scope<usize>,
    A: View,
    Ix: Indices,
>(
    ts: Seq<Transform<F, O, D, A, Ix>>,
    v: D::V,
    sched: Seq<(usize, nat)>,
) -> D::V
    decreases sched.len(),
{
    if sched.len() == 0 {
        v
    } else {
        run_many(ts, ts[sched[0].1 as int].action.visited(v, sched[0].0), sched.drop_first())
    }
}

/// The index sequences of the transforms.
pub open spec fn indices_of<F, O, D, A, Ix: Indices>(ts: Seq<Transform<F, O, D, A, Ix>>) -> Seq<Seq<usize>> {
    ts.map_values(|t: Transform<F, O, D, A, Ix>| t.indices.positions())
}

/// The two sequences that remain to be merged.
spec fn rest_of_two(a: Seq<usize>, b: Seq<usize>, p1: int, p2: int) -> Seq<Seq<usize>> {
    seq![a.skip(p1), b.skip(p2)]
}

/// Applies two transforms to one cursor in a single pass, in the order of
/// their positions: at each step the transform whose next position is
/// smaller acts; on equal positions `first` acts before `second`. When one
/// sequence is used up, the rest of the other follows.
pub fn apply_both<
    F: Fn(A) -> A,
    G: Fn(A) -> A,
    O: Accessor<D, A>,
    D: Scope<usize>,
    A: View,
    Ix: Indices,
>(
    first: &Transform<F, O, D, A, Ix>,
    second: &Transform<G, O, D, A, Ix>,
    d: &mut D,
)
    requires
        first.action.ready(),
        second.action.ready(),
        D::well_formed(old(d)@),
    ensures
        final(d)@ == run_both(
            first.action,
            second.action,
            old(d)@,
            merge_order(seq![first.indices.positions(), second.indices.positions()]),
        ),
        D::well_formed(final(d)@),
{
    let ghost a = first.indices.positions();
    let ghost b = second.indices.positions();
    let ghost goal = run_both(first.action, second.action, d@, merge_order(seq![a, b]));
    let n1 = first.indices.count();
    let n2 = second.indices.count();
    let mut p1: usize = 0;
    let mut p2: usize = 0;
    proof {
        let s0 = seq![a, b];
        reveal_with_fuel(total, 3);
        assert(s0.drop_last() =~= seq![a]);
        assert(seq![a].drop_last() =~= Seq::<Seq<usize>>::empty());
        assert(total(s0) == n1 + n2);
        assert(a.skip(0) =~= a);
        assert(b.skip(0) =~= b);
        assert(rest_of_two(a, b, 0, 0) =~= s0);
    }
    while p1 < n1 || p2 < n2
        invariant
            p1 <= n1 == a.len(),
            p2 <= n2 == b.len(),
            a == first.indices.positions(),
            b == second.indices.positions(),
            first.action.ready(),
            second.action.ready(),
            D::well_formed(d@),
            run_both(
                first.action,
                second.action,
                d@,
                merged(rest_of_two(a, b, p1 as int, p2 as int), ((n1 - p1) + (n2 - p2)) as nat),
            ) == goal,
        decreases (n1 - p1) + (n2 - p2),
    {
        let ghost rest = rest_of_two(a, b, p1 as int, p2 as int);
        let ghost fuel = ((n1 - p1) + (n2 - p2)) as nat;
        proof {
            reveal_with_fuel(pick, 3);
        }
        if p1 < n1 && (p2 >= n2 || first.indices.at(p1) <= second.indices.at(p2)) {
            proof {
                assert(pick(rest, 2) == Some(0nat));
                assert(a.skip(p1 as int).drop_first() =~= a.skip(p1 + 1));
                assert(rest.update(0, rest[0].drop_first()) =~= rest_of_two(
                    a,
                    b,
                    p1 + 1,
                    p2 as int,
                ));
                let m = merged(rest, fuel);
                let tail = merged(rest.update(0, rest[0].drop_first()), (fuel - 1) as nat);
                assert(m == seq![(rest[0][0], 0nat)] + tail);
                assert(m.drop_first() =~= tail);
            }
            first.action.visit(d, first.indices.at(p1));
            p1 = p1 + 1;
        } else {
            proof {
                assert(pick(rest, 2) == Some(1nat));
                assert(b.skip(p2 as int).drop_first() =~= b.skip(p2 + 1));
                assert(rest.update(1, rest[1].drop_first()) =~= rest_of_two(
                    a,
                    b,
                    p1 as int,
                    p2 + 1,
                ));
                let m = merged(rest, fuel);
                let tail = merged(rest.update(1, rest[1].drop_first()), (fuel - 1) as nat);
                assert(m == seq![(rest[1][0], 1nat)] + tail);
                assert(m.drop_first() =~= tail);
            }
            second.action.visit(d, second.indices.at(p2));
            p2 = p2 + 1;
        }
    }
    proof {
        let rest = rest_of_two(a, b, p1 as int, p2 as int);
        reveal_with_fuel(pick, 3);
        assert(pick(rest, 2) is None);
        assert(merged(rest, 0) =~= Seq::<(usize, nat)>::empty());
        assert(run_both(first.action, second.action, d@, Seq::<(usize, nat)>::empty()) == d@);
    }
}

/// The sequences of `seqs` with the first `next[t]` elements of each taken
/// off.
spec fn rest_of_many(seqs: Seq<Seq<usize>>, next: Seq<usize>) -> Seq<Seq<usize>> {
    Seq::new(seqs.len(), |t: int| seqs[t].skip(next[t] as int))
}

/// Applies several transforms to one cursor in a single pass, in the order
/// of their positions: at each step the transform whose next position is
/// smallest acts, the earliest in `transforms` first on equal positions.
pub fn apply_many<
    F: Fn(A) -> A,
    O: Accessor<D, A>,
    D: Scope<usize>,
    A: View,
    Ix: Indices,
>(
    transforms: Vec<Transform<F, O, D, A, Ix>>,
    d: &mut D,
)
    requires
        forall|t: int| 0 <= t < transforms@.len() ==> (#[trigger] transforms@[t]).action.ready(),
        D::well_formed(old(d)@),
    ensures
        final(d)@ == run_many(transforms@, old(d)@, merge_order(indices_of(transforms@))),
        D::well_formed(final(d)@),
{
    let ghost seqs = indices_of(transforms@);
    let ghost goal = run_many(transforms@, d@, merge_order(seqs));
    let k = transforms.len();
    let mut next: Vec<usize> = Vec::new();
    while next.len() < k
        invariant
            next@.len() <= k,
            forall|t: int| 0 <= t < next@.len() ==> next@[t] == 0,
        decreases k - next@.len(),
    {
        next.push(0);
    }
    proof {
        assert(rest_of_many(seqs, next@) =~= seqs) by {
            assert forall|t: int| 0 <= t < seqs.len() implies #[trigger] rest_of_many(
                seqs,
                next@,
            )[t] == seqs[t] by {
                assert(seqs[t].skip(0) =~= seqs[t]);
            }
        }
    }
    let mut done = false;
    while !done
        invariant
            k == transforms@.len() == seqs.len() == next@.len(),
            seqs == indices_of(transforms@),
            forall|t: int| 0 <= t < k ==> (#[trigger] transforms@[t]).action.ready(),
            forall|t: int| 0 <= t < k ==> #[trigger] next@[t] <= seqs[t].len(),
            D::well_formed(d@),
            run_many(
                transforms@,
                d@,
                merged(rest_of_many(seqs, next@), total(rest_of_many(seqs, next@))),
            ) == goal,
            done ==> pick(rest_of_many(seqs, next@), k as nat) is None,
        decreases total(rest_of_many(seqs, next@)) + (if done {
            0nat
        } else {
            1nat
        }),
    {
        let ghost rest = rest_of_many(seqs, next@);
        let mut found = false;
        let mut best: usize = 0;
        let mut j: usize = 0;
        while j < k
            invariant
                j <= k,
                k == transforms@.len() == seqs.len() == next@.len(),
                seqs == indices_of(transforms@),
                rest == rest_of_many(seqs, next@),
                forall|t: int| 0 <= t < k ==> #[trigger] next@[t] <= seqs[t].len(),
                found ==> best < j,
                best <= j,
                pick(rest, j as nat) == (if found {
                    Some(best as nat)
                } else {
                    None
                }),
            decreases k - j,
        {
            proof {
                lemma_pick(rest, j as nat);
                assert(rest[j as int] == seqs[j as int].skip(next@[j as int] as int));
                assert(rest[best as int] == seqs[best as int].skip(next@[best as int] as int));
            }
            assert(seqs[j as int] == transforms@[j as int].indices.positions());
            assert(seqs[best as int] == transforms@[best as int].indices.positions());
            if next[j] < transforms[j].indices.count() {
                let head = transforms[j].indices.at(next[j]);
                let better = if !found {
                    true
                } else {
                    head < transforms[best].indices.at(next[best])
                };
                if better {
                    best = j;
                    found = true;
                }
            }
            j = j + 1;
        }
        proof {
            lemma_pick(rest, k as nat);
        }
        if !found {
            done = true;
        } else {
            let nx = next[best];
            let len_best = transforms[best].indices.count();
            proof {
                lemma_pick(rest, k as nat);
                assert(seqs[best as int] == transforms@[best as int].indices.positions());
                assert(rest[best as int] == seqs[best as int].skip(nx as int));
                assert(nx < len_best);
            }
            let i = transforms[best].indices.at(nx);
            transforms[best].action.visit(d, i);
            let ghost old_next = next@;
            let nb = nx + 1;
            next.set(best, nb);
            proof {
                let nrest = rest.update(best as int, rest[best as int].drop_first());
                assert(rest_of_many(seqs, next@) =~= nrest) by {
                    assert(seqs[best as int].skip(old_next[best as int] as int).drop_first()
                        =~= seqs[best as int].skip(nb as int));
                }
                lemma_total_update(rest, best as int, rest[best as int].drop_first());
                let fuel = total(rest);
                let m = merged(rest, fuel);
                let tail = merged(nrest, (fuel - 1) as nat);
                assert(m == seq![(rest[best as int][0], best as nat)] + tail);
                assert(m.drop_first() =~= tail);
            }
        }
    }
    proof {
        let rest = rest_of_many(seqs, next@);
        assert(merged(rest, total(rest)) =~= Seq::<(usize, nat)>::empty());
        assert(run_many(transforms@, d@, Seq::<(usize, nat)>::empty()) == d@);
    }
}

/// Applies `action` at every position of the cursor, from the first to the
/// last.
pub fn scope_map<F: Fn(A) -> A, O: Accessor<D, A>, D: Scope<usize>, A: View>(
    d: &mut D,
    action: Action<F, O, D, A>,
)
    requires
        action.ready(),
        D::well_formed(old(d)@),
    ensures
        final(d)@ == action.visited_all(
            old(d)@,
            Seq::new(D::shape_of(old(d)@), |i: int| i as usize),
        ),
        D::well_formed(final(d)@),
{
    let cap = d.shape();
    let ghost all = Seq::new(cap as nat, |i: int| i as usize);
    let ghost goal = action.visited_all(d@, all);
    let mut index: usize = 0;
    proof {
        assert(all.skip(0) =~= all);
    }
    while index != cap
        invariant
            index <= cap,
            cap == D::shape_of(d@),
            all == Seq::new(cap as nat, |i: int| i as usize),
            action.ready(),
            D::well_formed(d@),
            action.visited_all(d@, all.skip(index as int)) == goal,
        decreases cap - index,
    {
        proof {
            assert(all.skip(index as int).drop_first() =~= all.skip(index + 1));
        }
        action.visit(d, index);
        index = index + 1;
    }
    proof {
        assert(all.skip(index as int) =~= Seq::<usize>::empty());
    }
}

/// Applies `action` at each of `ix`, in order.
pub fn scope_ixmap<F: Fn(A) -> A, O: Accessor<D, A>, D: Scope<usize>, A: View, Ix: Indices>(
    d: &mut D,
    ix: Ix,
    action: Action<F, O, D, A>,
)
    requires
        action.ready(),
        D::well_formed(old(d)@),
    ensures
        final(d)@ == action.visited_all(old(d)@, ix.positions()),
        D::well_formed(final(d)@),
{
    action.visit_all(d, &ix)
}

} // verus!
