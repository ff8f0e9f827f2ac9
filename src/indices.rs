use vstd::prelude::*;

verus! {

/// A finite sequence of positions, read one by one.
pub trait Indices {
    spec fn positions(&self) -> Seq<usize>;

    fn count(&self) -> (r: usize)
        ensures
            r == self.positions().len(),
    ;

    fn at(&self, k: usize) -> (r: usize)
        requires
            k < self.positions().len(),
        ensures
            r == self.positions()[k as int],
    ;
}

impl Indices for Vec<usize> {
    open spec fn positions(&self) -> Seq<usize> {
        self@
    }

    fn count(&self) -> (r: usize) {
        self.len()
    }

    fn at(&self, k: usize) -> (r: usize) {
        self[k]
    }
}

/// The positions `start, start + step, start + 2 * step, ...` below `end`,
/// computed on demand. A step of 0 gives no positions.
pub struct Stride {
    pub start: usize,
    pub end: usize,
    pub step: usize,
}

impl Stride {
    /// The number of positions.
    pub open spec fn count_spec(&self) -> nat {
        if self.step == 0 || self.start >= self.end {
            0
        } else {
            ((self.end - self.start - 1) / (self.step as int) + 1) as nat
        }
    }

    /// The positions `start + k * step` for `k` below the count.
    pub fn new(start: usize, end: usize, step: usize) -> (r: Stride)
        ensures
            r.start == start,
            r.end == end,
            r.step == step,
    {
        Stride { start, end, step }
    }
}

impl Indices for Stride {
    open spec fn positions(&self) -> Seq<usize> {
        Seq::new(self.count_spec(), |k: int| (self.start + k * self.step) as usize)
    }

    fn count(&self) -> (r: usize) {
        if self.step == 0 || self.start >= self.end {
            0
        } else {
            proof {
                vstd::arithmetic::div_mod::lemma_div_is_ordered_by_denominator(
                    (self.end - self.start - 1) as int,
                    1,
                    self.step as int,
                );
            }
            (self.end - self.start - 1) / self.step + 1
        }
    }

    fn at(&self, k: usize) -> (r: usize) {
        proof {
            let n = (self.end - self.start - 1) as int;
            let s = self.step as int;
            assert(k * s <= n) by (nonlinear_arith)
                requires
                    k <= n / s,
                    s > 0,
                    n >= 0,
            {
                vstd::arithmetic::div_mod::lemma_fundamental_div_mod(n, s);
                vstd::arithmetic::div_mod::lemma_mod_pos_bound(n, s);
                vstd::arithmetic::mul::lemma_mul_inequality(k as int, n / s, s);
            }
        }
        self.start + k * self.step
    }
}

} // verus!
