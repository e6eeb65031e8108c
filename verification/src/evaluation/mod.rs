use vstd::prelude::*;
use crate::board::Board;
use crate::piece::{FallingPiece, LockResult};

pub mod features;
pub mod shapes;
pub mod standard;
pub mod misalike;
pub mod holes;
pub mod weighted;
pub mod naive;
pub mod pattern;
pub mod changed;

verus! {

/// A move the search offers to the evaluator to pick from.
pub struct MoveCandidate<E> {
    pub mv: FallingPiece,
    pub lock: LockResult,
    pub board: Board,
    pub evaluation: E,
    pub hold: bool,
    pub original_rank: u32,
}

/// The sum of `f(i)` for `lo <= i < hi`.
pub open spec fn sum_range(lo: int, hi: int, f: spec_fn(int) -> int) -> int
    decreases hi - lo,
{
    if hi <= lo {
        0
    } else {
        sum_range(lo, hi - 1, f) + f(hi - 1)
    }
}

/// A sum of terms that each lie in `[lo_t, hi_t]` lies in `[n * lo_t, n * hi_t]`.
pub proof fn lemma_sum_range_bounds(lo: int, hi: int, f: spec_fn(int) -> int, lo_t: int, hi_t: int)
    requires
        lo <= hi,
        forall|i: int| lo <= i < hi ==> lo_t <= #[trigger] f(i) <= hi_t,
    ensures
        (hi - lo) * lo_t <= sum_range(lo, hi, f) <= (hi - lo) * hi_t,
    decreases hi - lo,
{
    if hi > lo {
        lemma_sum_range_bounds(lo, hi - 1, f, lo_t, hi_t);
        assert(lo_t <= f(hi - 1) <= hi_t);
        assert(sum_range(lo, hi, f) == sum_range(lo, hi - 1, f) + f(hi - 1));
        assert((hi - lo) * lo_t == (hi - 1 - lo) * lo_t + lo_t) by (nonlinear_arith);
        assert((hi - lo) * hi_t == (hi - 1 - lo) * hi_t + hi_t) by (nonlinear_arith);
    } else {
        assert((hi - lo) * lo_t == 0 && (hi - lo) * hi_t == 0) by (nonlinear_arith)
            requires
                hi == lo,
        ;
    }
}

/// Sums of pointwise equal terms are equal.
pub proof fn lemma_sum_range_ext(lo: int, hi: int, f: spec_fn(int) -> int, g: spec_fn(int) -> int)
    requires
        forall|i: int| lo <= i < hi ==> #[trigger] f(i) == g(i),
    ensures
        sum_range(lo, hi, f) == sum_range(lo, hi, g),
    decreases hi - lo,
{
    if hi > lo {
        lemma_sum_range_ext(lo, hi - 1, f, g);
    }
}

/// An evaluation of a position that the search can combine with rewards and rank.
pub trait Evaluation<R>: Sized {
    /// The arithmetic of `weight` fits in its types.
    spec fn weight_fits(&self, min: &Self, rank: usize) -> bool;

    /// The arithmetic of `modify_death` fits in its types.
    spec fn death_fits(&self) -> bool;

    /// The evaluation of a position whose line ends in death.
    fn modify_death(self) -> Self
        requires
            self.death_fits(),
    ;

    /// How much weight the search gives to this evaluation, given the worst one and its rank.
    fn weight(self, min: &Self, rank: usize) -> i64
        requires
            self.weight_fits(min, rank),
    ;

    /// Raises this evaluation to the better of itself and `other`, field by field.
    fn improve(&mut self, other: Self);
}

} // verus!
