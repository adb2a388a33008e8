use vstd::prelude::*;

verus! {

/// A point filter that considers every point.
pub fn accept_all<P>(_point: &P) -> (r: bool)
    ensures
        r,
{
    true
}

/// A convergence predicate that never reports convergence and leaves the error state alone.
pub fn never<T, M>(_a2t: &Vec<T>, _t2a: &Vec<T>, _transform: &M, error: &mut T) -> (r: bool)
    ensures
        !r,
        *final(error) == *old(error),
{
    false
}

/// Which of `estimator_count` interlaced estimators runs at `iteration`, and the iteration index
/// that it is handed: estimators take turns, and each counts only its own turns.
pub fn interlaced_step(iteration: usize, estimator_count: usize) -> (r: (usize, usize))
    requires
        estimator_count > 0,
    ensures
        r.0 == iteration % estimator_count,
        r.1 == iteration / estimator_count,
        r.0 < estimator_count,
        r.1 * estimator_count + r.0 == iteration,
{
    let r = (iteration % estimator_count, iteration / estimator_count);
    proof {
        vstd::arithmetic::div_mod::lemma_fundamental_div_mod(
            iteration as int,
            estimator_count as int,
        );
    }
    r
}

} // verus!
