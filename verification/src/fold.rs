//! Values that come about step by step, where every step is known only by what it leads
//! from and to.

use vstd::prelude::*;

verus! {

/// Step `i` leads from one value of a trace to the next.
pub open spec fn goes<S>(step: spec_fn(int, S, S) -> bool, trace: Seq<S>, i: int) -> bool {
    step(i, trace[i], trace[i + 1])
}

/// `trace` holds the values from `start` to `r`, step by step.
pub open spec fn is_trace<S>(
    trace: Seq<S>,
    start: S,
    step: spec_fn(int, S, S) -> bool,
    n: nat,
    r: S,
) -> bool {
    &&& trace.len() == n + 1
    &&& trace[0] == start
    &&& trace[n as int] == r
    &&& forall|i: int| 0 <= i < n ==> #[trigger] goes(step, trace, i)
}

/// `r` comes out of `start` in `n` steps, `step(i, a, b)` saying that the step `i` leads
/// from `a` to `b`.
pub open spec fn folds<S>(start: S, step: spec_fn(int, S, S) -> bool, n: nat, r: S) -> bool {
    exists|trace: Seq<S>| #[trigger] is_trace(trace, start, step, n, r)
}

/// Nothing happens in no steps.
pub proof fn lemma_no_steps<S>(start: S, step: spec_fn(int, S, S) -> bool)
    ensures
        folds(start, step, 0, start),
{
    assert(is_trace(seq![start], start, step, 0, start));
}

/// One more step.
pub proof fn lemma_step<S>(start: S, step: spec_fn(int, S, S) -> bool, n: nat, a: S, b: S)
    requires
        folds(start, step, n, a),
        step(n as int, a, b),
    ensures
        folds(start, step, n + 1, b),
{
    let trace = choose|trace: Seq<S>| #[trigger] is_trace(trace, start, step, n, a);
    let longer = trace.push(b);
    assert forall|i: int| 0 <= i < n + 1 implies #[trigger] goes(step, longer, i) by {
        if i < n {
            assert(goes(step, trace, i));
        }
    }
    assert(is_trace(longer, start, step, n + 1, b));
}

/// What comes out depends on the steps that are taken, and on no others.
pub proof fn lemma_same_steps<S>(
    start: S,
    step: spec_fn(int, S, S) -> bool,
    other: spec_fn(int, S, S) -> bool,
    n: nat,
    r: S,
)
    requires
        forall|i: int, a: S, b: S| 0 <= i < n ==> #[trigger] step(i, a, b) == other(i, a, b),
        folds(start, step, n, r),
    ensures
        folds(start, other, n, r),
{
    let trace = choose|trace: Seq<S>| #[trigger] is_trace(trace, start, step, n, r);
    assert forall|i: int| 0 <= i < n implies #[trigger] goes(other, trace, i) by {
        assert(goes(step, trace, i));
    }
    assert(is_trace(trace, start, other, n, r));
}

} // verus!
