//! Work spread over threads.

use rayon::iter::{IntoParallelIterator, ParallelIterator};
use vstd::prelude::*;

verus! {

/// `rayon`'s parallel `map` over `0..n`, collected: the result has one element for every
/// index, in order, and each is what `f` returned for its index.
#[verifier::external_body]
pub(crate) fn par_map<U: Send, F: Fn(usize) -> U + Send + Sync>(n: usize, f: F) -> (v: Vec<U>)
    requires
        forall|i: usize| i < n ==> call_requires(f, (i,)),
    ensures
        v@.len() == n,
        forall|k: int| 0 <= k < n ==> call_ensures(f, (k as usize,), #[trigger] v@[k]),
{
    (0..n).into_par_iter().map(f).collect()
}

} // verus!
