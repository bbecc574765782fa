//! Work that is spread over threads, item by item.

use rayon::iter::{IntoParallelIterator, ParallelIterator};
use vstd::prelude::*;

verus! {

/// Applies `f` to every index below `n`, on rayon's thread pool, and collects
/// the results in index order.
///
/// Calls `into_par_iter` of rayon on a range of indices, then `map` and
/// `collect`. Trusted: the result holds one item for each index, and the item
/// at an index is what `f` returned for it.
#[verifier::external_body]
pub(crate) fn par_map<R: Send, F: Fn(usize) -> R + Sync + Send>(n: usize, f: F) -> (out: Vec<R>)
    requires
        forall|i: usize| i < n ==> call_requires(f, (i,)),
    ensures
        out@.len() == n,
        forall|i: int| 0 <= i < n ==> call_ensures(f, (i as usize,), #[trigger] out@[i]),
{
    (0..n).into_par_iter().map(f).collect()
}

} // verus!
