//! The workers of a thread pool.
use vstd::prelude::*;

verus! {

/// A pool has fewer workers than this.
pub const WORKER_LIMIT: usize = 10;

/// The numbers of the workers of a pool, one for each worker, counted from zero.
pub fn worker_ids(num_workers: usize) -> (ids: Vec<usize>)
    requires
        num_workers < WORKER_LIMIT,
    ensures
        ids@ == Seq::new(num_workers as nat, |i: int| i as usize),
{
    let mut ids: Vec<usize> = Vec::with_capacity(num_workers);
    let mut i: usize = 0;
    while i < num_workers
        invariant
            i <= num_workers,
            ids@ == Seq::new(i as nat, |j: int| j as usize),
        decreases num_workers - i,
    {
        ids.push(i);
        i = i + 1;
    }
    ids
}

}
