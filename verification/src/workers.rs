//! Queries on the worker pool that the parallel build runs on.

use vstd::prelude::*;

verus! {

/// Trusted: `rayon::current_num_threads`, the number of threads of the pool
/// that the calling thread belongs to, or of the global pool. The number
/// depends on how the pool was set up, so the contract claims only what holds
/// of every pool: rayon builds a pool with the number of threads that was
/// asked for, or one that it picks itself where none or zero was asked for,
/// and either is at least one. Rayon panics where the environment lets it
/// start no global pool.
pub assume_specification[ rayon::current_num_threads ]() -> (count: usize)
    ensures
        count >= 1,
;

/// Whether `count` workers are more than one.
pub fn more_than_one(count: usize) -> (yes: bool)
    ensures
        yes == (count > 1),
{
    count > 1
}

/// The number of workers in the pool at this moment: at least one, and
/// otherwise whatever the pool was set up with.
pub fn get_thread_count() -> (count: usize)
    ensures
        count >= 1,
{
    rayon::current_num_threads()
}

/// Whether the pool has more than one worker at this moment. Either answer
/// can come back, as the pool is set up outside of this library; what the
/// answer is for a given number of workers is stated by `more_than_one`.
pub fn threads_available() -> (yes: bool) {
    more_than_one(get_thread_count())
}

} // verus!
