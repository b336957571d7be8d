//! How the sub-products of one level of the recursion are run: one after
//! another, or on the worker threads of a pool.
use rayon::iter::{IntoParallelIterator, ParallelIterator};
use vstd::prelude::*;

verus! {

/// `i` is the position of one of the tasks.
pub open spec fn slot<I>(tasks: Seq<I>, i: int) -> bool {
    0 <= i < tasks.len()
}

/// A way to run a list of tasks. The tasks of one list write to buffers
/// that do not overlap, which is why they may run at the same time.
pub trait Distribute {
    /// Runs `f` once on each of the tasks; `size` is the side of the block
    /// that the tasks are the parts of. `f` has to accept every task of the
    /// list, and every task is left as a call of `f` on it leaves it.
    fn run<I: Send, F: Fn(&mut I) + Send + Sync>(size: usize, tasks: &mut [I], f: F)
        requires
            forall|t: &mut I, i: int|
                #[trigger] slot(old(tasks)@, i) && *t == old(tasks)@[i] ==> #[trigger] f.requires(
                    (t,),
                ),
        ensures
            final(tasks)@.len() == old(tasks)@.len(),
            forall|i: int| #[trigger]
                slot(old(tasks)@, i) ==> (exists|t: &mut I|
                    *t == old(tasks)@[i] && *final(t) == final(tasks)@[i] && #[trigger] f.ensures(
                        (t,),
                        (),
                    )),
    ;
}

/// Runs the tasks in the order of the list, on the calling thread.
pub struct DontDistribute;

impl Distribute for DontDistribute {
    fn run<I: Send, F: Fn(&mut I) + Send + Sync>(_size: usize, tasks: &mut [I], f: F) {
        let n = tasks.len();
        let mut i: usize = 0;
        while i < n
            invariant
                n == tasks@.len(),
                tasks@.len() == old(tasks)@.len(),
                i <= n,
                forall|t: &mut I, i: int|
                    #[trigger] slot(old(tasks)@, i) && *t == old(tasks)@[i]
                        ==> #[trigger] f.requires((t,)),
                forall|j: int| i <= j < n ==> tasks@[j] == old(tasks)@[j],
                forall|j: int| #[trigger]
                    slot(old(tasks)@, j) && j < i ==> (exists|t: &mut I|
                        *t == old(tasks)@[j] && *final(t) == tasks@[j] && #[trigger] f.ensures(
                            (t,),
                            (),
                        )),
            decreases n - i,
        {
            let ghost prev = tasks@;
            assert(slot(old(tasks)@, i as int));
            f(&mut tasks[i]);
            proof {
                assert forall|j: int| #[trigger] slot(old(tasks)@, j) && j < i + 1 implies (exists|
                    t: &mut I,
                |
                    *t == old(tasks)@[j] && *final(t) == tasks@[j] && #[trigger] f.ensures(
                        (t,),
                        (),
                    )) by {
                    if j < i {
                        assert(tasks@[j] == prev[j]);
                    }
                }
            }
            i += 1;
        }
    }
}

/// Runs the tasks of a block on the worker threads of the process-wide
/// pool if the side of the block is at least `LIMIT`, and in the order of
/// the list, on the calling thread, if it is smaller.
pub struct RayonDistribute<const LIMIT: usize>;

/// `ParallelIterator::for_each` of `rayon`, on the parallel iterator that
/// `IntoParallelIterator::into_par_iter` gives for a mutable slice. It
/// calls `f` once on each element, on the threads of the global pool, and
/// returns when all the calls have returned. This is taken on trust: every
/// task is left as one call of `f` on it leaves it.
#[verifier::external_body]
fn par_for_each<I: Send, F: Fn(&mut I) + Send + Sync>(tasks: &mut [I], f: F)
    requires
        forall|t: &mut I, i: int|
            #[trigger] slot(old(tasks)@, i) && *t == old(tasks)@[i] ==> #[trigger] f.requires(
                (t,),
            ),
    ensures
        final(tasks)@.len() == old(tasks)@.len(),
        forall|i: int| #[trigger]
            slot(old(tasks)@, i) ==> (exists|t: &mut I|
                *t == old(tasks)@[i] && *final(t) == final(tasks)@[i] && #[trigger] f.ensures(
                    (t,),
                    (),
                )),
{
    tasks.into_par_iter().for_each(f);
}

impl<const LIMIT: usize> Distribute for RayonDistribute<LIMIT> {
    fn run<I: Send, F: Fn(&mut I) + Send + Sync>(size: usize, tasks: &mut [I], f: F) {
        if size >= LIMIT {
            par_for_each(tasks, f);
        } else {
            DontDistribute::run(size, tasks, f);
        }
    }
}

} // verus!
