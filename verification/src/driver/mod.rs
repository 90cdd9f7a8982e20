//! The driver: the operations in flight, and what the completions of the ring do to them.

use vstd::prelude::*;

pub mod completion;
pub mod op;
pub mod ops;
pub mod laws;
pub mod shutdown;
pub mod slabs;
pub mod submit;

use crate::driver::completion::{cqe_result, Completion, Cqe, CqeResult};
use crate::driver::laws::{
    only_ignored_operations_are_removed, operation_in_flight_gets_its_result,
    ticks_add_no_operation, unnamed_operations_are_left_alone,
};
use crate::driver::op::{Cycle, Lifecycle};
use crate::driver::ops::{
    can_complete, completed, completes_only, lemma_completes_one_more, Ops,
};

verus! {

/// The operations in flight, with the ring that they were handed to.
pub struct Driver<R> {
    /// In-flight operations.
    pub ops: Ops,
    /// The ring. The driver's own rules do not look into it.
    pub uring: R,
}

/// Whether a completion queue entry is the result of a cancellation.
pub open spec fn is_cancellation(cqe: Cqe) -> bool {
    cqe.user_data == u64::MAX
}

/// The key of the operation that a completion queue entry belongs to.
pub open spec fn index_of(cqe: Cqe) -> usize {
    cqe.user_data as usize
}

/// Whether `cqe` finds its place: it is the result of a cancellation, or there is an
/// unfinished operation that it belongs to.
pub open spec fn dispatchable(ops: Map<usize, Cycle>, cqe: Cqe) -> bool {
    is_cancellation(cqe) || can_complete(ops, index_of(cqe))
}

/// The operations after one completion queue entry. The result of a cancellation changes
/// nothing.
pub open spec fn dispatched(ops: Map<usize, Cycle>, cqe: Cqe) -> Map<usize, Cycle> {
    if is_cancellation(cqe) {
        ops
    } else {
        completed(ops, index_of(cqe), cqe_result(cqe))
    }
}

/// Whether each of `cqes`, in turn, finds its place.
pub open spec fn tickable(ops: Map<usize, Cycle>, cqes: Seq<Cqe>) -> bool
    decreases cqes.len(),
{
    cqes.len() == 0 || {
        &&& tickable(ops, cqes.drop_last())
        &&& dispatchable(ticked(ops, cqes.drop_last()), cqes.last())
    }
}

/// The keys of the operations that `cqes` are for.
pub open spec fn named(cqes: Seq<Cqe>) -> Set<usize> {
    Set::new(
        |key: usize|
            exists|i: int|
                0 <= i < cqes.len() && !is_cancellation(#[trigger] cqes[i]) && index_of(cqes[i])
                    == key,
    )
}

/// The operations after `cqes`, one after the other.
pub open spec fn ticked(ops: Map<usize, Cycle>, cqes: Seq<Cqe>) -> Map<usize, Cycle>
    decreases cqes.len(),
{
    if cqes.len() == 0 {
        ops
    } else {
        dispatched(ticked(ops, cqes.drop_last()), cqes.last())
    }
}

impl<R> View for Driver<R> {
    type V = Map<usize, Cycle>;

    open spec fn view(&self) -> Map<usize, Cycle> {
        self.ops@
    }
}

impl<R> Driver<R> {
    /// The operations are well-formed.
    pub open spec fn wf(&self) -> bool {
        self.ops.wf()
    }

    /// A driver on the ring that `built` holds, with nothing in flight, or the error with
    /// which the ring could not be built.
    pub fn new<E>(built: Result<R, E>) -> (driver: Result<Driver<R>, E>)
        ensures
            match built {
                Ok(ring) => {
                    &&& driver is Ok
                    &&& driver->Ok_0.uring == ring
                    &&& driver->Ok_0.wf()
                    &&& driver->Ok_0.ops.leak_free()
                    &&& driver->Ok_0@ == Map::<usize, Cycle>::empty()
                    &&& driver->Ok_0.ops.received() == Map::<usize, Completion>::empty()
                    &&& driver->Ok_0.ops.cycles() == Map::<usize, Lifecycle>::empty()
                },
                Err(error) => driver == Err::<Driver<R>, E>(error),
            },
    {
        match built {
            Ok(uring) => Ok(Driver { ops: Ops::new(), uring }),
            Err(error) => Err(error),
        }
    }

    /// The number of operations in flight.
    pub fn num_operations(&self) -> (count: usize)
        ensures
            count == self@.dom().len(),
    {
        self.ops.len()
    }

    /// Whether `cqe` finds its place: a driver that gets one that does not is out of step
    /// with its ring.
    pub fn can_dispatch(&self, cqe: &Cqe) -> (able: bool)
        ensures
            able == dispatchable(self@, *cqe),
            able <==> cqe.user_data == u64::MAX || (self@.contains_key(cqe.user_data as usize)
                && self@[cqe.user_data as usize] !is Completed),
    {
        cqe.user_data == u64::MAX || self.ops.can_complete(cqe.user_data as usize)
    }

    /// Hands the completion queue entries `cqes` to their operations, in order.
    ///
    /// Each of them finds its place.
    pub fn tick(&mut self, cqes: &[Cqe])
        requires
            old(self).wf(),
            tickable(old(self)@, cqes@),
        ensures
            final(self).wf(),
            old(self).ops.leak_free() ==> final(self).ops.leak_free(),
            final(self)@ == ticked(old(self)@, cqes@),
            final(self).uring == old(self).uring,
            final(self)@.dom().subset_of(old(self)@.dom()),
            final(self)@.dom().len() <= old(self)@.dom().len(),
            completes_only(
                old(self).ops.cycles(),
                old(self).ops.received(),
                final(self).ops.cycles(),
                final(self).ops.received(),
                named(cqes@),
            ),
            (forall|i: int| 0 <= i < cqes@.len() ==> is_cancellation(#[trigger] cqes@[i]))
                ==> *final(self) == *old(self),
            (forall|i: int| 0 <= i < cqes@.len() ==> (#[trigger] cqes@[i]).user_data == u64::MAX)
                ==> *final(self) == *old(self),
            forall|key: usize| #[trigger]
                old(self)@.contains_key(key) && !final(self)@.contains_key(key)
                    ==> old(self)@[key] is Ignored,
            forall|key: usize|
                #![trigger final(self)@.contains_key(key)]
                (forall|i: int|
                    0 <= i < cqes@.len() ==> (#[trigger] cqes@[i]).user_data == u64::MAX
                        || cqes@[i].user_data as usize != key) ==> {
                    &&& final(self)@.contains_key(key) == old(self)@.contains_key(key)
                    &&& old(self)@.contains_key(key) ==> final(self)@[key] == old(self)@[key]
                },
            forall|at: int, key: usize|
                #![trigger cqes@[at], old(self)@[key]]
                0 <= at < cqes@.len() && cqes@[at].user_data != u64::MAX && cqes@[at].user_data as usize
                    == key && cqes@[at].flags & 2 == 0 && old(self)@.contains_key(key) && (old(
                    self,
                )@[key] is Submitted || old(self)@[key] is Waiting) && (forall|i: int|
                    0 <= i < cqes@.len() && i != at ==> (#[trigger] cqes@[i]).user_data == u64::MAX
                        || cqes@[i].user_data as usize != key) ==> {
                    let read = final(self)@[key]->Completed_0;
                    &&& final(self)@.contains_key(key)
                    &&& final(self)@[key] is Completed
                    &&& read.flags == cqes@[at].flags
                    &&& read.result is Ok <==> cqes@[at].result >= 0
                    &&& cqes@[at].result >= 0 ==> read.result->Ok_0 as int
                        == cqes@[at].result as int
                    &&& i32::MIN < cqes@[at].result < 0 ==> read.result->Err_0 as int == -(
                    cqes@[at].result as int)
                },
            forall|entry: usize| #[trigger]
                old(self).ops.received().contains_key(entry) ==> {
                    &&& final(self).ops.received().contains_key(entry)
                    &&& final(self).ops.received()[entry].cqe == old(
                        self,
                    ).ops.received()[entry].cqe
                },
    {
        let done: usize = self.try_tick(cqes);
        proof {
            if done < cqes@.len() {
                lemma_tickable_prefix(old(self)@, cqes@, done + 1);
                let one_more = cqes@.take(done + 1);
                assert(one_more.drop_last() =~= cqes@.take(done as int));
                assert(one_more.last() == cqes@[done as int]);
            }
            assert(cqes@.take(cqes@.len() as int) =~= cqes@);
        }
    }

    /// Hands the completion queue entries `cqes` to their operations, in order, up to the
    /// first that does not find its place. Returns how many were handed over.
    pub fn try_tick(&mut self, cqes: &[Cqe]) -> (done: usize)
        requires
            old(self).wf(),
        ensures
            done <= cqes@.len(),
            tickable(old(self)@, cqes@.take(done as int)),
            done < cqes@.len() ==> !dispatchable(final(self)@, cqes@[done as int]),
            final(self).wf(),
            old(self).ops.leak_free() ==> final(self).ops.leak_free(),
            final(self)@ == ticked(old(self)@, cqes@.take(done as int)),
            final(self).uring == old(self).uring,
            final(self)@.dom().subset_of(old(self)@.dom()),
            final(self)@.dom().len() <= old(self)@.dom().len(),
            completes_only(
                old(self).ops.cycles(),
                old(self).ops.received(),
                final(self).ops.cycles(),
                final(self).ops.received(),
                named(cqes@.take(done as int)),
            ),
            (forall|i: int| 0 <= i < done ==> is_cancellation(#[trigger] cqes@[i]))
                ==> *final(self) == *old(self),            done < cqes@.len() ==> {
                let key = cqes@[done as int].user_data as usize;
                &&& cqes@[done as int].user_data != u64::MAX
                &&& !final(self)@.contains_key(key) || final(self)@[key] is Completed
            },
            (forall|i: int| 0 <= i < done ==> (#[trigger] cqes@[i]).user_data == u64::MAX)
                ==> *final(self) == *old(self),
            forall|key: usize| #[trigger]
                old(self)@.contains_key(key) && !final(self)@.contains_key(key)
                    ==> old(self)@[key] is Ignored,
            forall|key: usize|
                #![trigger final(self)@.contains_key(key)]
                (forall|i: int|
                    0 <= i < done ==> (#[trigger] cqes@[i]).user_data == u64::MAX
                        || cqes@[i].user_data as usize != key) ==> {
                    &&& final(self)@.contains_key(key) == old(self)@.contains_key(key)
                    &&& old(self)@.contains_key(key) ==> final(self)@[key] == old(self)@[key]
                },
            forall|at: int, key: usize|
                #![trigger cqes@[at], old(self)@[key]]
                0 <= at < done && cqes@[at].user_data != u64::MAX && cqes@[at].user_data as usize
                    == key && cqes@[at].flags & 2 == 0 && old(self)@.contains_key(key) && (old(
                    self,
                )@[key] is Submitted || old(self)@[key] is Waiting) && (forall|i: int|
                    0 <= i < done && i != at ==> (#[trigger] cqes@[i]).user_data == u64::MAX
                        || cqes@[i].user_data as usize != key) ==> {
                    let read = final(self)@[key]->Completed_0;
                    &&& final(self)@.contains_key(key)
                    &&& final(self)@[key] is Completed
                    &&& read.flags == cqes@[at].flags
                    &&& read.result is Ok <==> cqes@[at].result >= 0
                    &&& cqes@[at].result >= 0 ==> read.result->Ok_0 as int
                        == cqes@[at].result as int
                    &&& i32::MIN < cqes@[at].result < 0 ==> read.result->Err_0 as int == -(
                    cqes@[at].result as int)
                },
            forall|entry: usize| #[trigger]
                old(self).ops.received().contains_key(entry) ==> {
                    &&& final(self).ops.received().contains_key(entry)
                    &&& final(self).ops.received()[entry].cqe == old(
                        self,
                    ).ops.received()[entry].cqe
                },
    {
        let mut done: usize = 0;
        proof {
            assert(cqes@.take(0) =~= Seq::<Cqe>::empty());
        }
        while done < cqes.len() && self.can_dispatch(&cqes[done])
            invariant
                done <= cqes@.len(),
                tickable(old(self)@, cqes@.take(done as int)),
                self.wf(),
                old(self).ops.leak_free() ==> self.ops.leak_free(),
                self@ == ticked(old(self)@, cqes@.take(done as int)),
                self.uring == old(self).uring,
                completes_only(
                    old(self).ops.cycles(),
                    old(self).ops.received(),
                    self.ops.cycles(),
                    self.ops.received(),
                    named(cqes@.take(done as int)),
                ),
                (forall|i: int| 0 <= i < done ==> is_cancellation(#[trigger] cqes@[i])) ==> *self
                    == *old(self),
            decreases cqes@.len() - done,
        {
            let cqe = cqes[done];
            let ghost ops = self.ops;
            let ghost fewer = cqes@.take(done as int);
            let ghost one_more = cqes@.take(done + 1);
            proof {
                assert(one_more.drop_last() =~= fewer);
                assert(one_more.last() == cqe);
                lemma_named_one_more(cqes@, done as int);
            }
            if cqe.user_data != u64::MAX {
                // The result of a cancellation needs nothing done: the operation that was
                // cancelled has a completion of its own.
                self.ops.complete(cqe.user_data as usize, CqeResult::from_cqe(cqe));
                proof {
                    assert(!is_cancellation(cqes@[done as int]));
                    lemma_completes_one_more(
                        old(self).ops,
                        ops,
                        self.ops,
                        named(fewer),
                        index_of(cqe),
                        named(one_more),
                    );
                }
            }
            done = done + 1;
        }
        proof {
            assert(old(self)@.dom() =~= old(self).ops.cycles().dom());
            let handed = cqes@.take(done as int);
            ticks_add_no_operation(old(self)@, handed);
            assert forall|i: int| 0 <= i < done implies handed[i] == #[trigger] cqes@[i] by {}
            assert forall|key: usize| #[trigger] old(self)@.contains_key(key) && !self@.contains_key(
                key,
            ) implies old(self)@[key] is Ignored by {
                only_ignored_operations_are_removed(old(self)@, handed, key);
            }
            assert forall|key: usize|
                #![trigger self@.contains_key(key)]
                (forall|i: int|
                    0 <= i < done ==> (#[trigger] cqes@[i]).user_data == u64::MAX
                        || cqes@[i].user_data as usize != key) implies self@.contains_key(key)
                == old(self)@.contains_key(key) && (old(self)@.contains_key(key) ==> self@[key]
                == old(self)@[key]) by {
                assert forall|i: int| 0 <= i < handed.len() implies (
                #[trigger] handed[i]).user_data == u64::MAX || handed[i].user_data as usize
                    != key by {
                    assert(handed[i] == cqes@[i]);
                }
                unnamed_operations_are_left_alone(old(self)@, handed, key);
            }
            assert forall|at: int, key: usize|
                #![trigger cqes@[at], old(self)@[key]]
                0 <= at < done && cqes@[at].user_data != u64::MAX && cqes@[at].user_data as usize
                    == key && cqes@[at].flags & 2 == 0 && old(self)@.contains_key(key) && (old(
                    self,
                )@[key] is Submitted || old(self)@[key] is Waiting) && (forall|i: int|
                    0 <= i < done && i != at ==> (#[trigger] cqes@[i]).user_data == u64::MAX
                        || cqes@[i].user_data as usize != key) implies {
                let read = self@[key]->Completed_0;
                &&& self@.contains_key(key)
                &&& self@[key] is Completed
                &&& read.flags == cqes@[at].flags
                &&& read.result is Ok <==> cqes@[at].result >= 0
                &&& cqes@[at].result >= 0 ==> read.result->Ok_0 as int == cqes@[at].result as int
                &&& i32::MIN < cqes@[at].result < 0 ==> read.result->Err_0 as int == -(
                cqes@[at].result as int)
            } by {
                assert forall|i: int| 0 <= i < handed.len() && i != at implies (
                #[trigger] handed[i]).user_data == u64::MAX || handed[i].user_data as usize
                    != key by {
                    assert(handed[i] == cqes@[i]);
                }
                assert(handed[at] == cqes@[at]);
                operation_in_flight_gets_its_result(old(self)@, handed, key, at);
            }
            assert((forall|i: int|
                0 <= i < done ==> (#[trigger] cqes@[i]).user_data == u64::MAX) ==> (forall|i: int|
                0 <= i < done ==> is_cancellation(#[trigger] cqes@[i])));
        }
        done
    }
}

/// One entry more names what the first entries name, and, unless it is the result of a
/// cancellation, its own operation.
proof fn lemma_named_one_more(cqes: Seq<Cqe>, count: int)
    requires
        0 <= count < cqes.len(),
    ensures
        is_cancellation(cqes[count]) ==> named(cqes.take(count + 1)) == named(cqes.take(count)),
        !is_cancellation(cqes[count]) ==> named(cqes.take(count + 1)) == named(
            cqes.take(count),
        ).insert(index_of(cqes[count])),
{
    let fewer = cqes.take(count);
    let one_more = cqes.take(count + 1);
    assert(one_more[count] == cqes[count]);
    assert forall|key: usize| named(fewer).contains(key) implies named(one_more).contains(key) by {
        let i = choose|i: int|
            0 <= i < fewer.len() && !is_cancellation(#[trigger] fewer[i]) && index_of(fewer[i])
                == key;
        assert(one_more[i] == fewer[i]);
    }
    assert forall|key: usize| named(one_more).contains(key) && key != index_of(
        cqes[count],
    ) implies named(fewer).contains(key) by {
        let i = choose|i: int|
            0 <= i < one_more.len() && !is_cancellation(#[trigger] one_more[i]) && index_of(
                one_more[i],
            ) == key;
        assert(fewer[i] == one_more[i]);
    }
    if is_cancellation(cqes[count]) {
        assert forall|key: usize| named(one_more).contains(key) implies named(fewer).contains(
            key,
        ) by {
            let i = choose|i: int|
                0 <= i < one_more.len() && !is_cancellation(#[trigger] one_more[i]) && index_of(
                    one_more[i],
                ) == key;
            assert(fewer[i] == one_more[i]);
        }
        assert(named(one_more) =~= named(fewer));
    } else {
        assert(named(one_more) =~= named(fewer).insert(index_of(cqes[count])));
    }
}

/// The first entries of a batch find their places where all of it does.
proof fn lemma_tickable_prefix(ops: Map<usize, Cycle>, cqes: Seq<Cqe>, count: int)
    requires
        tickable(ops, cqes),
        0 <= count <= cqes.len(),
    ensures
        tickable(ops, cqes.take(count)),
    decreases cqes.len(),
{
    if count == cqes.len() {
        assert(cqes.take(count) =~= cqes);
    } else {
        lemma_tickable_prefix(ops, cqes.drop_last(), count);
        assert(cqes.drop_last().take(count) =~= cqes.take(count));
    }
}

} // verus!
