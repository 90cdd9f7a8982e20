//! The life of one operation, from its submission to its last completion.

use slab::Slab;
use vstd::prelude::*;

use crate::driver::completion::{same_but, Completion, CqeResult, ListIndices};
use crate::driver::slabs::completion_entries;

verus! {

/// Where an operation stands.
#[derive(Clone, Copy)]
pub enum Lifecycle {
    /// The operation has been handed to the ring and is in flight.
    Submitted,
    /// The operation is in flight, and its submitter waits for it. The submitter's task is
    /// not kept here: whoever owns the ring keeps it under the operation's key, and wakes it
    /// when a completion with that key comes in.
    Waiting,
    /// Nobody is interested in the operation any more, but it has not finished. What has to
    /// outlive the operation is kept by whoever owns the ring, under the operation's key.
    Ignored,
    /// The operation has finished with one completion.
    Completed(CqeResult),
    /// The operation has reported at least once, with the ends of the list of its reports.
    CompletionList(ListIndices),
}

/// A lifecycle with the completions of its list in place of their keys.
#[verifier::ext_equal]
pub enum Cycle {
    Submitted,
    Waiting,
    Ignored,
    Completed(CqeResult),
    CompletionList(Seq<CqeResult>),
}

/// Whether further completions of the same operation follow one with these flags.
pub open spec fn more_follow(flags: u32) -> bool {
    flags & 2 != 0
}

/// `io_uring::cqueue::more`: whether the bit `IORING_CQE_F_MORE`, which is 2, is set.
pub assume_specification[ io_uring::cqueue::more ](flags: u32) -> (follow: bool)
    ensures
        follow == (flags & 2 != 0),
;

/// What becomes of an operation when a completion arrives for it; `None` says that it is
/// over. An operation that has finished gets no completion.
pub open spec fn after_completion(cycle: Cycle, cqe: CqeResult) -> Option<Cycle>
    recommends
        cycle !is Completed,
{
    match cycle {
        Cycle::Submitted | Cycle::Waiting => Some(
            if more_follow(cqe.flags) {
                Cycle::CompletionList(seq![cqe])
            } else {
                Cycle::Completed(cqe)
            },
        ),
        Cycle::Ignored => if more_follow(cqe.flags) {
            Some(Cycle::Ignored)
        } else {
            None
        },
        Cycle::Completed(_) => None,
        Cycle::CompletionList(seen) => Some(Cycle::CompletionList(seen.push(cqe))),
    }
}

/// What becomes of an operation when the driver shuts down: it is finished, or has to be
/// cancelled. One whose last report said that no more follow is finished, with an empty
/// result.
pub open spec fn settled_cycle(cycle: Cycle) -> Cycle {
    match cycle {
        Cycle::Completed(_) => cycle,
        Cycle::CompletionList(seen) => if more_follow(seen.last().flags) {
            Cycle::Ignored
        } else {
            Cycle::Completed(CqeResult { result: Ok(0), flags: 0 })
        },
        _ => Cycle::Ignored,
    }
}

/// Further completions follow exactly where the flag that says so, the second bit, is set;
/// the other flags do not matter.
pub proof fn more_follow_by_one_flag(flags: u32, others: u32)
    ensures
        more_follow(flags) <==> (flags & 2) == 2,
        more_follow(flags | 2),
        !more_follow(flags & !2u32),
        more_follow(flags) == more_follow(flags ^ (others & !2u32)),
{
    assert(flags & 2 != 0 <==> (flags & 2) == 2) by (bit_vector);
    assert((flags | 2) & 2 != 0) by (bit_vector);
    assert((flags & !2u32) & 2 == 0) by (bit_vector);
    assert((flags ^ (others & !2u32)) & 2 == flags & 2) by (bit_vector);
}

/// An operation that is in flight ends with its completion unless more follow, and stays in
/// place with exactly what the completion said.
pub proof fn completion_ends_an_operation_in_flight(cycle: Cycle, cqe: CqeResult)
    requires
        cycle is Submitted || cycle is Waiting,
    ensures
        cqe.flags & 2 == 0 ==> after_completion(cycle, cqe) == Some(Cycle::Completed(cqe)),
        cqe.flags & 2 != 0 ==> after_completion(cycle, cqe) == Some(
            Cycle::CompletionList(seq![cqe]),
        ),
{
}

/// An operation that has reported before keeps what it has, with the new report behind it.
pub proof fn report_is_appended(seen: Seq<CqeResult>, cqe: CqeResult)
    ensures
        after_completion(Cycle::CompletionList(seen), cqe) == Some(
            Cycle::CompletionList(seen.push(cqe)),
        ),
{
}

/// Of the operations that can get a completion, exactly an ignored one whose last completion
/// it is ends without a trace.
pub proof fn only_ignored_operations_vanish(cycle: Cycle, cqe: CqeResult)
    requires
        cycle !is Completed,
    ensures
        after_completion(cycle, cqe) is None <==> cycle is Ignored && cqe.flags & 2 == 0,
        cycle is Ignored && cqe.flags & 2 != 0 ==> after_completion(cycle, cqe) == Some(
            Cycle::Ignored,
        ),
{
}

/// On shutdown an operation that has finished stays as it is; one that has reported, and whose
/// last report said that no more follow, is finished with nothing; and any other is ignored.
pub proof fn settling_of_one(cycle: Cycle)
    ensures
        cycle is Completed ==> settled_cycle(cycle) == cycle,
        cycle is Submitted || cycle is Waiting || cycle is Ignored ==> settled_cycle(cycle)
            == Cycle::Ignored,
        cycle is CompletionList && cycle->CompletionList_0.last().flags & 2 != 0
            ==> settled_cycle(cycle) == Cycle::Ignored,
        cycle is CompletionList && cycle->CompletionList_0.last().flags & 2 == 0
            ==> settled_cycle(cycle) == Cycle::Completed(CqeResult { result: Ok(0), flags: 0 }),
{
}

/// A lifecycle and what it stands for are of the same kind, and a result or a list of reports
/// is the same in both.
pub proof fn cycle_shows_the_lifecycle(cycle: Lifecycle, entries: Map<usize, Completion>)
    ensures
        cycle is Submitted <==> cycle.cycle(entries) is Submitted,
        cycle is Waiting <==> cycle.cycle(entries) is Waiting,
        cycle is Ignored <==> cycle.cycle(entries) is Ignored,
        cycle is Completed <==> cycle.cycle(entries) is Completed,
        cycle is CompletionList <==> cycle.cycle(entries) is CompletionList,
        cycle is Completed ==> cycle.cycle(entries)->Completed_0 == cycle->Completed_0,
        cycle is CompletionList ==> cycle.cycle(entries)->CompletionList_0
            == cycle->CompletionList_0.contents(entries),
{
}

impl Lifecycle {
    /// The keys of the completions that this operation holds in the slab.
    pub open spec fn keys(self) -> Seq<usize> {
        match self {
            Lifecycle::CompletionList(list) => list.keys(),
            _ => Seq::empty(),
        }
    }

    /// `entries` holds the completions of this operation.
    pub open spec fn valid(self, entries: Map<usize, Completion>) -> bool {
        match self {
            Lifecycle::CompletionList(list) => list.valid(entries),
            _ => true,
        }
    }

    /// The lifecycle with its completions read from `entries`.
    pub open spec fn cycle(self, entries: Map<usize, Completion>) -> Cycle {
        match self {
            Lifecycle::Submitted => Cycle::Submitted,
            Lifecycle::Waiting => Cycle::Waiting,
            Lifecycle::Ignored => Cycle::Ignored,
            Lifecycle::Completed(cqe) => Cycle::Completed(cqe),
            Lifecycle::CompletionList(list) => Cycle::CompletionList(list.contents(entries)),
        }
    }

    /// Takes note of a completion of this operation. Returns whether the operation is over,
    /// and with it its place in the slab.
    ///
    /// An operation that has finished gets no further completion.
    pub fn complete(&mut self, completions: &mut Slab<Completion>, cqe: CqeResult) -> (over: bool)
        requires
            old(self).valid(completion_entries(&*old(completions))),
            *old(self) !is Completed,
        ensures
            final(self).valid(completion_entries(&*final(completions))),
            over <==> after_completion(
                old(self).cycle(completion_entries(&*old(completions))),
                cqe,
            ) is None,
            !over ==> after_completion(
                old(self).cycle(completion_entries(&*old(completions))),
                cqe,
            ) == Some(final(self).cycle(completion_entries(&*final(completions)))),
            over ==> *final(self) is Ignored,
            over <==> *old(self) is Ignored && cqe.flags & 2 == 0,
            (*old(self) is Submitted || *old(self) is Waiting) && cqe.flags & 2 == 0
                ==> *final(self) == Lifecycle::Completed(cqe),
            (*old(self) is Submitted || *old(self) is Waiting) && cqe.flags & 2 != 0 ==> {
                &&& *final(self) is CompletionList
                &&& final(self)->CompletionList_0.contents(
                    completion_entries(&*final(completions)),
                ) == seq![cqe]
            },
            *old(self) is Ignored ==> *final(self) is Ignored,
            *old(self) is CompletionList ==> {
                &&& *final(self) is CompletionList
                &&& final(self)->CompletionList_0.contents(
                    completion_entries(&*final(completions)),
                ) == old(self)->CompletionList_0.contents(
                    completion_entries(&*old(completions)),
                ).push(cqe)
            },
            *final(self) !is CompletionList ==> completion_entries(&*final(completions))
                == completion_entries(&*old(completions)),
            completes_own(
                *old(self),
                *final(self),
                completion_entries(&*old(completions)),
                completion_entries(&*final(completions)),
            ),
    {
        match *self {
            Lifecycle::Submitted | Lifecycle::Waiting => {
                if io_uring::cqueue::more(cqe.flags) {
                    let list = ListIndices::new(completions, cqe);
                    proof {
                        assert forall|key: usize| list.keys().contains(key) implies key
                            == list.keys()[0] by {}
                    }
                    *self = Lifecycle::CompletionList(list);
                } else {
                    *self = Lifecycle::Completed(cqe);
                }
                false
            },
            Lifecycle::Ignored => !io_uring::cqueue::more(cqe.flags),
            // A finished operation gets no completion.
            Lifecycle::Completed(_) => false,
            Lifecycle::CompletionList(list) => {
                let mut list = list;
                let ghost keys = list.keys();
                list.push(completions, cqe);
                proof {
                    assert(list.keys() =~= keys.push(list.keys().last()));
                    assert forall|key: usize| keys.contains(key) implies list.keys().contains(
                        key,
                    ) by {
                        let i = choose|i: int| 0 <= i < keys.len() && keys[i] == key;
                        assert(list.keys()[i] == key);
                    }
                    assert(list.keys().contains(list.keys().last())) by {
                        assert(list.keys()[keys.len() as int] == list.keys().last());
                    }
                }
                *self = Lifecycle::CompletionList(list);
                false
            },
        }
    }
}

/// A step from `old_cycle` to `new_cycle` touches no completion but the operation's own: it
/// keeps those it had, what it adds was free before, and no completion is lost.
pub open spec fn completes_own(
    old_cycle: Lifecycle,
    new_cycle: Lifecycle,
    before: Map<usize, Completion>,
    after: Map<usize, Completion>,
) -> bool {
    &&& same_but(before, after, new_cycle.keys().to_set())
    &&& forall|key: usize| #[trigger] old_cycle.keys().contains(key) ==> new_cycle.keys().contains(key)
    &&& forall|key: usize| #[trigger]
        new_cycle.keys().contains(key) ==> old_cycle.keys().contains(key)
            || !before.contains_key(key)
    &&& forall|key: usize| #[trigger]
        after.contains_key(key) ==> before.contains_key(key) || new_cycle.keys().contains(key)
    &&& forall|key: usize| #[trigger]
        before.contains_key(key) ==> after.contains_key(key) && after[key].cqe
            == before[key].cqe
}

} // verus!
