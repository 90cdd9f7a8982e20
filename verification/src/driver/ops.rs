//! The operations in flight.

use slab::Slab;
use vstd::prelude::*;

use crate::driver::completion::{
    lemma_occupied, lemma_untouched, same_but, Completion, CqeResult,
};
use crate::driver::op::{after_completion, completes_own, settled_cycle, Cycle, Lifecycle};
use crate::driver::slabs::{
    completion_entries, insert_lifecycle, lifecycle_at, lifecycle_at_mut, lifecycle_count,
    lifecycle_entries, lifecycle_keys, new_completions, new_lifecycles, no_lifecycles,
    remove_lifecycle,
};

verus! {

/// The operations in flight, each under the key that its submission carries.
pub struct Ops {
    lifecycle: Slab<Lifecycle>,
    /// Received but unserviced completions.
    completions: Slab<Completion>,
}

/// There are finitely many operations, every operation's completions are in `received`, and
/// no two operations share one.
pub open spec fn well_formed(
    cycles: Map<usize, Lifecycle>,
    received: Map<usize, Completion>,
) -> bool {
    &&& cycles.dom().finite()
    &&& forall|key: usize| #[trigger] cycles.contains_key(key) ==> key < usize::MAX
    &&& forall|key: usize| #[trigger] cycles.contains_key(key) ==> cycles[key].valid(received)
    &&& forall|first: usize, second: usize, entry: usize|
        #![trigger cycles[first].keys().contains(entry), cycles[second].keys().contains(entry)]
        cycles.contains_key(first) && cycles.contains_key(second)
            && cycles[first].keys().contains(entry) && cycles[second].keys().contains(entry)
            ==> first == second
}

/// Every received completion belongs to an operation.
pub open spec fn leak_free(
    cycles: Map<usize, Lifecycle>,
    received: Map<usize, Completion>,
) -> bool {
    forall|entry: usize| #[trigger]
        received.contains_key(entry) ==> owned(cycles, entry)
}

/// Some operation holds the completion under `entry`.
pub open spec fn owned(cycles: Map<usize, Lifecycle>, entry: usize) -> bool {
    exists|key: usize|
        #![trigger cycles[key]]
        cycles.contains_key(key) && cycles[key].keys().contains(entry)
}

/// One of the operations under `keys` holds the completion under `entry`.
pub open spec fn held(cycles: Map<usize, Lifecycle>, keys: Set<usize>, entry: usize) -> bool {
    exists|key: usize|
        #![trigger cycles[key]]
        keys.contains(key) && cycles.contains_key(key) && cycles[key].keys().contains(entry)
}

/// The completions that no operation holds.
pub open spec fn unowned(
    cycles: Map<usize, Lifecycle>,
    received: Map<usize, Completion>,
) -> Map<usize, Completion> {
    received.remove_keys(Set::new(|entry: usize| owned(cycles, entry)))
}

/// Completions have arrived for operations under `keys`, and for no others. The others are
/// left as they were. No completion in the slab is lost, and one that none of the operations
/// under `keys` holds is left as it was. What is new in the slab belongs to one of them. An
/// operation keeps the completions that it holds, and those that it gains are new.
pub open spec fn completes_only(
    cycles: Map<usize, Lifecycle>,
    received: Map<usize, Completion>,
    next_cycles: Map<usize, Lifecycle>,
    next_received: Map<usize, Completion>,
    keys: Set<usize>,
) -> bool {
    &&& forall|key: usize|
        #![trigger cycles.contains_key(key)]
        #![trigger next_cycles.contains_key(key)]
        !keys.contains(key) ==> {
            &&& cycles.contains_key(key) == next_cycles.contains_key(key)
            &&& cycles.contains_key(key) ==> next_cycles[key] == cycles[key]
        }
    &&& forall|entry: usize| #[trigger]
        received.contains_key(entry) ==> next_received.contains_key(entry)
            && next_received[entry].cqe == received[entry].cqe
    &&& forall|entry: usize| #[trigger]
        received.contains_key(entry) && !held(cycles, keys, entry) ==> next_received[entry]
            == received[entry]
    &&& forall|entry: usize| #[trigger]
        next_received.contains_key(entry) ==> received.contains_key(entry) || held(
            next_cycles,
            keys,
            entry,
        )
    &&& forall|key: usize, entry: usize|
        #![trigger cycles[key].keys().contains(entry)]
        cycles.contains_key(key) && cycles[key].keys().contains(entry)
            ==> next_cycles.contains_key(key) && next_cycles[key].keys().contains(entry)
    &&& forall|key: usize, entry: usize|
        #![trigger next_cycles[key].keys().contains(entry)]
        next_cycles.contains_key(key) && next_cycles[key].keys().contains(entry)
            && received.contains_key(entry) ==> cycles.contains_key(key)
            && cycles[key].keys().contains(entry)
}

/// The operations with their completions read from `received`.
pub open spec fn cycles_with(
    cycles: Map<usize, Lifecycle>,
    received: Map<usize, Completion>,
) -> Map<usize, Cycle> {
    Map::new(|key: usize| cycles.contains_key(key), |key: usize| cycles[key].cycle(received))
}

/// The operations after `cqe` has arrived for the one under `index`.
pub open spec fn completed(
    ops: Map<usize, Cycle>,
    index: usize,
    cqe: CqeResult,
) -> Map<usize, Cycle> {
    match after_completion(ops[index], cqe) {
        Some(cycle) => ops.insert(index, cycle),
        None => ops.remove(index),
    }
}

/// Whether the operation under `index` can take a completion: there is one, and it has not
/// finished.
pub open spec fn can_complete(ops: Map<usize, Cycle>, index: usize) -> bool {
    ops.contains_key(index) && ops[index] !is Completed
}

/// Every operation has finished or is to be cancelled.
pub open spec fn settled(ops: Map<usize, Cycle>) -> bool {
    forall|key: usize| #[trigger]
        ops.contains_key(key) ==> ops[key] is Completed || ops[key] is Ignored
}

/// The operations when the driver shuts down: each has finished or is to be cancelled.
pub open spec fn settle(ops: Map<usize, Cycle>) -> Map<usize, Cycle> {
    ops.map_values(|cycle: Cycle| settled_cycle(cycle))
}

/// `targets` lists the keys of the ignored operations, each once, in ascending order.
pub open spec fn lists_ignored(targets: Seq<usize>, ops: Map<usize, Cycle>) -> bool {
    &&& forall|i: int, j: int| 0 <= i < j < targets.len() ==> targets[i] < targets[j]
    &&& forall|key: usize| #[trigger]
        targets.contains(key) <==> ops.contains_key(key) && ops[key] is Ignored
}

/// The operations whose keys are not below `id`.
pub open spec fn from_key(ops: Map<usize, Cycle>, id: usize) -> Map<usize, Cycle> {
    Map::new(|key: usize| ops.contains_key(key) && id <= key, |key: usize| ops[key])
}

/// No operation has a key below `id`.
pub open spec fn none_below(ops: Map<usize, Cycle>, id: usize) -> bool {
    forall|key: usize| #[trigger] ops.contains_key(key) ==> id <= key
}

/// No ignored operation has a key below `id`.
pub open spec fn none_ignored_below(ops: Map<usize, Cycle>, id: int) -> bool {
    forall|key: usize| #[trigger] ops.contains_key(key) && key < id ==> ops[key] !is Ignored
}

impl View for Ops {
    type V = Map<usize, Cycle>;

    open spec fn view(&self) -> Map<usize, Cycle> {
        cycles_with(self.cycles(), self.received())
    }
}

impl Ops {
    /// The lifecycles in the slab, by key.
    pub closed spec fn cycles(&self) -> Map<usize, Lifecycle> {
        lifecycle_entries(&self.lifecycle)
    }

    /// The completions in the slab, by key.
    pub closed spec fn received(&self) -> Map<usize, Completion> {
        completion_entries(&self.completions)
    }

    /// Every operation's completions are in the slab, and no two operations share one.
    pub open spec fn wf(&self) -> bool {
        well_formed(self.cycles(), self.received())
    }

    /// Every completion in the slab belongs to an operation.
    pub open spec fn leak_free(&self) -> bool {
        leak_free(self.cycles(), self.received())
    }

    /// No operations.
    pub fn new() -> (ops: Ops)
        ensures
            ops.wf(),
            ops.leak_free(),
            ops@ == Map::<usize, Cycle>::empty(),
            ops.cycles() == Map::<usize, Lifecycle>::empty(),
            ops.received() == Map::<usize, Completion>::empty(),
    {
        let ops = Ops { lifecycle: new_lifecycles(64), completions: new_completions(64) };
        assert(ops@ =~= Map::<usize, Cycle>::empty());
        assert(ops.cycles() =~= Map::<usize, Lifecycle>::empty());
        ops
    }

    /// The operation under `index`, with the slab that its completions stand in.
    pub fn get_mut(&mut self, index: usize) -> (found: Option<
        (&mut Lifecycle, &mut Slab<Completion>),
    >)
        ensures
            match found {
                Some((cycle, completions)) => {
                    &&& old(self).cycles().contains_key(index)
                    &&& *cycle == old(self).cycles()[index]
                    &&& completion_entries(&*completions) == old(self).received()
                    &&& final(self).cycles() == old(self).cycles().insert(index, *final(cycle))
                    &&& final(self).received() == completion_entries(&*final(completions))
                },
                None => {
                    &&& !old(self).cycles().contains_key(index)
                    &&& *final(self) == *old(self)
                },
            },
    {
        let completions = &mut self.completions;
        match lifecycle_at_mut(&mut self.lifecycle, index) {
            Some(cycle) => Some((cycle, completions)),
            None => None,
        }
    }

    /// Inserts a new operation and returns its key.
    pub fn insert(&mut self) -> (index: usize)
        requires
            old(self).wf(),
        ensures
            final(self).wf(),
            old(self).leak_free() ==> final(self).leak_free(),
            index < usize::MAX,
            !old(self)@.contains_key(index),
            final(self)@ == old(self)@.insert(index, Cycle::Submitted),
            final(self).cycles() == old(self).cycles().insert(index, Lifecycle::Submitted),
            final(self).received() == old(self).received(),
    {
        let index: usize = insert_lifecycle(&mut self.lifecycle, Lifecycle::Submitted);
        proof {
            assert(self@ =~= old(self)@.insert(index, Cycle::Submitted));
            lemma_still_owned(old(self).cycles(), self.cycles(), index);
        }
        index
    }

    /// Removes an operation. Completions that it still holds stay in the slab.
    pub fn remove(&mut self, index: usize)
        requires
            old(self).wf(),
            old(self)@.contains_key(index),
        ensures
            final(self).wf(),
            old(self).leak_free() && old(self)@[index] !is CompletionList
                ==> final(self).leak_free(),
            final(self)@ == old(self)@.remove(index),
            final(self).cycles() == old(self).cycles().remove(index),
            final(self).received() == old(self).received(),
    {
        remove_lifecycle(&mut self.lifecycle, index);
        proof {
            assert(self@ =~= old(self)@.remove(index));
            if old(self)@[index] !is CompletionList {
                lemma_still_owned(old(self).cycles(), self.cycles(), index);
            }
        }
    }

    /// Takes note of a completion of the operation under `index`, and removes the operation
    /// if that was the last one that it waited for.
    ///
    /// There is such an operation, and it has not finished.
    pub fn complete(&mut self, index: usize, cqe: CqeResult)
        requires
            old(self).wf(),
            old(self)@.contains_key(index),
            old(self)@[index] !is Completed,
        ensures
            final(self).wf(),
            old(self).leak_free() ==> final(self).leak_free(),
            final(self)@ == completed(old(self)@, index, cqe),
            completes_only(
                old(self).cycles(),
                old(self).received(),
                final(self).cycles(),
                final(self).received(),
                set![index],
            ),
            !(final(self)@.contains_key(index) && final(self)@[index] is CompletionList)
                ==> final(self).received() == old(self).received(),
            final(self).cycles().contains_key(index) <==> !(old(self).cycles()[index] is Ignored
                && cqe.flags & 2 == 0),
            (old(self).cycles()[index] is Submitted || old(self).cycles()[index] is Waiting)
                && cqe.flags & 2 == 0 ==> final(self).cycles()[index] == Lifecycle::Completed(cqe),
            (old(self).cycles()[index] is Submitted || old(self).cycles()[index] is Waiting)
                && cqe.flags & 2 != 0 ==> final(self)@[index] == Cycle::CompletionList(seq![cqe]),
            old(self).cycles()[index] is Ignored && cqe.flags & 2 != 0
                ==> final(self).cycles()[index] is Ignored,
            old(self).cycles()[index] is CompletionList ==> final(self)@[index]
                == Cycle::CompletionList(old(self)@[index]->CompletionList_0.push(cqe)),
            forall|other: usize|
                #![trigger final(self).cycles().contains_key(other)]
                other != index ==> {
                    &&& final(self).cycles().contains_key(other) == old(
                        self,
                    ).cycles().contains_key(other)
                    &&& old(self).cycles().contains_key(other) ==> final(self).cycles()[other]
                        == old(self).cycles()[other]
                },
            forall|entry: usize| #[trigger]
                old(self).received().contains_key(entry) ==> {
                    &&& final(self).received().contains_key(entry)
                    &&& final(self).received()[entry].cqe == old(self).received()[entry].cqe
                },
    {
        let ghost cycles = self.cycles();
        let ghost received = self.received();
        let mut over = false;
        if let Some((cycle, completions)) = self.get_mut(index) {
            over = cycle.complete(completions, cqe);
        }
        proof {
            lemma_completes_own(
                cycles,
                received,
                index,
                self.cycles()[index],
                self.received(),
            );
        }
        let ghost cycle = self.cycles()[index];
        if over {
            self.remove(index);
        }
        proof {
            assert(cycles.insert(index, cycle).remove(index) =~= cycles.remove(index));
            lemma_completes_only(
                cycles,
                received,
                index,
                cycle,
                over,
                self.cycles(),
                self.received(),
            );
            if cycle !is CompletionList {
                assert(self.received() =~= received);
            }
            assert(self@ =~= completed(old(self)@, index, cqe));
        }
    }

    /// The number of operations.
    pub fn len(&self) -> (count: usize)
        ensures
            count == self@.dom().len(),
            count == self.cycles().dom().len(),
    {
        proof {
            assert(self@.dom() =~= self.cycles().dom());
        }
        lifecycle_count(&self.lifecycle)
    }

    /// Whether there are no operations.
    pub fn is_empty(&self) -> (empty: bool)
        ensures
            empty == (self@ == Map::<usize, Cycle>::empty()),
            empty == (self.cycles().dom() == Set::<usize>::empty()),
    {
        proof {
            assert(self@.dom() =~= self.cycles().dom());
            if self.cycles().dom() == Set::<usize>::empty() {
                assert(self@ =~= Map::<usize, Cycle>::empty());
            }
        }
        no_lifecycles(&self.lifecycle)
    }

    /// Whether the operation under `index` can take a completion.
    pub fn can_complete(&self, index: usize) -> (able: bool)
        ensures
            able == can_complete(self@, index),
            able <==> self.cycles().contains_key(index) && self.cycles()[index] !is Completed,
    {
        match lifecycle_at(&self.lifecycle, index) {
            Some(Lifecycle::Completed(_)) => false,
            Some(_) => true,
            None => false,
        }
    }

    /// Whether every operation has finished.
    pub fn all_completed(&self) -> (all: bool)
        ensures
            all <==> forall|key: usize| #[trigger]
                self@.contains_key(key) ==> self@[key] is Completed,
            all <==> forall|key: usize| #[trigger]
                self.cycles().contains_key(key) ==> self.cycles()[key] is Completed,
    {
        let keys = lifecycle_keys(&self.lifecycle);
        let mut i: usize = 0;
        while i < keys.len()
            invariant
                i <= keys.len(),
                forall|key: usize| #[trigger]
                    keys@.contains(key) <==> lifecycle_entries(&self.lifecycle).contains_key(key),
                forall|j: int| 0 <= j < i ==> self@[#[trigger] keys@[j]] is Completed,
            decreases keys.len() - i,
        {
            assert(keys@.contains(keys@[i as int]));
            match lifecycle_at(&self.lifecycle, keys[i]) {
                Some(Lifecycle::Completed(_)) => {},
                _ => {
                    assert(self@.contains_key(keys@[i as int]));
                    assert(self.cycles().contains_key(keys@[i as int]));
                    return false;
                },
            }
            i = i + 1;
        }
        assert forall|key: usize| #[trigger]
            self@.contains_key(key) implies self@[key] is Completed by {
            assert(keys@.contains(key));
        }
        assert forall|key: usize| #[trigger]
            self.cycles().contains_key(key) implies self.cycles()[key] is Completed by {
            assert(self@.contains_key(key));
        }
        true
    }

    /// Settles the operation under `key`: unless it has finished, it is to be cancelled. The
    /// completions that it holds are dropped.
    fn settle_one(&mut self, key: usize)
        requires
            old(self).wf(),
            old(self)@.contains_key(key),
        ensures
            final(self).wf(),
            old(self).leak_free() ==> final(self).leak_free(),
            final(self)@ == old(self)@.insert(key, settled_cycle(old(self)@[key])),
            forall|other: usize|
                other != key && #[trigger] old(self).cycles().contains_key(other)
                    ==> final(self).cycles()[other] == old(self).cycles()[other],
            final(self).received() == old(self).received().remove_keys(
                old(self).cycles()[key].keys().to_set(),
            ),
    {
        let ghost cycles = self.cycles();
        let ghost received = self.received();
        if let Some((cycle, completions)) = self.get_mut(key) {
            match *cycle {
                Lifecycle::Completed(_) => {
                    // A finished operation is not cancelled.
                },
                Lifecycle::CompletionList(list) => {
                    let last = list.peek_end(completions);
                    list.discard(completions);
                    if io_uring::cqueue::more(last.flags) {
                        *cycle = Lifecycle::Ignored;
                    } else {
                        // The operation is over. A null result takes the place of its list.
                        *cycle = Lifecycle::Completed(CqeResult { result: Ok(0), flags: 0 });
                    }
                },
                _ => {
                    *cycle = Lifecycle::Ignored;
                },
            }
        }
        proof {
            assert(self.received() =~= received.remove_keys(cycles[key].keys().to_set()));
            lemma_releases(cycles, received, key, self.cycles()[key], self.received());
            assert(self@ =~= old(self)@.insert(key, settled_cycle(old(self)@[key])));
        }
    }

    /// Settles every operation: afterwards each has finished or is marked as ignored, to be
    /// cancelled. The completions that they hold are dropped.
    pub fn settle(&mut self)
        requires
            old(self).wf(),
        ensures
            final(self).wf(),
            old(self).leak_free() ==> final(self).leak_free(),
            final(self)@ == settle(old(self)@),
            final(self).received() == unowned(old(self).cycles(), old(self).received()),
            forall|key: usize| #[trigger]
                final(self)@.contains_key(key) <==> old(self)@.contains_key(key),
            forall|key: usize| #[trigger]
                old(self)@.contains_key(key) ==> match old(self)@[key] {
                    Cycle::Completed(cqe) => final(self)@[key] == Cycle::Completed(cqe),
                    Cycle::CompletionList(seen) => if seen.last().flags & 2 == 0 {
                        final(self)@[key] == Cycle::Completed(
                            CqeResult { result: Ok(0), flags: 0 },
                        )
                    } else {
                        final(self)@[key] == Cycle::Ignored
                    },
                    _ => final(self)@[key] == Cycle::Ignored,
                },
            forall|entry: usize| #[trigger]
                final(self).received().contains_key(entry) <==> old(self).received().contains_key(
                    entry,
                ) && forall|key: usize| #[trigger]
                    old(self).cycles().contains_key(key) ==> !old(
                        self,
                    ).cycles()[key].keys().contains(entry),
    {
        let keys = lifecycle_keys(&self.lifecycle);
        let mut i: usize = 0;
        proof {
            assert(self.received() =~= self.received().remove_keys(
                Set::new(|entry: usize| held_before(old(self).cycles(), keys@, 0, entry)),
            ));
        }
        while i < keys.len()
            invariant
                i <= keys.len(),
                forall|j: int, k: int| 0 <= j < k < keys@.len() ==> keys@[j] < keys@[k],
                forall|key: usize| #[trigger]
                    keys@.contains(key) <==> old(self)@.contains_key(key),
                self.wf(),
                old(self).leak_free() ==> self.leak_free(),
                self@.dom() == old(self)@.dom(),
                forall|j: int|
                    0 <= j < i ==> self@[#[trigger] keys@[j]] == settled_cycle(old(self)@[keys@[j]]),
                forall|j: int|
                    i <= j < keys@.len() ==> self@[#[trigger] keys@[j]] == old(self)@[keys@[j]],
                forall|j: int|
                    i <= j < keys@.len() ==> self.cycles()[#[trigger] keys@[j]] == old(
                        self,
                    ).cycles()[keys@[j]],
                self.received() == old(self).received().remove_keys(
                    Set::new(
                        |entry: usize| held_before(old(self).cycles(), keys@, i as int, entry),
                    ),
                ),
            decreases keys.len() - i,
        {
            assert(keys@.contains(keys@[i as int]));
            proof {
                assert forall|j: int| i < j < keys@.len() implies self.cycles().contains_key(
                    #[trigger] keys@[j],
                ) by {
                    assert(keys@.contains(keys@[j]));
                    assert(self@.contains_key(keys@[j]));
                }
            }
            self.settle_one(keys[i]);
            proof {
                let cycles = old(self).cycles();
                assert forall|entry: usize| #[trigger] held_before(
                    cycles,
                    keys@,
                    i + 1,
                    entry,
                ) == (held_before(cycles, keys@, i as int, entry) || cycles[keys@[i as int]].keys().contains(
                    entry,
                )) by {
                    lemma_held_before(cycles, keys@, i as int, entry);
                }
                assert(self.received() =~= old(self).received().remove_keys(
                    Set::new(|entry: usize| held_before(cycles, keys@, i + 1, entry)),
                ));
            }
            i = i + 1;
        }
        proof {
            assert forall|entry: usize| held_before(
                old(self).cycles(),
                keys@,
                keys@.len() as int,
                entry,
            ) == #[trigger] owned(old(self).cycles(), entry) by {
                lemma_held_before_all(old(self).cycles(), keys@, entry);
            }
            assert(self.received() =~= unowned(old(self).cycles(), old(self).received()));
            assert forall|key: usize| #[trigger] self@.contains_key(key) implies self@[key]
                == settled_cycle(old(self)@[key]) by {
                assert(keys@.contains(key));
            }
            assert(self@ =~= settle(old(self)@));
        }
    }

    /// The keys of the ignored operations, in ascending order.
    pub fn ignored(&self) -> (targets: Vec<usize>)
        ensures
            lists_ignored(targets@, self@),
            forall|i: int, j: int| 0 <= i < j < targets@.len() ==> targets@[i] < targets@[j],
            forall|key: usize| #[trigger]
                targets@.contains(key) <==> self.cycles().contains_key(key)
                    && self.cycles()[key] is Ignored,
    {
        let keys = lifecycle_keys(&self.lifecycle);
        let mut targets: Vec<usize> = Vec::new();
        let mut i: usize = 0;
        while i < keys.len()
            invariant
                i <= keys.len(),
                forall|j: int, k: int| 0 <= j < k < keys@.len() ==> keys@[j] < keys@[k],
                forall|key: usize| #[trigger]
                    keys@.contains(key) <==> self@.contains_key(key),
                forall|j: int, k: int| 0 <= j < k < targets@.len() ==> targets@[j] < targets@[k],
                forall|j: int| 0 <= j < targets@.len() ==> {
                    &&& self@.contains_key(#[trigger] targets@[j])
                    &&& self@[targets@[j]] is Ignored
                    &&& i < keys@.len() ==> targets@[j] < keys@[i as int]
                },
                forall|j: int|
                    0 <= j < i && self@[#[trigger] keys@[j]] is Ignored ==> targets@.contains(
                        keys@[j],
                    ),
            decreases keys.len() - i,
        {
            let key: usize = keys[i];
            assert(keys@.contains(key));
            let ghost listed = targets@;
            if let Some(Lifecycle::Ignored) = lifecycle_at(&self.lifecycle, key) {
                targets.push(key);
                proof {
                    assert(targets@[listed.len() as int] == key);
                    assert forall|earlier: usize| listed.contains(earlier) implies targets@.contains(
                        earlier,
                    ) by {
                        let j = choose|j: int| 0 <= j < listed.len() && listed[j] == earlier;
                        assert(targets@[j] == earlier);
                    }
                }
            }
            i = i + 1;
        }
        assert forall|key: usize|
            self@.contains_key(key) && self@[key] is Ignored implies targets@.contains(key) by {
            assert(keys@.contains(key));
        }
        targets
    }

    /// Removes the operations from `id` on, up to the first that is ignored. Returns the key
    /// of that one, or `None` when no operation is left.
    pub fn drain(&mut self, id: usize) -> (blocked: Option<usize>)
        requires
            old(self).wf(),
            none_below(old(self)@, id),
        ensures
            final(self).wf(),
            old(self).leak_free() && settled(old(self)@) ==> final(self).leak_free(),
            final(self).received() == old(self).received(),
            forall|key: usize| #[trigger]
                final(self).cycles().contains_key(key) ==> old(self).cycles().contains_key(key)
                    && final(self).cycles()[key] == old(self).cycles()[key],
            match blocked {
                Some(at) => {
                    &&& old(self)@.contains_key(at)
                    &&& old(self)@[at] is Ignored
                    &&& none_ignored_below(old(self)@, at as int)
                    &&& final(self)@ == from_key(old(self)@, at)
                },
                None => {
                    &&& none_ignored_below(old(self)@, usize::MAX as int)
                    &&& final(self)@ == Map::<usize, Cycle>::empty()
                },
            },
            match blocked {
                Some(at) => {
                    &&& old(self).cycles().contains_key(at)
                    &&& old(self).cycles()[at] is Ignored
                    &&& forall|key: usize| #[trigger]
                        old(self).cycles().contains_key(key) && key < at
                            ==> old(self).cycles()[key] !is Ignored
                    &&& forall|key: usize| #[trigger]
                        final(self).cycles().contains_key(key) <==> old(
                            self,
                        ).cycles().contains_key(key) && at <= key
                },
                None => {
                    &&& final(self).cycles().dom() == Set::<usize>::empty()
                    &&& forall|key: usize| #[trigger]
                        old(self).cycles().contains_key(key) ==> old(self).cycles()[key] !is Ignored
                },
            },
    {
        proof {
            assert(from_key(old(self)@, id) =~= old(self)@);
        }
        let mut id: usize = id;
        loop
            invariant
                self.wf(),
                old(self).wf(),
                old(self).leak_free() && settled(old(self)@) ==> self.leak_free(),
                self.received() == old(self).received(),
                forall|key: usize| #[trigger]
                    self.cycles().contains_key(key) ==> old(self).cycles().contains_key(key)
                        && self.cycles()[key] == old(self).cycles()[key],
                self@ == from_key(old(self)@, id),
                none_ignored_below(old(self)@, id as int),
            decreases usize::MAX - id,
        {
            if no_lifecycles(&self.lifecycle) {
                proof {
                    assert(self@ =~= Map::<usize, Cycle>::empty());
                    assert forall|key: usize| #[trigger] old(self)@.contains_key(key) implies old(
                        self,
                    )@[key] !is Ignored by {
                        assert(old(self).cycles().contains_key(key));
                        assert(!self@.contains_key(key));
                    }
                    assert forall|key: usize| #[trigger] old(self).cycles().contains_key(
                        key,
                    ) implies old(self).cycles()[key] !is Ignored by {
                        assert(old(self)@.contains_key(key));
                    }
                }
                return None;
            }
            proof {
                // Some operation is left, and its key is not below `id`.
                let key = self.cycles().dom().choose();
                assert(self.cycles().contains_key(key)) by {
                    if forall|other: usize| !self.cycles().dom().contains(other) {
                        assert(self.cycles().dom() =~= Set::<usize>::empty());
                    }
                }
                assert(self@.contains_key(key));
            }
            let (occupied, ignored) = match lifecycle_at(&self.lifecycle, id) {
                Some(Lifecycle::Ignored) => (true, true),
                Some(_) => (true, false),
                None => (false, false),
            };
            proof {
                assert(occupied == old(self)@.contains_key(id)) by {
                    assert(occupied == self@.contains_key(id));
                }
                assert(occupied ==> self@[id] == old(self)@[id]);
            }
            if ignored {
                proof {
                    assert(old(self)@.contains_key(id));
                    assert forall|key: usize| #[trigger] old(self).cycles().contains_key(key)
                        && key < id implies old(self).cycles()[key] !is Ignored by {
                        assert(old(self)@.contains_key(key));
                    }
                    assert forall|key: usize| #[trigger] self.cycles().contains_key(key) == (old(
                        self,
                    ).cycles().contains_key(key) && id <= key) by {
                        assert(self@.contains_key(key) == from_key(old(self)@, id).contains_key(key));
                    }
                }
                return Some(id);
            }
            if occupied {
                self.remove(id);
            }
            id = id + 1;
            proof {
                assert(self@ =~= from_key(old(self)@, id));
            }
        }
    }
}

/// Replacing the operation under `index` leaves all the others as they were, where neither
/// what it touches nor what it holds afterwards belongs to another operation.
proof fn lemma_replace(
    cycles: Map<usize, Lifecycle>,
    received: Map<usize, Completion>,
    index: usize,
    cycle: Lifecycle,
    after: Map<usize, Completion>,
    touched: Set<usize>,
)
    requires
        well_formed(cycles, received),
        cycles.contains_key(index),
        cycle.valid(after),
        same_but(received, after, touched),
        forall|key: usize, entry: usize|
            #![trigger cycles[key].keys().contains(entry)]
            cycles.contains_key(key) && key != index && cycles[key].keys().contains(entry)
                ==> !touched.contains(entry) && !cycle.keys().contains(entry),
    ensures
        well_formed(cycles.insert(index, cycle), after),
        cycles_with(cycles.insert(index, cycle), after) == cycles_with(cycles, received).insert(
            index,
            cycle.cycle(after),
        ),
{
    let replaced = cycles.insert(index, cycle);
    assert forall|key: usize| #[trigger]
        replaced.contains_key(key) && key != index implies replaced[key].valid(after)
        && replaced[key].cycle(after) == cycles[key].cycle(received) by {
        assert(cycles.contains_key(key));
        if let Lifecycle::CompletionList(list) = cycles[key] {
            assert forall|entry: usize| #[trigger]
                list.keys().contains(entry) implies !touched.contains(entry) by {
                assert(cycles[key].keys().contains(entry));
            }
            lemma_untouched(list, received, after, touched);
        }
    }
    assert(cycles_with(replaced, after) =~= cycles_with(cycles, received).insert(
        index,
        cycle.cycle(after),
    ));
}

/// A step that touches only the operation's own completions keeps the whole well-formed.
proof fn lemma_completes_own(
    cycles: Map<usize, Lifecycle>,
    received: Map<usize, Completion>,
    index: usize,
    cycle: Lifecycle,
    after: Map<usize, Completion>,
)
    requires
        well_formed(cycles, received),
        cycles.contains_key(index),
        cycle.valid(after),
        completes_own(cycles[index], cycle, received, after),
    ensures
        well_formed(cycles.insert(index, cycle), after),
        cycles_with(cycles.insert(index, cycle), after) == cycles_with(cycles, received).insert(
            index,
            cycle.cycle(after),
        ),
        leak_free(cycles, received) ==> leak_free(cycles.insert(index, cycle), after),
{
    assert forall|key: usize, entry: usize|
        #![trigger cycles[key].keys().contains(entry)]
        cycles.contains_key(key) && key != index && cycles[key].keys().contains(
            entry,
        ) implies !cycle.keys().contains(entry) by {
        if let Lifecycle::CompletionList(list) = cycles[key] {
            lemma_occupied(list, received);
        }
    }
    lemma_replace(cycles, received, index, cycle, after, cycle.keys().to_set());
    if leak_free(cycles, received) {
        let replaced = cycles.insert(index, cycle);
        assert forall|entry: usize| #[trigger] after.contains_key(entry) implies owned(
            replaced,
            entry,
        ) by {
            if cycle.keys().contains(entry) {
                assert(replaced[index].keys().contains(entry));
            } else {
                assert(received.contains_key(entry));
                let key = choose|key: usize|
                    #![trigger cycles[key]]
                    cycles.contains_key(key) && cycles[key].keys().contains(entry);
                assert(replaced.contains_key(key) && replaced[key] == cycles[key]);
            }
        }
    }
}

/// A step that touches only the operation's own completions leaves all others alone, also
/// where the operation, which then holds none, is over and removed.
proof fn lemma_completes_only(
    cycles: Map<usize, Lifecycle>,
    received: Map<usize, Completion>,
    index: usize,
    cycle: Lifecycle,
    over: bool,
    next_cycles: Map<usize, Lifecycle>,
    next_received: Map<usize, Completion>,
)
    requires
        cycles.contains_key(index),
        completes_own(cycles[index], cycle, received, next_received),
        over ==> cycle.keys().len() == 0,
        next_cycles == (if over {
            cycles.remove(index)
        } else {
            cycles.insert(index, cycle)
        }),
    ensures
        completes_only(cycles, received, next_cycles, next_received, set![index]),
{
    let keys = set![index];
    assert forall|entry: usize| #[trigger] received.contains_key(entry) && !held(
        cycles,
        keys,
        entry,
    ) implies next_received[entry] == received[entry] by {
        if cycle.keys().contains(entry) {
            assert(cycles[index].keys().contains(entry));
        }
    }
    assert forall|entry: usize| #[trigger] next_received.contains_key(
        entry,
    ) implies received.contains_key(entry) || held(next_cycles, keys, entry) by {
        if !received.contains_key(entry) {
            assert(cycle.keys().contains(entry));
            assert(next_cycles[index].keys().contains(entry));
        }
    }
}

/// Where completions arrive for operations under `keys`, and then for the one under `index`,
/// they have arrived for operations under `more`, which has all of these.
pub(crate) proof fn lemma_completes_one_more(
    before: Ops,
    between: Ops,
    after: Ops,
    keys: Set<usize>,
    index: usize,
    more: Set<usize>,
)
    requires
        completes_only(
            before.cycles(),
            before.received(),
            between.cycles(),
            between.received(),
            keys,
        ),
        completes_only(
            between.cycles(),
            between.received(),
            after.cycles(),
            after.received(),
            set![index],
        ),
        keys.subset_of(more),
        more.contains(index),
    ensures
        completes_only(
            before.cycles(),
            before.received(),
            after.cycles(),
            after.received(),
            more,
        ),
{
    let first = before.cycles();
    let second = between.cycles();
    let third = after.cycles();
    assert forall|entry: usize| #[trigger] before.received().contains_key(entry) && !held(
        first,
        more,
        entry,
    ) implies after.received()[entry] == before.received()[entry] by {
        if held(second, set![index], entry) {
            assert(second[index].keys().contains(entry));
            assert(first[index].keys().contains(entry));
        }
        if held(first, keys, entry) {
            let key = choose|key: usize|
                #![trigger first[key]]
                keys.contains(key) && first.contains_key(key) && first[key].keys().contains(entry);
            assert(more.contains(key));
        }
        assert(between.received().contains_key(entry));
    }
    assert forall|entry: usize| #[trigger] after.received().contains_key(
        entry,
    ) implies before.received().contains_key(entry) || held(third, more, entry) by {
        if between.received().contains_key(entry) && !before.received().contains_key(entry) {
            let key = choose|key: usize|
                #![trigger second[key]]
                keys.contains(key) && second.contains_key(key) && second[key].keys().contains(
                    entry,
                );
            assert(third[key].keys().contains(entry));
        } else if !before.received().contains_key(entry) {
            assert(third[index].keys().contains(entry));
        }
    }
    assert forall|key: usize, entry: usize|
        #![trigger third[key].keys().contains(entry)]
        third.contains_key(key) && third[key].keys().contains(entry)
            && before.received().contains_key(entry) implies first.contains_key(key)
        && first[key].keys().contains(entry) by {
        assert(between.received().contains_key(entry));
        assert(second[key].keys().contains(entry));
    }
}

/// One of the first `count` of the operations under `keys` holds the completion under `entry`.
spec fn held_before(
    cycles: Map<usize, Lifecycle>,
    keys: Seq<usize>,
    count: int,
    entry: usize,
) -> bool {
    exists|j: int| 0 <= j < count && cycles[#[trigger] keys[j]].keys().contains(entry)
}

/// One operation more holds what the first hold, and its own.
proof fn lemma_held_before(
    cycles: Map<usize, Lifecycle>,
    keys: Seq<usize>,
    count: int,
    entry: usize,
)
    requires
        0 <= count < keys.len(),
    ensures
        held_before(cycles, keys, count + 1, entry) == (held_before(cycles, keys, count, entry)
            || cycles[keys[count]].keys().contains(entry)),
{
    if held_before(cycles, keys, count, entry) {
        let j = choose|j: int| 0 <= j < count && cycles[#[trigger] keys[j]].keys().contains(entry);
        assert(0 <= j < count + 1 && cycles[keys[j]].keys().contains(entry));
    }
    if cycles[keys[count]].keys().contains(entry) {
        assert(0 <= count < count + 1);
    }
}

/// What one of all operations holds is owned.
proof fn lemma_held_before_all(
    cycles: Map<usize, Lifecycle>,
    keys: Seq<usize>,
    entry: usize,
)
    requires
        forall|key: usize| #[trigger] keys.contains(key) <==> cycles.contains_key(key),
    ensures
        held_before(cycles, keys, keys.len() as int, entry) == owned(cycles, entry),
{
    if held_before(cycles, keys, keys.len() as int, entry) {
        let j = choose|j: int|
            0 <= j < keys.len() && cycles[#[trigger] keys[j]].keys().contains(entry);
        assert(keys.contains(keys[j]));
        assert(cycles.contains_key(keys[j]));
    }
    if owned(cycles, entry) {
        let key = choose|key: usize|
            #![trigger cycles[key]]
            cycles.contains_key(key) && cycles[key].keys().contains(entry);
        assert(keys.contains(key));
        let j = choose|j: int| 0 <= j < keys.len() && keys[j] == key;
        assert(cycles[keys[j]].keys().contains(entry));
    }
}

/// An operation that keeps its completions, or that drops them all, keeps the whole
/// well-formed.
proof fn lemma_releases(
    cycles: Map<usize, Lifecycle>,
    received: Map<usize, Completion>,
    index: usize,
    cycle: Lifecycle,
    after: Map<usize, Completion>,
)
    requires
        well_formed(cycles, received),
        cycles.contains_key(index),
        cycle.keys().len() == 0,
        cycle.valid(after),
        after == received.remove_keys(cycles[index].keys().to_set()),
    ensures
        well_formed(cycles.insert(index, cycle), after),
        cycles_with(cycles.insert(index, cycle), after) == cycles_with(cycles, received).insert(
            index,
            cycle.cycle(after),
        ),
        leak_free(cycles, received) ==> leak_free(cycles.insert(index, cycle), after),
{
    lemma_replace(cycles, received, index, cycle, after, cycles[index].keys().to_set());
    if leak_free(cycles, received) {
        let replaced = cycles.insert(index, cycle);
        assert forall|entry: usize| #[trigger] after.contains_key(entry) implies owned(
            replaced,
            entry,
        ) by {
            assert(received.contains_key(entry));
            let key = choose|key: usize|
                #![trigger cycles[key]]
                cycles.contains_key(key) && cycles[key].keys().contains(entry);
            assert(replaced.contains_key(key) && replaced[key] == cycles[key]);
        }
    }
}

/// An operation that holds no completion may come or go.
proof fn lemma_still_owned(
    cycles: Map<usize, Lifecycle>,
    after: Map<usize, Lifecycle>,
    index: usize,
)
    requires
        forall|key: usize|
            #![trigger cycles.contains_key(key)]
            key != index && cycles.contains_key(key) ==> after.contains_key(key) && after[key]
                == cycles[key],
        cycles.contains_key(index) ==> cycles[index].keys().len() == 0,
    ensures
        forall|entry: usize| #[trigger] owned(cycles, entry) ==> owned(after, entry),
{
    assert forall|entry: usize| #[trigger] owned(cycles, entry) implies owned(after, entry) by {
        let key = choose|key: usize|
            #![trigger cycles[key]]
            cycles.contains_key(key) && cycles[key].keys().contains(entry);
        assert(after.contains_key(key) && after[key] == cycles[key]);
    }
}

} // verus!
