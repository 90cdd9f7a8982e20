//! Completions that have arrived but that nobody has taken yet.
//!
//! An operation that reports more than once keeps its completions in a list. The lists of
//! all operations share one slab: each entry holds the key of the next one, and the
//! operation holds the keys of both ends.

use slab::Slab;
use vstd::prelude::*;

use crate::driver::slabs::{
    completion_at, completion_at_mut, completion_entries, insert_completion, remove_completion,
};

verus! {

/// A completion queue entry as it comes out of the ring.
#[derive(Clone, Copy, Debug, PartialEq, Eq, Structural)]
pub struct Cqe {
    /// The tag that the submission carried.
    pub user_data: u64,
    /// A count, or the negated error number.
    pub result: i32,
    /// The flags of the entry.
    pub flags: u32,
}

/// What a completion says of its operation.
#[derive(Clone, Copy, Debug, PartialEq, Eq)]
pub struct CqeResult {
    /// The count that the operation returned, or the error number it failed with.
    pub result: Result<u32, i32>,
    /// The flags of the completion queue entry.
    pub flags: u32,
}

/// The meaning of the result field of a completion queue entry: a count, or a negated error
/// number. The least `i32` has no negation and stands for itself.
pub open spec fn result_of(result: i32) -> Result<u32, i32> {
    if result >= 0 {
        Ok(result as u32)
    } else if result == i32::MIN {
        Err(i32::MIN)
    } else {
        Err((-result) as i32)
    }
}

/// What the entry `cqe` says of its operation.
pub open spec fn cqe_result(cqe: Cqe) -> CqeResult {
    CqeResult { result: result_of(cqe.result), flags: cqe.flags }
}

impl CqeResult {
    /// Reads what `cqe` says of its operation.
    pub fn from_cqe(cqe: Cqe) -> (read: CqeResult)
        ensures
            read == cqe_result(cqe),
            read.flags == cqe.flags,
            read.result is Ok <==> cqe.result >= 0,
            cqe.result >= 0 ==> read.result->Ok_0 as int == cqe.result as int,
            i32::MIN < cqe.result < 0 ==> read.result->Err_0 as int == -(cqe.result as int),
            cqe.result == i32::MIN ==> read.result == Err::<u32, i32>(i32::MIN),
    {
        let result = if cqe.result >= 0 {
            Ok(cqe.result as u32)
        } else if cqe.result == i32::MIN {
            Err(i32::MIN)
        } else {
            Err(-cqe.result)
        };
        CqeResult { result, flags: cqe.flags }
    }
}

/// A completion that is not negative is a success with exactly that count. A negative one is
/// a failure with the error number that it negates. The flags are those of the entry.
pub proof fn entries_are_read_faithfully(cqe: Cqe)
    ensures
        cqe_result(cqe).flags == cqe.flags,
        cqe_result(cqe).result is Ok <==> cqe.result >= 0,
        cqe.result >= 0 ==> cqe_result(cqe).result->Ok_0 as int == cqe.result as int,
        i32::MIN < cqe.result < 0 ==> cqe_result(cqe).result->Err_0 as int == -(
        cqe.result as int),
        cqe.result == i32::MIN ==> cqe_result(cqe).result == Err::<u32, i32>(i32::MIN),
{
}

/// Nothing that an entry says of its operation is lost in reading: entries that read the same
/// have the same result and the same flags.
pub proof fn entries_that_read_the_same_are_the_same(first: Cqe, second: Cqe)
    requires
        cqe_result(first) == cqe_result(second),
    ensures
        first.result == second.result,
        first.flags == second.flags,
{
}

/// A completion in the slab, with the key of the completion that came after it.
#[derive(Clone, Copy)]
pub struct Completion {
    pub cqe: CqeResult,
    pub next: usize,
}

/// The two ends of a list of completions.
#[derive(Clone, Copy)]
pub struct ListIndices {
    start: usize,
    end: usize,
    keys: Ghost<Seq<usize>>,
}

impl ListIndices {
    /// The keys of the list's entries, oldest first.
    pub closed spec fn keys(self) -> Seq<usize> {
        self.keys@
    }

    /// `entries` holds this list: it is not empty, its keys are distinct and occupied, and
    /// each entry but the last points to the one after it.
    pub closed spec fn valid(self, entries: Map<usize, Completion>) -> bool {
        let keys = self.keys@;
        &&& keys.len() > 0
        &&& keys.first() == self.start
        &&& keys.last() == self.end
        &&& keys.no_duplicates()
        &&& forall|i: int| 0 <= i < keys.len() ==> entries.contains_key(#[trigger] keys[i])
        &&& forall|i: int|
            0 <= i < keys.len() - 1 ==> entries[#[trigger] keys[i]].next == keys[i + 1]
    }

    /// The completions in the list, oldest first.
    pub open spec fn contents(self, entries: Map<usize, Completion>) -> Seq<CqeResult> {
        self.keys().map_values(|key: usize| entries[key].cqe)
    }

    /// A list that holds `cqe` alone. The entries of other lists are left as they are.
    pub fn new(completions: &mut Slab<Completion>, cqe: CqeResult) -> (list: ListIndices)
        ensures
            list.valid(completion_entries(&*final(completions))),
            list.contents(completion_entries(&*final(completions))) == seq![cqe],
            list.keys().len() == 1,
            completion_entries(&*final(completions))[list.keys()[0]].cqe == cqe,
            !completion_entries(&*old(completions)).contains_key(list.keys()[0]),
            same_but(
                completion_entries(&*old(completions)),
                completion_entries(&*final(completions)),
                list.keys().to_set(),
            ),
            completion_entries(&*final(completions)).dom() == completion_entries(
                &*old(completions),
            ).dom().union(list.keys().to_set()),
    {
        let key: usize = insert_completion(completions, Completion { cqe, next: usize::MAX });
        let ghost keys = Seq::<usize>::empty().push(key);
        proof {
            assert(keys[0] == key);
        }
        ListIndices { start: key, end: key, keys: Ghost(keys) }
    }

    /// Appends `cqe` to the list. The entries of other lists are left as they are.
    pub fn push(&mut self, completions: &mut Slab<Completion>, cqe: CqeResult)
        requires
            old(self).valid(completion_entries(&*old(completions))),
        ensures
            final(self).valid(completion_entries(&*final(completions))),
            final(self).contents(completion_entries(&*final(completions))) == old(self).contents(
                completion_entries(&*old(completions)),
            ).push(cqe),
            final(self).keys().drop_last() == old(self).keys(),
            final(self).keys().len() == old(self).keys().len() + 1,
            completion_entries(&*final(completions))[final(self).keys().last()].cqe == cqe,
            !completion_entries(&*old(completions)).contains_key(final(self).keys().last()),
            same_but(
                completion_entries(&*old(completions)),
                completion_entries(&*final(completions)),
                final(self).keys().to_set(),
            ),
            completion_entries(&*final(completions)).dom() == completion_entries(
                &*old(completions),
            ).dom().insert(final(self).keys().last()),
            forall|key: usize| #[trigger]
                completion_entries(&*old(completions)).contains_key(key)
                    ==> completion_entries(&*final(completions))[key].cqe == completion_entries(
                    &*old(completions),
                )[key].cqe,
    {
        let ghost before = completion_entries(completions);
        let ghost keys = self.keys@;
        let key: usize = insert_completion(completions, Completion { cqe, next: usize::MAX });
        if let Some(last) = completion_at_mut(completions, self.end) {
            last.next = key;
        }
        self.end = key;
        self.keys = Ghost(self.keys@.push(key));
        proof {
            let after = completion_entries(completions);
            let grown = self.keys@;
            assert(grown.drop_last() == keys);
            assert forall|i: int| 0 <= i < keys.len() implies after[keys[i]].cqe
                == before[keys[i]].cqe by {
                assert(before.contains_key(keys[i]));
            }
            assert(grown.to_set().contains(keys.last())) by {
                assert(grown[keys.len() - 1] == keys.last());
            }
            assert(grown.to_set().contains(key)) by {
                assert(grown[keys.len() as int] == key);
            }
            assert(self.contents(after) =~= old(self).contents(before).push(cqe));
        }
    }

    /// The newest completion in the list.
    pub fn peek_end(&self, completions: &Slab<Completion>) -> (cqe: CqeResult)
        requires
            self.valid(completion_entries(completions)),
        ensures
            cqe == self.contents(completion_entries(completions)).last(),
            cqe == completion_entries(completions)[self.keys().last()].cqe,
    {
        proof {
            let keys = self.keys@;
            assert(completion_entries(completions).contains_key(keys[keys.len() - 1]));
        }
        completion_at(completions, self.end).unwrap().cqe
    }

    /// Takes every entry of the list out of the slab. The entries of other lists are left
    /// as they are.
    pub fn discard(self, completions: &mut Slab<Completion>)
        requires
            self.valid(completion_entries(&*old(completions))),
        ensures
            completion_entries(&*final(completions)) == completion_entries(
                &*old(completions),
            ).remove_keys(self.keys().to_set()),
    {
        let ghost before = completion_entries(completions);
        let ghost keys = self.keys@;
        let mut current: usize = self.start;
        let ghost mut taken: int = 0;
        while current != self.end
            invariant
                self.valid(before),
                keys == self.keys@,
                0 <= taken < keys.len(),
                current == keys[taken],
                completion_entries(completions) == before.remove_keys(keys.take(taken).to_set()),
            decreases keys.len() - taken,
        {
            proof {
                assert(taken < keys.len() - 1) by {
                    assert(keys[keys.len() - 1] == self.end);
                }
                lemma_next_key(keys, taken);
                assert(before.contains_key(keys[taken]));
            }
            let entry = remove_completion(completions, current);
            current = entry.next;
            proof {
                assert(completion_entries(completions) =~= before.remove_keys(
                    keys.take(taken + 1).to_set(),
                ));
                taken = taken + 1;
            }
        }
        proof {
            assert(taken == keys.len() - 1) by {
                assert(keys[keys.len() - 1] == self.end);
            }
            lemma_next_key(keys, taken);
            assert(before.contains_key(keys[taken]));
            assert(keys.take(keys.len() as int) == keys);
        }
        remove_completion(completions, current);
        proof {
            assert(completion_entries(completions) =~= before.remove_keys(keys.to_set()));
        }
    }
}

/// The completions of a list are those that stand under its keys, one for each key and in
/// their order. The keys are distinct and occupied, and every entry but the last leads to the
/// next.
pub proof fn list_reads_its_entries(list: ListIndices, entries: Map<usize, Completion>)
    requires
        list.valid(entries),
    ensures
        list.keys().len() > 0,
        list.contents(entries).len() == list.keys().len(),
        forall|i: int|
            0 <= i < list.keys().len() ==> entries.contains_key(#[trigger] list.keys()[i])
                && list.contents(entries)[i] == entries[list.keys()[i]].cqe,
        forall|i: int, j: int|
            0 <= i < j < list.keys().len() ==> list.keys()[i] != list.keys()[j],
        forall|i: int|
            0 <= i < list.keys().len() - 1 ==> entries[#[trigger] list.keys()[i]].next
                == list.keys()[i + 1],
{
}

/// A list whose keys a change does not touch holds what it held.
pub(crate) proof fn lemma_untouched(
    list: ListIndices,
    before: Map<usize, Completion>,
    after: Map<usize, Completion>,
    touched: Set<usize>,
)
    requires
        list.valid(before),
        same_but(before, after, touched),
        forall|key: usize| #[trigger] list.keys().contains(key) ==> !touched.contains(key),
    ensures
        list.valid(after),
        list.contents(after) == list.contents(before),
{
    let keys = list.keys();
    assert forall|i: int| 0 <= i < keys.len() implies after.contains_key(#[trigger] keys[i])
        && after[keys[i]] == before[keys[i]] by {
        assert(keys.contains(keys[i]));
        assert(before.contains_key(keys[i]));
    }
    assert(list.contents(after) =~= list.contents(before));
}

/// The keys of a list are occupied, and there is at least one.
pub(crate) proof fn lemma_occupied(list: ListIndices, entries: Map<usize, Completion>)
    requires
        list.valid(entries),
    ensures
        list.keys().len() > 0,
        forall|key: usize| #[trigger] list.keys().contains(key) ==> entries.contains_key(key),
{
}

/// Outside `keys` the two maps hold the same.
pub open spec fn same_but(
    before: Map<usize, Completion>,
    after: Map<usize, Completion>,
    keys: Set<usize>,
) -> bool {
    forall|key: usize|
        #![trigger after.contains_key(key)]
        #![trigger before.contains_key(key)]
        !keys.contains(key) ==> {
            &&& before.contains_key(key) == after.contains_key(key)
            &&& before.contains_key(key) ==> before[key] == after[key]
        }
}

/// Taking one more of distinct keys adds a key that was not among those taken before.
proof fn lemma_next_key(keys: Seq<usize>, taken: int)
    requires
        keys.no_duplicates(),
        0 <= taken < keys.len(),
    ensures
        !keys.take(taken).to_set().contains(keys[taken]),
        keys.take(taken + 1).to_set() == keys.take(taken).to_set().insert(keys[taken]),
{
    assert(keys.take(taken + 1) =~= keys.take(taken).push(keys[taken]));
    assert forall|key: usize|
        keys.take(taken + 1).to_set().contains(key) == keys.take(taken).to_set().insert(
            keys[taken],
        ).contains(key) by {
        let more = keys.take(taken + 1);
        let fewer = keys.take(taken);
        if more.contains(key) {
            let i = choose|i: int| 0 <= i < more.len() && more[i] == key;
            if i < taken {
                assert(fewer[i] == key);
            }
        }
        if fewer.contains(key) {
            let i = choose|i: int| 0 <= i < fewer.len() && fewer[i] == key;
            assert(more[i] == key);
        }
        assert(more[taken] == keys[taken]);
    }
}

} // verus!
