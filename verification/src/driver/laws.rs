//! What holds of the driver whatever the ring reports.

use vstd::prelude::*;
use vstd::set_lib::lemma_len_subset;

use crate::driver::completion::{cqe_result, Cqe, CqeResult};
use crate::driver::op::{more_follow, Cycle};
use crate::driver::ops::{leak_free, lists_ignored, settle, settled, Ops};
use crate::driver::{dispatchable, dispatched, index_of, is_cancellation, tickable, ticked};

verus! {

/// Two batches of completions, one after the other, do what they do as one batch.
pub proof fn ticks_join(ops: Map<usize, Cycle>, first: Seq<Cqe>, second: Seq<Cqe>)
    ensures
        ticked(ops, first + second) == ticked(ticked(ops, first), second),
        tickable(ops, first + second) <==> tickable(ops, first) && tickable(
            ticked(ops, first),
            second,
        ),
    decreases second.len(),
{
    if second.len() == 0 {
        assert(first + second =~= first);
    } else {
        ticks_join(ops, first, second.drop_last());
        assert((first + second).drop_last() =~= first + second.drop_last());
        assert((first + second).last() == second.last());
    }
}

/// A batch of one completion does what the completion does.
pub proof fn tick_of_one(ops: Map<usize, Cycle>, cqe: Cqe)
    ensures
        tickable(ops, seq![cqe]) <==> dispatchable(ops, cqe),
        ticked(ops, seq![cqe]) == dispatched(ops, cqe),
{
    let one = seq![cqe];
    assert(one.drop_last() =~= Seq::<Cqe>::empty());
    assert(one.last() == cqe);
    assert(ticked(ops, one.drop_last()) == ops);
    assert(tickable(ops, one.drop_last()));
}

/// The results of cancellations change nothing, however many arrive.
pub proof fn cancellations_change_nothing(ops: Map<usize, Cycle>, cqes: Seq<Cqe>)
    requires
        forall|i: int| 0 <= i < cqes.len() ==> is_cancellation(#[trigger] cqes[i]),
    ensures
        tickable(ops, cqes),
        ticked(ops, cqes) == ops,
    decreases cqes.len(),
{
    if cqes.len() > 0 {
        assert forall|i: int| 0 <= i < cqes.drop_last().len() implies is_cancellation(
            #[trigger] cqes.drop_last()[i],
        ) by {
            assert(cqes.drop_last()[i] == cqes[i]);
        }
        cancellations_change_nothing(ops, cqes.drop_last());
        assert(is_cancellation(cqes[cqes.len() - 1]));
    }
}

/// An operation that no completion belongs to is left as it is, and a key that no operation
/// has stays free.
pub proof fn ticks_touch_only_their_own(ops: Map<usize, Cycle>, cqes: Seq<Cqe>, key: usize)
    requires
        forall|i: int|
            0 <= i < cqes.len() ==> is_cancellation(#[trigger] cqes[i]) || index_of(cqes[i])
                != key,
    ensures
        ticked(ops, cqes).contains_key(key) == ops.contains_key(key),
        ops.contains_key(key) ==> ticked(ops, cqes)[key] == ops[key],
    decreases cqes.len(),
{
    if cqes.len() > 0 {
        assert forall|i: int| 0 <= i < cqes.drop_last().len() implies is_cancellation(
            #[trigger] cqes.drop_last()[i],
        ) || index_of(cqes.drop_last()[i]) != key by {
            assert(cqes.drop_last()[i] == cqes[i]);
        }
        ticks_touch_only_their_own(ops, cqes.drop_last(), key);
        assert(is_cancellation(cqes[cqes.len() - 1]) || index_of(cqes[cqes.len() - 1]) != key);
    }
}

/// Completions of different operations can arrive in either order.
pub proof fn completions_of_different_operations_commute(
    ops: Map<usize, Cycle>,
    first: Cqe,
    second: Cqe,
)
    requires
        index_of(first) != index_of(second),
    ensures
        dispatched(dispatched(ops, first), second) == dispatched(dispatched(ops, second), first),
        dispatchable(ops, first) && dispatchable(dispatched(ops, first), second)
            <==> dispatchable(ops, second) && dispatchable(dispatched(ops, second), first),
{
    assert(dispatched(dispatched(ops, first), second) =~= dispatched(
        dispatched(ops, second),
        first,
    ));
}

/// No completion adds an operation: the keys stay or go, and their number does not grow.
pub proof fn ticks_add_no_operation(ops: Map<usize, Cycle>, cqes: Seq<Cqe>)
    requires
        tickable(ops, cqes),
    ensures
        ticked(ops, cqes).dom().subset_of(ops.dom()),
        ops.dom().finite() ==> ticked(ops, cqes).dom().len() <= ops.dom().len(),
    decreases cqes.len(),
{
    if cqes.len() > 0 {
        ticks_add_no_operation(ops, cqes.drop_last());
    }
    if ops.dom().finite() {
        lemma_len_subset(ticked(ops, cqes).dom(), ops.dom());
    }
}

/// A key that `Ops::insert` returned survives the way through the ring: as the tag of a
/// submission it is not that of a cancellation, and the completion that carries it leads
/// back to the operation.
pub proof fn completion_finds_its_operation(index: usize, cqe: Cqe)
    requires
        index < usize::MAX,
        cqe.user_data == index as u64,
    ensures
        !is_cancellation(cqe),
        index_of(cqe) == index,
{
}

/// An operation that keeps reporting keeps every report, in the order of their arrival.
pub proof fn reports_are_kept_in_order(
    ops: Map<usize, Cycle>,
    index: usize,
    seen: Seq<CqeResult>,
    cqes: Seq<Cqe>,
)
    requires
        ops.contains_key(index),
        ops[index] == Cycle::CompletionList(seen),
        forall|i: int|
            0 <= i < cqes.len() ==> !is_cancellation(#[trigger] cqes[i]) && index_of(cqes[i])
                == index,
    ensures
        tickable(ops, cqes),
        ticked(ops, cqes).contains_key(index),
        ticked(ops, cqes)[index] == Cycle::CompletionList(
            seen + cqes.map_values(|cqe: Cqe| cqe_result(cqe)),
        ),
    decreases cqes.len(),
{
    let results = cqes.map_values(|cqe: Cqe| cqe_result(cqe));
    if cqes.len() == 0 {
        assert(seen + results =~= seen);
    } else {
        let fewer = cqes.drop_last();
        assert forall|i: int| 0 <= i < fewer.len() implies !is_cancellation(#[trigger] fewer[i])
            && index_of(fewer[i]) == index by {
            assert(fewer[i] == cqes[i]);
        }
        reports_are_kept_in_order(ops, index, seen, fewer);
        assert(!is_cancellation(cqes[cqes.len() - 1]));
        assert(seen + results =~= (seen + fewer.map_values(|cqe: Cqe| cqe_result(cqe))).push(
            cqe_result(cqes.last()),
        ));
    }
}

/// The last completion of an ignored operation removes it; one that says that more follow
/// leaves it.
pub proof fn ignored_operation_leaves_with_its_last_completion(
    ops: Map<usize, Cycle>,
    cqe: Cqe,
)
    requires
        !is_cancellation(cqe),
        ops.contains_key(index_of(cqe)),
        ops[index_of(cqe)] is Ignored,
    ensures
        dispatchable(ops, cqe),
        more_follow(cqe.flags) ==> dispatched(ops, cqe) == ops,
        !more_follow(cqe.flags) ==> dispatched(ops, cqe) == ops.remove(index_of(cqe)),
{
    if more_follow(cqe.flags) {
        assert(dispatched(ops, cqe) =~= ops);
    }
}

/// Settling leaves the same operations, each finished or ignored, and the finished ones as
/// they were. Settling again changes nothing.
pub proof fn settling_settles(ops: Map<usize, Cycle>)
    ensures
        settled(settle(ops)),
        settle(ops).dom() == ops.dom(),
        forall|key: usize| #[trigger]
            ops.contains_key(key) && ops[key] is Completed ==> settle(ops)[key] == ops[key],
        settle(settle(ops)) == settle(ops),
{
    assert(settle(ops).dom() =~= ops.dom());
    assert(settle(settle(ops)) =~= settle(ops));
}

/// Whether an operation has nothing more to report.
pub open spec fn is_over(cycle: Cycle) -> bool {
    match cycle {
        Cycle::Completed(_) => true,
        Cycle::CompletionList(seen) => !more_follow(seen.last().flags),
        _ => false,
    }
}

/// The operations that a shutdown cancels are exactly those that have more to report.
pub proof fn only_unfinished_operations_are_cancelled(
    ops: Map<usize, Cycle>,
    targets: Seq<usize>,
)
    requires
        lists_ignored(targets, settle(ops)),
    ensures
        forall|key: usize| #[trigger]
            targets.contains(key) <==> ops.contains_key(key) && !is_over(ops[key]),
        targets.no_duplicates(),
{
}

/// Once every operation has finished or is ignored, that stays so whatever completions
/// arrive, and the finished ones stay as they are.
pub proof fn ticks_keep_settled(ops: Map<usize, Cycle>, cqes: Seq<Cqe>)
    requires
        settled(ops),
        tickable(ops, cqes),
    ensures
        settled(ticked(ops, cqes)),
        forall|key: usize| #[trigger]
            ops.contains_key(key) && ops[key] is Completed ==> ticked(ops, cqes).contains_key(key)
                && ticked(ops, cqes)[key] == ops[key],
    decreases cqes.len(),
{
    if cqes.len() > 0 {
        ticks_keep_settled(ops, cqes.drop_last());
    }
}

/// Once every operation has finished or is ignored, no received completion is left in the
/// slab.
pub proof fn settled_operations_hold_no_completions(ops: Ops)
    requires
        ops.leak_free(),
        settled(ops@),
    ensures
        ops.received().dom() == Set::<usize>::empty(),
{
    assert forall|entry: usize| !ops.received().contains_key(entry) by {
        if ops.received().contains_key(entry) {
            assert(leak_free(ops.cycles(), ops.received()));
            let key = choose|key: usize|
                #![trigger ops.cycles()[key]]
                ops.cycles().contains_key(key) && ops.cycles()[key].keys().contains(entry);
            assert(ops@.contains_key(key));
        }
    }
    assert(ops.received().dom() =~= Set::<usize>::empty());
}

/// An entry finds its place exactly if it carries the tag of a cancellation, which is the
/// largest, or if there is an unfinished operation under the key that its tag is.
pub proof fn an_entry_belongs_where_its_tag_says(ops: Map<usize, Cycle>, cqe: Cqe)
    ensures
        tickable(ops, seq![cqe]) <==> cqe.user_data == u64::MAX || (ops.contains_key(
            cqe.user_data as usize,
        ) && ops[cqe.user_data as usize] !is Completed),
        tickable(ops, Seq::<Cqe>::empty()),
        ticked(ops, Seq::<Cqe>::empty()) == ops,
        cqe.user_data == u64::MAX ==> ticked(ops, seq![cqe]) == ops,
        cqe.user_data != u64::MAX ==> forall|key: usize|
            #![trigger ticked(ops, seq![cqe]).contains_key(key)]
            #![trigger ticked(ops, seq![cqe])[key]]
            key != cqe.user_data as usize ==> {
                &&& ticked(ops, seq![cqe]).contains_key(key) == ops.contains_key(key)
                &&& ops.contains_key(key) ==> ticked(ops, seq![cqe])[key] == ops[key]
            },
{
    tick_of_one(ops, cqe);
}

/// An operation whose key is the tag of none of the entries is left as it is.
pub proof fn unnamed_operations_are_left_alone(
    ops: Map<usize, Cycle>,
    cqes: Seq<Cqe>,
    key: usize,
)
    requires
        forall|i: int|
            0 <= i < cqes.len() ==> (#[trigger] cqes[i]).user_data == u64::MAX
                || cqes[i].user_data as usize != key,
    ensures
        ticked(ops, cqes).contains_key(key) == ops.contains_key(key),
        ops.contains_key(key) ==> ticked(ops, cqes)[key] == ops[key],
{
    assert forall|i: int| 0 <= i < cqes.len() implies is_cancellation(#[trigger] cqes[i])
        || index_of(cqes[i]) != key by {}
    ticks_touch_only_their_own(ops, cqes, key);
}

/// An operation in flight that gets one completion, its last, is finished afterwards, under the
/// same key, whatever else arrives before and after. Its result is that of the entry: a count
/// that is the entry's number, or the error whose negation that number is.
pub proof fn operation_in_flight_gets_its_result(
    ops: Map<usize, Cycle>,
    cqes: Seq<Cqe>,
    key: usize,
    at: int,
)
    requires
        0 <= at < cqes.len(),
        cqes[at].user_data != u64::MAX,
        cqes[at].user_data as usize == key,
        cqes[at].flags & 2 == 0,
        ops.contains_key(key),
        ops[key] is Submitted || ops[key] is Waiting,
        forall|i: int|
            0 <= i < cqes.len() && i != at ==> (#[trigger] cqes[i]).user_data == u64::MAX
                || cqes[i].user_data as usize != key,
    ensures
        ticked(ops, cqes).contains_key(key),
        ticked(ops, cqes)[key] is Completed,
        ticked(ops, cqes)[key]->Completed_0.flags == cqes[at].flags,
        ticked(ops, cqes)[key]->Completed_0.result is Ok <==> cqes[at].result >= 0,
        cqes[at].result >= 0 ==> ticked(ops, cqes)[key]->Completed_0.result->Ok_0 as int
            == cqes[at].result as int,
        i32::MIN < cqes[at].result < 0
            ==> ticked(ops, cqes)[key]->Completed_0.result->Err_0 as int == -(
        cqes[at].result as int),
{
    let first = cqes.take(at);
    let one = seq![cqes[at]];
    let rest = cqes.skip(at + 1);
    assert(cqes =~= first + one + rest);
    ticks_join(ops, first + one, rest);
    ticks_join(ops, first, one);
    assert forall|i: int| 0 <= i < first.len() implies (#[trigger] first[i]).user_data == u64::MAX
        || first[i].user_data as usize != key by {
        assert(first[i] == cqes[i]);
    }
    unnamed_operations_are_left_alone(ops, first, key);
    tick_of_one(ticked(ops, first), cqes[at]);
    assert forall|i: int| 0 <= i < rest.len() implies (#[trigger] rest[i]).user_data == u64::MAX
        || rest[i].user_data as usize != key by {
        assert(rest[i] == cqes[at + 1 + i]);
    }
    unnamed_operations_are_left_alone(ticked(ops, first + one), rest, key);
}

/// No completion makes an operation ignored, and only an ignored one is ever removed, by a
/// completion of its own after which no more follow. Every other operation stays for its
/// submitter.
pub proof fn only_ignored_operations_are_removed(
    ops: Map<usize, Cycle>,
    cqes: Seq<Cqe>,
    key: usize,
)
    requires
        tickable(ops, cqes),
        ops.contains_key(key),
    ensures
        ops[key] !is Ignored ==> ticked(ops, cqes).contains_key(key) && ticked(ops, cqes)[key]
            !is Ignored,
        !ticked(ops, cqes).contains_key(key) ==> exists|i: int|
            0 <= i < cqes.len() && (#[trigger] cqes[i]).user_data != u64::MAX
                && cqes[i].user_data as usize == key && cqes[i].flags & 2 == 0,
    decreases cqes.len(),
{
    if cqes.len() > 0 {
        let fewer = cqes.drop_last();
        only_ignored_operations_are_removed(ops, fewer, key);
        if !ticked(ops, fewer).contains_key(key) {
            let i = choose|i: int|
                0 <= i < fewer.len() && (#[trigger] fewer[i]).user_data != u64::MAX
                    && fewer[i].user_data as usize == key && fewer[i].flags & 2 == 0;
            assert(cqes[i] == fewer[i]);
        } else if !ticked(ops, cqes).contains_key(key) {
            assert(cqes[cqes.len() - 1] == cqes.last());
        }
    }
}

/// An operation in flight whose first completion says that more follow keeps all of its
/// completions, as many as arrived and in their order, each with the result and the flags of
/// its entry.
pub proof fn operation_in_flight_collects_its_reports(
    ops: Map<usize, Cycle>,
    cqes: Seq<Cqe>,
    key: usize,
)
    requires
        cqes.len() > 0,
        forall|i: int|
            0 <= i < cqes.len() ==> (#[trigger] cqes[i]).user_data != u64::MAX
                && cqes[i].user_data as usize == key,
        cqes[0].flags & 2 != 0,
        ops.contains_key(key),
        ops[key] is Submitted || ops[key] is Waiting,
    ensures
        ticked(ops, cqes).contains_key(key),
        ticked(ops, cqes)[key] is CompletionList,
        ticked(ops, cqes)[key]->CompletionList_0.len() == cqes.len(),
        forall|i: int| 0 <= i < cqes.len() ==> {
            let report = ticked(ops, cqes)[key]->CompletionList_0[i];
            &&& report.flags == (#[trigger] cqes[i]).flags
            &&& report.result is Ok <==> cqes[i].result >= 0
            &&& cqes[i].result >= 0 ==> report.result->Ok_0 as int == cqes[i].result as int
            &&& i32::MIN < cqes[i].result < 0 ==> report.result->Err_0 as int == -(
            cqes[i].result as int)
        },
{
    let one = seq![cqes[0]];
    let rest = cqes.drop_first();
    assert(cqes =~= one + rest);
    ticks_join(ops, one, rest);
    tick_of_one(ops, cqes[0]);
    assert forall|i: int| 0 <= i < rest.len() implies !is_cancellation(#[trigger] rest[i])
        && index_of(rest[i]) == key by {
        assert(rest[i] == cqes[i + 1]);
    }
    let seen = seq![cqe_result(cqes[0])];
    reports_are_kept_in_order(ticked(ops, one), key, seen, rest);
    let reports = seen + rest.map_values(|cqe: Cqe| cqe_result(cqe));
    assert forall|i: int| 0 <= i < cqes.len() implies reports[i] == cqe_result(
        #[trigger] cqes[i],
    ) by {
        if i > 0 {
            assert(rest[i - 1] == cqes[i]);
        }
    }
}

/// A finished operation keeps its result until its submitter takes it, whatever arrives.
pub proof fn finished_operation_keeps_its_result(
    ops: Map<usize, Cycle>,
    cqes: Seq<Cqe>,
    key: usize,
)
    requires
        tickable(ops, cqes),
        ops.contains_key(key),
        ops[key] is Completed,
    ensures
        ticked(ops, cqes).contains_key(key),
        ticked(ops, cqes)[key] == ops[key],
    decreases cqes.len(),
{
    if cqes.len() > 0 {
        finished_operation_keeps_its_result(ops, cqes.drop_last(), key);
    }
}

/// When an operation that is ignored gets a completion after which more follow, nothing
/// changes. When no more follow, it is removed, and nothing else changes.
pub proof fn ignored_operation_and_its_completion(ops: Map<usize, Cycle>, cqe: Cqe)
    requires
        cqe.user_data != u64::MAX,
        ops.contains_key(cqe.user_data as usize),
        ops[cqe.user_data as usize] is Ignored,
    ensures
        tickable(ops, seq![cqe]),
        cqe.flags & 2 != 0 ==> ticked(ops, seq![cqe]) == ops,
        cqe.flags & 2 == 0 ==> ticked(ops, seq![cqe]) == ops.remove(cqe.user_data as usize),
{
    tick_of_one(ops, cqe);
    ignored_operation_leaves_with_its_last_completion(ops, cqe);
}

/// What settling makes of each operation: one that has finished stays as it is; one whose last
/// report said that no more follow is finished with nothing; and any other is ignored.
pub proof fn settling_of_each(ops: Map<usize, Cycle>, key: usize)
    ensures
        settle(ops).contains_key(key) <==> ops.contains_key(key),
        ops.contains_key(key) ==> match ops[key] {
            Cycle::Completed(cqe) => settle(ops)[key] == Cycle::Completed(cqe),
            Cycle::CompletionList(seen) => if seen.last().flags & 2 == 0 {
                settle(ops)[key] == Cycle::Completed(CqeResult { result: Ok(0), flags: 0 })
            } else {
                settle(ops)[key] == Cycle::Ignored
            },
            _ => settle(ops)[key] == Cycle::Ignored,
        },
{
}

/// The operations to cancel are listed in ascending order. They are those that have not
/// finished and whose last report, if there is one, did not say that no more follow.
pub proof fn targets_are_those_with_more_to_come(ops: Map<usize, Cycle>, targets: Seq<usize>)
    requires
        lists_ignored(targets, settle(ops)),
    ensures
        forall|i: int, j: int| 0 <= i < j < targets.len() ==> targets[i] < targets[j],
        forall|key: usize| #[trigger]
            targets.contains(key) <==> ops.contains_key(key) && match ops[key] {
                Cycle::Completed(_) => false,
                Cycle::CompletionList(seen) => seen.last().flags & 2 != 0,
                _ => true,
            },
{
}

} // verus!
