//! Shutting the driver down.
//!
//! Everything in flight is cancelled, and the driver waits until all of it has ended. The
//! rules stand here. Whoever owns the ring does what a `Request` asks for and comes back with
//! the `Reply`.

use io_uring::squeue::Entry;
use vstd::prelude::*;

use crate::driver::completion::Cqe;
use crate::driver::laws::{
    is_over, only_unfinished_operations_are_cancelled, settling_settles,
    targets_are_those_with_more_to_come, ticks_add_no_operation, ticks_keep_settled,
};
use crate::driver::op::{more_follow, Cycle};
use crate::driver::ops::{
    from_key, lists_ignored, none_below, none_ignored_below, settle, settled, unowned,
};
use crate::driver::{index_of, is_cancellation, tickable, ticked, Driver};

verus! {

/// The submission queue entry of the `io_uring` crate, opaque to the verifier.
#[verifier::external_type_specification]
#[verifier::external_body]
pub struct ExEntry(io_uring::squeue::Entry);

/// The entry that `AsyncCancel::new(target).build().user_data(tag)` makes: a request to
/// cancel the operation that was submitted with the tag `target`, itself tagged `tag`.
pub uninterp spec fn async_cancel(target: u64, tag: u64) -> Entry;

/// Calls `AsyncCancel::new`, `AsyncCancel::build` and `Entry::user_data` of the `io_uring`
/// crate. The entry depends on the two numbers alone.
#[verifier::external_body]
fn cancel_entry(target: u64, tag: u64) -> (entry: Entry)
    ensures
        entry == async_cancel(target, tag),
{
    io_uring::opcode::AsyncCancel::new(target).build().user_data(tag)
}

/// What the owner of the ring has to do next.
pub enum Request {
    /// Look whether the submission queue is empty.
    Inspect,
    /// Submit the submission queue.
    Submit,
    /// Push this entry to the submission queue.
    Push(Entry),
    /// Submit, and wait for one completion, to make room in the submission queue.
    MakeRoom,
    /// Wait for one completion, whether or not that fails, and tick.
    WaitAndTick,
    /// Nothing: the driver is shut down.
    Stop,
}

/// What came of a request.
#[derive(Clone, Copy, Debug, PartialEq, Eq, Structural)]
pub enum Reply {
    /// The submission queue is, or is not, empty.
    Empty(bool),
    /// The entry was, or was not, pushed.
    Pushed(bool),
    /// It is done.
    Done,
}

#[derive(Clone, Copy, PartialEq, Eq, Structural)]
enum Phase {
    Inspect,
    Flush,
    Push,
    MakeRoom,
    Wait,
    Finished,
}

/// How far the shutdown has come.
pub struct Shutdown {
    phase: Phase,
    /// The operations to cancel.
    targets: Vec<usize>,
    /// How many of them have been cancelled.
    done: usize,
    /// Every operation below this key is gone.
    id: usize,
}

/// How far a shutdown has come.
#[verifier::ext_equal]
pub enum Stage {
    /// To see whether submissions are left.
    Inspect,
    /// To submit them.
    Flush,
    /// To cancel these operations, in this order.
    Push(Seq<usize>),
    /// To make room for cancelling these operations.
    MakeRoom(Seq<usize>),
    /// To wait for the operation under this key, before which there is none.
    Wait(usize),
    /// Nothing is left.
    Finished,
}

/// The request of a stage.
pub open spec fn request_of(stage: Stage) -> Request {
    match stage {
        Stage::Inspect => Request::Inspect,
        Stage::Flush => Request::Submit,
        Stage::Push(targets) => Request::Push(async_cancel(targets.first() as u64, u64::MAX)),
        Stage::MakeRoom(_) => Request::MakeRoom,
        Stage::Wait(_) => Request::WaitAndTick,
        Stage::Finished => Request::Stop,
    }
}

/// Whether `reply` answers the request of `stage`.
pub open spec fn answers(stage: Stage, reply: Reply) -> bool {
    match stage {
        Stage::Inspect => reply is Empty,
        Stage::Push(_) => reply is Pushed,
        Stage::Flush | Stage::MakeRoom(_) | Stage::Wait(_) => reply is Done,
        Stage::Finished => false,
    }
}

/// Whether the shutdown goes from `stage` to another request without a look at the driver:
/// while it flushes the submission queue, and while a push waits for room.
pub open spec fn only_asks(stage: Stage, reply: Reply) -> bool {
    stage is Flush || stage is MakeRoom || reply == Reply::Empty(false) || reply == Reply::Pushed(
        false,
    )
}

/// `targets` are keys of ignored operations, at least one.
pub open spec fn to_cancel(targets: Seq<usize>, ops: Map<usize, Cycle>) -> bool {
    &&& targets.len() > 0
    &&& forall|i: int| 0 <= i < targets.len() ==> {
        &&& ops.contains_key(#[trigger] targets[i])
        &&& ops[targets[i]] is Ignored
    }
}

/// What holds of the operations at a stage.
pub open spec fn fits(stage: Stage, ops: Map<usize, Cycle>) -> bool {
    match stage {
        Stage::Inspect | Stage::Flush => true,
        Stage::Push(targets) => settled(ops) && to_cancel(targets, ops),
        Stage::MakeRoom(targets) => settled(ops) && to_cancel(targets, ops),
        Stage::Wait(id) => settled(ops) && none_below(ops, id),
        Stage::Finished => ops == Map::<usize, Cycle>::empty(),
    }
}

/// Finished operations are removed up to the first ignored one, which is then waited for.
/// Where there is none, nothing is left.
pub open spec fn drains(
    ops: Map<usize, Cycle>,
    next_stage: Stage,
    next_ops: Map<usize, Cycle>,
) -> bool {
    match next_stage {
        Stage::Wait(at) => {
            &&& ops.contains_key(at)
            &&& ops[at] is Ignored
            &&& none_ignored_below(ops, at as int)
            &&& next_ops == from_key(ops, at)
        },
        Stage::Finished => {
            &&& forall|key: usize| #[trigger] ops.contains_key(key) ==> ops[key] !is Ignored
            &&& next_ops == Map::<usize, Cycle>::empty()
        },
        _ => false,
    }
}

/// One step of the shutdown: `reply` leads from `stage` with `ops` to `next_stage` with
/// `next_ops`.
pub open spec fn shutdown_step(
    stage: Stage,
    ops: Map<usize, Cycle>,
    reply: Reply,
    next_stage: Stage,
    next_ops: Map<usize, Cycle>,
) -> bool {
    match (stage, reply) {
        (Stage::Inspect, Reply::Empty(false)) => next_stage == Stage::Flush && next_ops == ops,
        (Stage::Flush, Reply::Done) => next_stage == Stage::Inspect && next_ops == ops,
        (Stage::Inspect, Reply::Empty(true)) => match next_stage {
            Stage::Push(targets) => {
                &&& targets.len() > 0
                &&& lists_ignored(targets, settle(ops))
                &&& next_ops == settle(ops)
            },
            _ => next_stage is Finished && drains(settle(ops), next_stage, next_ops),
        },
        (Stage::Push(targets), Reply::Pushed(true)) => if targets.len() > 1 {
            next_stage == Stage::Push(targets.drop_first()) && next_ops == ops
        } else {
            drains(ops, next_stage, next_ops)
        },
        (Stage::Push(targets), Reply::Pushed(false)) => {
            next_stage == Stage::MakeRoom(targets) && next_ops == ops
        },
        (Stage::MakeRoom(targets), Reply::Done) => {
            next_stage == Stage::Push(targets) && next_ops == ops
        },
        (Stage::Wait(_), Reply::Done) => drains(ops, next_stage, next_ops),
        _ => false,
    }
}

impl View for Shutdown {
    type V = Stage;

    closed spec fn view(&self) -> Stage {
        match self.phase {
            Phase::Inspect => Stage::Inspect,
            Phase::Flush => Stage::Flush,
            Phase::Push => Stage::Push(self.targets@.skip(self.done as int)),
            Phase::MakeRoom => Stage::MakeRoom(self.targets@.skip(self.done as int)),
            Phase::Wait => Stage::Wait(self.id),
            Phase::Finished => Stage::Finished,
        }
    }
}

impl Shutdown {
    /// There is something left to cancel while cancelling goes on.
    pub closed spec fn wf(&self) -> bool {
        self.phase is Push || self.phase is MakeRoom ==> self.done < self.targets@.len()
    }

    /// The shutdown begins: what has been queued is submitted first.
    pub fn new() -> (shutdown: Shutdown)
        ensures
            shutdown.wf(),
            shutdown@ == Stage::Inspect,
    {
        Shutdown { phase: Phase::Inspect, targets: Vec::new(), done: 0, id: 0 }
    }

    /// What the owner of the ring has to do next.
    pub fn request(&self) -> (request: Request)
        requires
            self.wf(),
        ensures
            request == request_of(self@),
            match self@ {
                Stage::Inspect => request is Inspect,
                Stage::Flush => request is Submit,
                Stage::Push(targets) => {
                    &&& targets.len() > 0
                    &&& request is Push
                    &&& request->Push_0 == async_cancel(targets[0] as u64, u64::MAX)
                },
                Stage::MakeRoom(_) => request is MakeRoom,
                Stage::Wait(_) => request is WaitAndTick,
                Stage::Finished => request is Stop,
            },
    {
        match self.phase {
            Phase::Inspect => Request::Inspect,
            Phase::Flush => Request::Submit,
            Phase::Push => {
                let target: usize = self.targets[self.done];
                Request::Push(cancel_entry(target as u64, u64::MAX))
            },
            Phase::MakeRoom => Request::MakeRoom,
            Phase::Wait => Request::WaitAndTick,
            Phase::Finished => Request::Stop,
        }
    }

    /// Removes what has finished, and waits for what has not.
    fn drain<R>(&mut self, driver: &mut Driver<R>, id: usize)
        requires
            old(driver).wf(),
            none_below(old(driver)@, id),
            settled(old(driver)@),
        ensures
            final(self).wf(),
            final(driver).wf(),
            old(driver).ops.leak_free() ==> final(driver).ops.leak_free(),
            final(driver).uring == old(driver).uring,
            final(driver).ops.received() == old(driver).ops.received(),
            drains(old(driver)@, final(self)@, final(driver)@),
            fits(final(self)@, final(driver)@),
    {
        match driver.ops.drain(id) {
            Some(at) => {
                self.phase = Phase::Wait;
                self.id = at;
            },
            None => {
                self.phase = Phase::Finished;
            },
        }
        proof {
            lemma_drained_fits(old(driver)@, self@, driver@);
        }
    }

    /// Takes the reply to the last request, and goes on to the next.
    pub fn step<R>(&mut self, driver: &mut Driver<R>, reply: Reply)
        requires
            old(self).wf(),
            old(driver).wf(),
            fits(old(self)@, old(driver)@),
            answers(old(self)@, reply),
        ensures
            final(self).wf(),
            final(driver).wf(),
            fits(final(self)@, final(driver)@),
            shutdown_step(old(self)@, old(driver)@, reply, final(self)@, final(driver)@),
            final(driver).ops.received() == if reply == Reply::Empty(true) {
                unowned(old(driver).ops.cycles(), old(driver).ops.received())
            } else {
                old(driver).ops.received()
            },
            only_asks(old(self)@, reply) ==> *final(driver) == *old(driver),
            old(self)@ is Flush || old(self)@ is MakeRoom || reply == Reply::Empty(false) || reply
                == Reply::Pushed(false) ==> *final(driver) == *old(driver),
            reply == Reply::Empty(true) && final(self)@ is Push ==> forall|key: usize| #[trigger]
                final(self)@->Push_0.contains(key) <==> old(driver)@.contains_key(key) && match old(
                    driver,
                )@[key] {
                    Cycle::Completed(_) => false,
                    Cycle::CompletionList(seen) => seen.last().flags & 2 != 0,
                    _ => true,
                },
            reply == Reply::Pushed(true) && old(self)@->Push_0.len() > 1 ==> final(self)@
                == Stage::Push(
                old(self)@->Push_0.subrange(1, old(self)@->Push_0.len() as int),
            ),
            reply == Reply::Pushed(false) ==> final(self)@ == Stage::MakeRoom(old(self)@->Push_0),
            old(self)@ is MakeRoom ==> final(self)@ == Stage::Push(old(self)@->MakeRoom_0),
            forall|key: usize| #[trigger]
                old(driver)@.contains_key(key) && old(driver)@[key] is Ignored
                    ==> final(driver)@.contains_key(key) && final(driver)@[key] is Ignored,
            old(driver).ops.leak_free() ==> final(driver).ops.leak_free(),
            final(driver).uring == old(driver).uring,
    {
        match self.phase {
            Phase::Inspect => match reply {
                Reply::Empty(true) => {
                    driver.ops.settle();
                    self.targets = driver.ops.ignored();
                    self.done = 0;
                    proof {
                        settling_settles(old(driver)@);
                        assert(self.targets@.skip(0) =~= self.targets@);
                        assert forall|i: int| 0 <= i < self.targets@.len() implies driver@.contains_key(
                            #[trigger] self.targets@[i],
                        ) && driver@[self.targets@[i]] is Ignored by {
                            assert(self.targets@.contains(self.targets@[i]));
                        }
                    }
                    if self.targets.len() > 0 {
                        self.phase = Phase::Push;
                    } else {
                        let ghost none = self.targets@;
                        self.drain(driver, 0);
                        proof {
                            if let Stage::Wait(at) = self@ {
                                assert(none.contains(at));
                            }
                        }
                    }
                },
                _ => {
                    self.phase = Phase::Flush;
                },
            },
            Phase::Flush => {
                self.phase = Phase::Inspect;
            },
            Phase::Push => match reply {
                Reply::Pushed(true) => {
                    let count: usize = self.targets.len();
                    self.done = self.done + 1;
                    proof {
                        let before = old(self).targets@.skip(old(self).done as int);
                        assert(self.targets@.skip(self.done as int) =~= before.drop_first());
                        assert forall|i: int| 0 <= i < before.drop_first().len() implies driver@.contains_key(
                            #[trigger] before.drop_first()[i],
                        ) && driver@[before.drop_first()[i]] is Ignored by {
                            assert(before.drop_first()[i] == before[i + 1]);
                        }
                    }
                    if self.done == count {
                        self.drain(driver, 0);
                    }
                },
                _ => {
                    self.phase = Phase::MakeRoom;
                },
            },
            Phase::MakeRoom => {
                self.phase = Phase::Push;
            },
            Phase::Wait => {
                let id: usize = self.id;
                self.drain(driver, id);
            },
            Phase::Finished => {},
        }
        proof {
            a_step_of_the_shutdown(old(self)@, old(driver)@, reply, self@, driver@);
            no_step_drops_an_ignored_operation(
                old(self)@,
                old(driver)@,
                reply,
                self@,
                driver@,
            );
        }
    }
}

/// What is left when the finished operations are removed is settled still.
proof fn lemma_drained_fits(
    ops: Map<usize, Cycle>,
    next_stage: Stage,
    next_ops: Map<usize, Cycle>,
)
    requires
        settled(ops),
        drains(ops, next_stage, next_ops),
    ensures
        fits(next_stage, next_ops),
{
}

/// Completions that arrive while the shutdown submits, waits, or is over leave the
/// operations fit for the stage that it is at.
pub proof fn ticks_keep_stage(stage: Stage, ops: Map<usize, Cycle>, cqes: Seq<Cqe>)
    requires
        fits(stage, ops),
        stage !is Push,
        stage !is MakeRoom,
        tickable(ops, cqes),
    ensures
        fits(stage, ticked(ops, cqes)),
{
    ticks_add_no_operation(ops, cqes);
    if let Stage::Wait(id) = stage {
        ticks_keep_settled(ops, cqes);
        assert forall|key: usize| #[trigger] ticked(ops, cqes).contains_key(key) implies id <= key by {
            assert(ops.contains_key(key));
        }
    }
    if stage is Finished {
        assert(ticked(ops, cqes) =~= ops);
    }
}

/// A shutdown that waits is over as soon as no operation is ignored any more, and it is over
/// only when no operation is left.
pub proof fn shutdown_ends_with_the_last_ignored_operation(
    id: usize,
    ops: Map<usize, Cycle>,
    next_stage: Stage,
    next_ops: Map<usize, Cycle>,
)
    requires
        shutdown_step(Stage::Wait(id), ops, Reply::Done, next_stage, next_ops),
    ensures
        next_stage is Finished <==> forall|key: usize| #[trigger]
            ops.contains_key(key) ==> ops[key] !is Ignored,
        next_stage is Finished ==> next_ops == Map::<usize, Cycle>::empty(),
{
}

/// Whether `cqes` hold the last completion of the operation under `key`.
pub open spec fn has_last_completion(cqes: Seq<Cqe>, key: usize) -> bool {
    exists|i: int|
        0 <= i < cqes.len() && !is_cancellation(#[trigger] cqes[i]) && index_of(cqes[i]) == key
            && !more_follow(cqes[i].flags)
}

/// An operation that is ignored is gone once its last completion has arrived.
proof fn lemma_gone_with_last_completion(
    ops: Map<usize, Cycle>,
    cqes: Seq<Cqe>,
    key: usize,
    at: int,
)
    requires
        settled(ops),
        tickable(ops, cqes),
        0 <= at < cqes.len(),
        !is_cancellation(cqes[at]),
        index_of(cqes[at]) == key,
        !more_follow(cqes[at].flags),
    ensures
        !ticked(ops, cqes).contains_key(key),
    decreases cqes.len(),
{
    let fewer = cqes.drop_last();
    ticks_keep_settled(ops, fewer);
    if at < cqes.len() - 1 {
        assert(fewer[at] == cqes[at]);
        lemma_gone_with_last_completion(ops, fewer, key, at);
    }
}

/// When every ignored operation gets its last completion, none is left ignored, and the
/// shutdown, which has waited for them, is over with nothing left.
pub proof fn last_completions_end_the_shutdown(
    id: usize,
    ops: Map<usize, Cycle>,
    cqes: Seq<Cqe>,
    next_stage: Stage,
    next_ops: Map<usize, Cycle>,
)
    requires
        settled(ops),
        tickable(ops, cqes),
        forall|key: usize| #[trigger]
            ops.contains_key(key) && ops[key] is Ignored ==> has_last_completion(cqes, key),
        shutdown_step(
            Stage::Wait(id),
            ticked(ops, cqes),
            Reply::Done,
            next_stage,
            next_ops,
        ),
    ensures
        forall|key: usize| #[trigger]
            ticked(ops, cqes).contains_key(key) ==> ticked(ops, cqes)[key] !is Ignored,
        next_stage is Finished,
        next_ops == Map::<usize, Cycle>::empty(),
{
    ticks_add_no_operation(ops, cqes);
    ticks_keep_settled(ops, cqes);
    assert forall|key: usize| #[trigger] ticked(ops, cqes).contains_key(key) implies ticked(
        ops,
        cqes,
    )[key] !is Ignored by {
        assert(ops.contains_key(key));
        if ops[key] is Ignored {
            let at = choose|i: int|
                0 <= i < cqes.len() && !is_cancellation(#[trigger] cqes[i]) && index_of(cqes[i])
                    == key && !more_follow(cqes[i].flags);
            lemma_gone_with_last_completion(ops, cqes, key, at);
        }
    }
    shutdown_ends_with_the_last_ignored_operation(id, ticked(ops, cqes), next_stage, next_ops);
}

/// When the shutdown is over, no operation is left, so none is left unfinished.
pub proof fn finished_shutdown_leaves_nothing(ops: Map<usize, Cycle>)
    requires
        fits(Stage::Finished, ops),
    ensures
        ops.dom() == Set::<usize>::empty(),
        forall|key: usize| #[trigger] ops.contains_key(key) ==> ops[key] is Completed,
{
    assert(ops.dom() =~= Set::<usize>::empty());
}

/// What each stage asks for. While operations are left to be cancelled, that is the push of an
/// entry that cancels the first of them and carries the largest tag.
pub proof fn each_stage_has_its_request(stage: Stage)
    ensures
        match stage {
            Stage::Inspect => request_of(stage) is Inspect,
            Stage::Flush => request_of(stage) is Submit,
            Stage::Push(targets) => {
                &&& request_of(stage) is Push
                &&& request_of(stage)->Push_0 == async_cancel(targets[0] as u64, u64::MAX)
            },
            Stage::MakeRoom(_) => request_of(stage) is MakeRoom,
            Stage::Wait(_) => request_of(stage) is WaitAndTick,
            Stage::Finished => request_of(stage) is Stop,
        },
{
}

/// A shutdown can begin whatever is in flight, and each request can be answered by whatever
/// may come of it.
pub proof fn every_request_can_be_answered(stage: Stage, ops: Map<usize, Cycle>, yes: bool)
    ensures
        fits(Stage::Inspect, ops),
        fits(Stage::Flush, ops),
        request_of(stage) is Inspect ==> answers(stage, Reply::Empty(yes)),
        request_of(stage) is Push ==> answers(stage, Reply::Pushed(yes)),
        request_of(stage) is Submit || request_of(stage) is MakeRoom || request_of(
            stage,
        ) is WaitAndTick ==> answers(stage, Reply::Done),
{
}

/// What a step does. An entry that was pushed is taken off the list, and the others stay to be
/// cancelled in their order; one that was not pushed stays on it. When the list is at its end,
/// or a wait is, the finished operations before the first ignored one go, and that one is
/// waited for; where none is ignored, all go and the shutdown is over. When the submission
/// queue is found empty, the operations with more to come are ignored and listed to be
/// cancelled, the others are finished, and where there are none of the first kind, the shutdown
/// is over.
pub proof fn a_step_of_the_shutdown(
    stage: Stage,
    ops: Map<usize, Cycle>,
    reply: Reply,
    next_stage: Stage,
    next_ops: Map<usize, Cycle>,
)
    requires
        shutdown_step(stage, ops, reply, next_stage, next_ops),
    ensures
        stage is Inspect && reply == Reply::Empty(false) ==> next_stage is Flush && next_ops
            == ops,
        stage is Flush ==> next_stage is Inspect && next_ops == ops,
        stage is MakeRoom ==> next_stage == Stage::Push(stage->MakeRoom_0) && next_ops == ops,
        stage is Push && reply == Reply::Pushed(false) ==> next_stage == Stage::MakeRoom(
            stage->Push_0,
        ) && next_ops == ops,
        stage is Push && reply == Reply::Pushed(true) && stage->Push_0.len() > 1 ==> {
            &&& next_stage == Stage::Push(
                stage->Push_0.subrange(1, stage->Push_0.len() as int),
            )
            &&& next_ops == ops
        },
        stage is Wait || (stage is Push && reply == Reply::Pushed(true) && stage->Push_0.len()
            <= 1) ==> {
            ||| {
                &&& next_stage is Wait
                &&& ops.contains_key(next_stage->Wait_0)
                &&& ops[next_stage->Wait_0] is Ignored
                &&& forall|key: usize| #[trigger]
                    ops.contains_key(key) && ops[key] is Ignored ==> next_stage->Wait_0 <= key
                &&& forall|key: usize| #[trigger]
                    next_ops.contains_key(key) <==> ops.contains_key(key) && next_stage->Wait_0
                        <= key
                &&& forall|key: usize| #[trigger]
                    next_ops.contains_key(key) ==> next_ops[key] == ops[key]
            }
            ||| {
                &&& next_stage is Finished
                &&& forall|key: usize| #[trigger] ops.contains_key(key) ==> ops[key] !is Ignored
                &&& next_ops.dom() == Set::<usize>::empty()
            }
        },
        stage is Inspect && reply == Reply::Empty(true) ==> {
            ||| {
                &&& next_stage is Push
                &&& next_stage->Push_0.len() > 0
                &&& forall|i: int, j: int|
                    0 <= i < j < next_stage->Push_0.len() ==> next_stage->Push_0[i]
                        < next_stage->Push_0[j]
                &&& forall|key: usize| #[trigger]
                    next_stage->Push_0.contains(key) <==> ops.contains_key(key)
                        && match ops[key] {
                        Cycle::Completed(_) => false,
                        Cycle::CompletionList(seen) => seen.last().flags & 2 != 0,
                        _ => true,
                    }
                &&& forall|key: usize| #[trigger]
                    next_ops.contains_key(key) <==> ops.contains_key(key)
                &&& forall|key: usize| #[trigger]
                    next_ops.contains_key(key) ==> if next_stage->Push_0.contains(key) {
                        next_ops[key] is Ignored
                    } else {
                        next_ops[key] is Completed
                    }
            }
            ||| {
                &&& next_stage is Finished
                &&& next_ops.dom() == Set::<usize>::empty()
                &&& forall|key: usize| #[trigger]
                    ops.contains_key(key) ==> match ops[key] {
                        Cycle::Completed(_) => true,
                        Cycle::CompletionList(seen) => seen.last().flags & 2 == 0,
                        _ => false,
                    }
            }
        },
{
    if let (Stage::Push(targets), Reply::Pushed(true)) = (stage, reply) {
        assert(targets.drop_first() =~= targets.subrange(1, targets.len() as int));
    }
    if let (Stage::Inspect, Reply::Empty(true)) = (stage, reply) {
        if let Stage::Push(targets) = next_stage {
            targets_are_those_with_more_to_come(ops, targets);
        } else {
            assert forall|key: usize| #[trigger] ops.contains_key(key) implies match ops[key] {
                Cycle::Completed(_) => true,
                Cycle::CompletionList(seen) => seen.last().flags & 2 == 0,
                _ => false,
            } by {
                assert(settle(ops).contains_key(key));
            }
        }
    }
    if next_stage is Finished {
        assert(next_ops.dom() =~= Set::<usize>::empty());
    }
}

/// An ignored operation stays until its last completion has arrived: no step of the shutdown
/// removes it.
pub proof fn no_step_drops_an_ignored_operation(
    stage: Stage,
    ops: Map<usize, Cycle>,
    reply: Reply,
    next_stage: Stage,
    next_ops: Map<usize, Cycle>,
)
    requires
        shutdown_step(stage, ops, reply, next_stage, next_ops),
    ensures
        forall|key: usize| #[trigger]
            ops.contains_key(key) && ops[key] is Ignored ==> next_ops.contains_key(key)
                && next_ops[key] is Ignored,
{
    if let (Stage::Inspect, Reply::Empty(true)) = (stage, reply) {
        assert forall|key: usize| #[trigger]
            ops.contains_key(key) && ops[key] is Ignored implies next_ops.contains_key(key)
            && next_ops[key] is Ignored by {
            assert(settle(ops).contains_key(key));
        }
    }
}

/// A run of the shutdown: step `i` leads from `stages[i]`, with the operations `before[i]`,
/// to `stages[i + 1]`, with the operations `after[i]`. Completions may arrive in between.
pub open spec fn is_run(
    stages: Seq<Stage>,
    before: Seq<Map<usize, Cycle>>,
    replies: Seq<Reply>,
    after: Seq<Map<usize, Cycle>>,
) -> bool {
    &&& stages.len() == replies.len() + 1
    &&& forall|i: int|
        0 <= i < replies.len() ==> shutdown_step(
            #[trigger] stages[i],
            before[i],
            replies[i],
            stages[i + 1],
            after[i],
        )
}

/// The operations whose cancellation the submission queue took in the first `count` steps.
pub open spec fn cancelled(stages: Seq<Stage>, replies: Seq<Reply>, count: nat) -> Seq<usize>
    decreases count,
{
    if count == 0 {
        Seq::empty()
    } else {
        let earlier = cancelled(stages, replies, (count - 1) as nat);
        match (stages[count - 1], replies[count - 1]) {
            (Stage::Push(targets), Reply::Pushed(true)) => earlier.push(targets.first()),
            _ => earlier,
        }
    }
}

/// The operations that are still to be cancelled at a stage.
pub open spec fn remaining(stage: Stage) -> Seq<usize> {
    match stage {
        Stage::Push(targets) => targets,
        Stage::MakeRoom(targets) => targets,
        _ => Seq::empty(),
    }
}

/// Every operation that is to be cancelled is cancelled exactly once, in the order of the
/// list, however often the submission queue is full; and all of them are before the
/// shutdown waits for any or is over. Cancelling begins with step `first`.
pub proof fn each_target_is_cancelled_once(
    targets: Seq<usize>,
    stages: Seq<Stage>,
    before: Seq<Map<usize, Cycle>>,
    replies: Seq<Reply>,
    after: Seq<Map<usize, Cycle>>,
    first: nat,
    count: nat,
)
    requires
        is_run(stages, before, replies, after),
        targets.len() > 0,
        stages[first as int] == Stage::Push(targets),
        cancelled(stages, replies, first).len() == 0,
        first <= count <= replies.len(),
    ensures
        cancelled(stages, replies, count) + remaining(stages[count as int]) == targets,
        stages[count as int] is Wait || stages[count as int] is Finished ==> cancelled(
            stages,
            replies,
            count,
        ) == targets,
        stages[count as int] !is Inspect,
        stages[count as int] !is Flush,
        stages[count as int] is Push || stages[count as int] is MakeRoom ==> remaining(
            stages[count as int],
        ).len() > 0,
    decreases count,
{
    if count == first {
        assert(cancelled(stages, replies, first) + targets =~= targets);
    } else {
        let last = (count - 1) as nat;
        each_target_is_cancelled_once(targets, stages, before, replies, after, first, last);
        let stage = stages[last as int];
        assert(shutdown_step(
            stages[last as int],
            before[last as int],
            replies[last as int],
            stages[last as int + 1],
            after[last as int],
        ));
        let so_far = cancelled(stages, replies, last);
        if let (Stage::Push(left), Reply::Pushed(true)) = (stage, replies[last as int]) {
            assert(so_far.push(left.first()) + left.drop_first() =~= so_far + left);
            if left.len() == 1 {
                assert(left.drop_first() =~= Seq::<usize>::empty());
            }
        }
        assert(cancelled(stages, replies, count) + remaining(stages[count as int]) =~= targets);
        if remaining(stages[count as int]).len() == 0 {
            assert(cancelled(stages, replies, count) =~= targets);
        }
    }
}

/// Once the submission queue has been found empty, the operations that have more to report
/// are cancelled, each once and in ascending order, and no others; and all of them are before
/// the shutdown waits for any or is over.
pub proof fn exactly_the_unfinished_are_cancelled(
    stages: Seq<Stage>,
    before: Seq<Map<usize, Cycle>>,
    replies: Seq<Reply>,
    after: Seq<Map<usize, Cycle>>,
    count: nat,
)
    requires
        is_run(stages, before, replies, after),
        stages[0] is Inspect,
        1 <= count <= replies.len(),
        replies[0] == Reply::Empty(true),
        stages[count as int] is Wait || stages[count as int] is Finished,
    ensures
        forall|key: usize| #[trigger]
            cancelled(stages, replies, count).contains(key) <==> before[0].contains_key(key)
                && !is_over(before[0][key]),
        forall|i: int, j: int|
            0 <= i < j < cancelled(stages, replies, count).len() ==> cancelled(
                stages,
                replies,
                count,
            )[i] < cancelled(stages, replies, count)[j],
{
    assert(shutdown_step(stages[0], before[0], replies[0], stages[1], after[0]));
    assert(cancelled(stages, replies, 0) =~= Seq::<usize>::empty());
    assert(cancelled(stages, replies, 1) == cancelled(stages, replies, 0));
    match stages[1] {
        Stage::Push(targets) => {
            each_target_is_cancelled_once(targets, stages, before, replies, after, 1, count);
            only_unfinished_operations_are_cancelled(before[0], targets);
        },
        _ => {
            if count > 1 {
                assert(shutdown_step(stages[1], before[1], replies[1], stages[2], after[1]));
            }
            assert forall|key: usize| before[0].contains_key(key) implies is_over(
                before[0][key],
            ) by {
                assert(settle(before[0]).contains_key(key));
            }
        },
    }
}

/// The entries that the submission queue took in the first `count` steps.
pub open spec fn pushed(stages: Seq<Stage>, replies: Seq<Reply>, count: nat) -> Seq<Entry>
    decreases count,
{
    if count == 0 {
        Seq::empty()
    } else {
        let earlier = pushed(stages, replies, (count - 1) as nat);
        match (request_of(stages[count - 1]), replies[count - 1]) {
            (Request::Push(entry), Reply::Pushed(true)) => earlier.push(entry),
            _ => earlier,
        }
    }
}

/// The entries that the submission queue takes are the cancellations of the operations that
/// leave the list, one for each and in the same order.
proof fn lemma_pushed_entries(stages: Seq<Stage>, replies: Seq<Reply>, count: nat)
    ensures
        pushed(stages, replies, count).len() == cancelled(stages, replies, count).len(),
        forall|i: int|
            0 <= i < pushed(stages, replies, count).len() ==> #[trigger] pushed(
                stages,
                replies,
                count,
            )[i] == async_cancel(cancelled(stages, replies, count)[i] as u64, u64::MAX),
    decreases count,
{
    if count > 0 {
        lemma_pushed_entries(stages, replies, (count - 1) as nat);
    }
}

/// Once the submission queue has been found empty, and before the shutdown waits for any
/// operation or is over, the submission queue has taken one entry for each operation with more
/// to come, in ascending order of their keys, and no other entry: each cancels its operation
/// and carries the largest tag.
pub proof fn one_entry_cancels_each_unfinished_operation(
    stages: Seq<Stage>,
    before: Seq<Map<usize, Cycle>>,
    replies: Seq<Reply>,
    after: Seq<Map<usize, Cycle>>,
    count: nat,
) -> (keys: Seq<usize>)
    requires
        is_run(stages, before, replies, after),
        stages[0] is Inspect,
        1 <= count <= replies.len(),
        replies[0] == Reply::Empty(true),
        stages[count as int] is Wait || stages[count as int] is Finished,
    ensures
        forall|i: int, j: int| 0 <= i < j < keys.len() ==> keys[i] < keys[j],
        forall|key: usize| #[trigger]
            keys.contains(key) <==> before[0].contains_key(key) && match before[0][key] {
                Cycle::Completed(_) => false,
                Cycle::CompletionList(seen) => seen.last().flags & 2 != 0,
                _ => true,
            },
        pushed(stages, replies, count).len() == keys.len(),
        forall|i: int|
            0 <= i < keys.len() ==> #[trigger] pushed(stages, replies, count)[i] == async_cancel(
                keys[i] as u64,
                u64::MAX,
            ),
{
    exactly_the_unfinished_are_cancelled(stages, before, replies, after, count);
    lemma_pushed_entries(stages, replies, count);
    let keys = cancelled(stages, replies, count);
    assert forall|key: usize| #[trigger]
        keys.contains(key) == (before[0].contains_key(key) && match before[0][key] {
            Cycle::Completed(_) => false,
            Cycle::CompletionList(seen) => seen.last().flags & 2 != 0,
            _ => true,
        }) by {}
    keys
}

} // verus!
