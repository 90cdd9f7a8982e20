//! Writing a whole buffer, however little each write takes.

use vstd::prelude::*;

verus! {

/// What the error of a write that took nothing says.
pub const WRITE_ZERO: &'static str = "failed to write whole buffer";

/// Why a buffer was not written whole.
#[derive(Debug, PartialEq, Eq)]
pub enum WriteAllError<E> {
    /// A write took nothing.
    WriteZero,
    /// A write failed.
    Io(E),
}

/// How much of a buffer has been written.
pub struct WriteAll {
    n: usize,
}

impl View for WriteAll {
    type V = nat;

    closed spec fn view(&self) -> nat {
        self.n as nat
    }
}

/// How a write that came out as `outcome` ends the whole: a write that takes nothing is an
/// error, and so is one that fails. Otherwise the whole goes on.
pub open spec fn write_error<E>(outcome: Result<usize, E>) -> Result<(), WriteAllError<E>> {
    match outcome {
        Ok(taken) => if taken == 0 {
            Err(WriteAllError::WriteZero)
        } else {
            Ok(())
        },
        Err(error) => Err(WriteAllError::Io(error)),
    }
}

/// How many bytes a write took.
pub open spec fn taken_by<E>(outcome: Result<usize, E>) -> nat {
    match outcome {
        Ok(taken) => taken as nat,
        Err(_) => 0,
    }
}

impl WriteAll {
    /// Nothing has been written.
    pub(crate) fn new() -> (write: WriteAll)
        ensures
            write@ == 0,
    {
        WriteAll { n: 0 }
    }

    /// Where in the buffer, which holds `bytes_init` bytes, the next write begins. It goes up
    /// to the end. `None` says that the buffer has been written.
    pub fn next(&self, bytes_init: usize) -> (start: Option<usize>)
        ensures
            match start {
                Some(start) => start == self@ && start < bytes_init,
                None => self@ >= bytes_init,
            },
    {
        if self.n < bytes_init {
            Some(self.n)
        } else {
            None
        }
    }

    /// Takes note of a write that came out as `outcome`, and returns the error with which the
    /// whole ends, if it does.
    pub fn wrote<E>(&mut self, outcome: Result<usize, E>) -> (ended: Result<(), WriteAllError<E>>)
        requires
            outcome is Ok ==> old(self)@ + outcome->Ok_0 <= usize::MAX,
        ensures
            ended == write_error(outcome),
            final(self)@ == old(self)@ + taken_by(outcome),
            match outcome {
                Ok(taken) => {
                    &&& final(self)@ == old(self)@ + taken
                    &&& taken == 0 <==> ended is Err
                    &&& taken == 0 ==> ended->Err_0 is WriteZero
                },
                Err(error) => {
                    &&& final(self)@ == old(self)@
                    &&& ended is Err
                    &&& ended->Err_0 == WriteAllError::Io(error)
                },
            },
    {
        match outcome {
            Ok(taken) => {
                if taken == 0 {
                    return Err(WriteAllError::WriteZero);
                }
                self.n = self.n + taken;
                Ok(())
            },
            Err(error) => Err(WriteAllError::Io(error)),
        }
    }
}

/// What writing all of `len` bytes returns, from the byte `n` on, when its writes come out as
/// `outcomes`, one after the other; `None` where it has not returned by then.
pub open spec fn write_all_result<E>(
    len: nat,
    n: nat,
    outcomes: Seq<Result<usize, E>>,
) -> Option<Result<(), WriteAllError<E>>>
    decreases outcomes.len(),
{
    if n >= len {
        Some(Ok(()))
    } else if outcomes.len() == 0 {
        None
    } else {
        match write_error(outcomes.first()) {
            Ok(_) => write_all_result(
                len,
                n + taken_by(outcomes.first()),
                outcomes.drop_first(),
            ),
            Err(error) => Some(Err(error)),
        }
    }
}

/// The bytes that the writes hand over, from the byte `n` on, until the whole ends. Each write
/// is offered the bytes from where the last one stopped to the end, and takes the first of
/// them.
pub open spec fn sent<E>(buf: Seq<u8>, n: nat, outcomes: Seq<Result<usize, E>>) -> Seq<u8>
    decreases outcomes.len(),
{
    if n >= buf.len() || outcomes.len() == 0 || write_error(outcomes.first()) is Err {
        Seq::empty()
    } else {
        buf.skip(n as int).take(taken_by(outcomes.first()) as int) + sent(
            buf,
            n + taken_by(outcomes.first()),
            outcomes.drop_first(),
        )
    }
}

/// No write takes more than it is offered.
pub open spec fn within_offer<E>(len: nat, n: nat, outcomes: Seq<Result<usize, E>>) -> bool
    decreases outcomes.len(),
{
    n >= len || outcomes.len() == 0 || {
        &&& n + taken_by(outcomes.first()) <= len
        &&& within_offer(len, n + taken_by(outcomes.first()), outcomes.drop_first())
    }
}

/// How many bytes the first `count` writes take.
pub open spec fn taken<E>(outcomes: Seq<Result<usize, E>>, count: nat) -> nat
    decreases count,
{
    if count == 0 {
        0
    } else {
        taken_by(outcomes.first()) + taken(outcomes.drop_first(), (count - 1) as nat)
    }
}

/// A buffer that holds no data is written without a write: the whole succeeds before any
/// write could come out in one way or another.
pub proof fn empty_buffer_needs_no_write<E>(outcomes: Seq<Result<usize, E>>)
    ensures
        write_all_result(0, 0, Seq::<Result<usize, E>>::empty()) == Some(
            Ok::<(), WriteAllError<E>>(()),
        ),
        write_all_result(0, 0, outcomes) == Some(Ok::<(), WriteAllError<E>>(())),
        sent(Seq::empty(), 0, outcomes) == Seq::<u8>::empty(),
{
}

/// A write that takes some bytes, however many, lets the whole go on and counts with exactly
/// that number. One that takes none ends the whole, and so does one that fails, with its own
/// error.
pub proof fn each_write_counts_for_what_it_took<E>(taken: usize, error: E)
    ensures
        taken_by(Ok::<usize, E>(taken)) == taken,
        taken_by(Err::<usize, E>(error)) == 0,
        taken > 0 ==> write_error(Ok::<usize, E>(taken)) is Ok,
        taken == 0 ==> write_error(Ok::<usize, E>(taken)) == Err::<(), WriteAllError<E>>(
            WriteAllError::WriteZero,
        ),
        write_error(Err::<usize, E>(error)) == Err::<(), WriteAllError<E>>(
            WriteAllError::Io(error),
        ),
{
}

/// Each write begins where the last one stopped. Let `starts` be where the writes begin, each
/// as many bytes after the one before as that one took, with the end of the last write at the
/// end. If each takes some bytes, and no more than are left, then what the writes hand over is
/// the buffer from the beginning of the first to the end of the last. The whole has succeeded
/// exactly if that is the end of the buffer, and has otherwise not returned.
pub proof fn writes_follow_each_other<E>(
    buf: Seq<u8>,
    outcomes: Seq<Result<usize, E>>,
    starts: Seq<nat>,
)
    requires
        starts.len() == outcomes.len() + 1,
        starts.last() <= buf.len(),
        forall|i: int|
            0 <= i < outcomes.len() ==> (#[trigger] outcomes[i]) is Ok && outcomes[i]->Ok_0 > 0
                && starts[i + 1] == starts[i] + outcomes[i]->Ok_0,
    ensures
        starts[0] <= starts.last(),
        sent(buf, starts[0], outcomes) == buf.subrange(starts[0] as int, starts.last() as int),
        write_all_result(buf.len(), starts[0], outcomes) == if starts.last() == buf.len() {
            Some(Ok::<(), WriteAllError<E>>(()))
        } else {
            None
        },
    decreases outcomes.len(),
{
    if outcomes.len() == 0 {
        assert(buf.subrange(starts[0] as int, starts[0] as int) =~= Seq::<u8>::empty());
    } else {
        let rest = outcomes.drop_first();
        let later = starts.drop_first();
        assert(outcomes[0] is Ok);
        assert(starts[0int + 1] == starts[0] + outcomes[0]->Ok_0);
        assert forall|i: int| 0 <= i < rest.len() implies (#[trigger] rest[i]) is Ok
            && rest[i]->Ok_0 > 0 && later[i + 1] == later[i] + rest[i]->Ok_0 by {
            assert(rest[i] == outcomes[i + 1]);
            assert(starts[(i + 1) + 1] == starts[i + 1] + outcomes[i + 1]->Ok_0);
        }
        writes_follow_each_other(buf, rest, later);
        assert(buf.skip(starts[0] as int).take(outcomes[0]->Ok_0 as int) + buf.subrange(
            later[0] as int,
            later.last() as int,
        ) =~= buf.subrange(starts[0] as int, starts.last() as int));
    }
}

/// Where the writes of `outcomes` each take some bytes and stop short of the end of the buffer,
/// at `starts.last()`, what the next write comes to decides: nothing taken, or a failure, ends
/// the whole with that error, and no byte more is handed over.
pub proof fn a_failing_write_ends_the_whole<E>(
    buf: Seq<u8>,
    outcomes: Seq<Result<usize, E>>,
    starts: Seq<nat>,
    failing: Result<usize, E>,
)
    requires
        starts.len() == outcomes.len() + 1,
        starts.last() < buf.len(),
        forall|i: int|
            0 <= i < outcomes.len() ==> (#[trigger] outcomes[i]) is Ok && outcomes[i]->Ok_0 > 0
                && starts[i + 1] == starts[i] + outcomes[i]->Ok_0,
        failing is Ok ==> failing->Ok_0 == 0,
    ensures
        sent(buf, starts[0], outcomes.push(failing)) == buf.subrange(
            starts[0] as int,
            starts.last() as int,
        ),
        failing is Ok ==> write_all_result(buf.len(), starts[0], outcomes.push(failing)) == Some(
            Err::<(), WriteAllError<E>>(WriteAllError::WriteZero),
        ),
        failing is Err ==> write_all_result(buf.len(), starts[0], outcomes.push(failing)) == Some(
            Err::<(), WriteAllError<E>>(WriteAllError::Io(failing->Err_0)),
        ),
    decreases outcomes.len(),
{
    writes_follow_each_other(buf, outcomes, starts);
    let all = outcomes.push(failing);
    if outcomes.len() == 0 {
        assert(all.first() == failing);
        assert(buf.subrange(starts[0] as int, starts[0] as int) =~= Seq::<u8>::empty());
    } else {
        let rest = outcomes.drop_first();
        let later = starts.drop_first();
        assert(outcomes[0] is Ok);
        assert(starts[0int + 1] == starts[0] + outcomes[0]->Ok_0);
        assert forall|i: int| 0 <= i < rest.len() implies (#[trigger] rest[i]) is Ok
            && rest[i]->Ok_0 > 0 && later[i + 1] == later[i] + rest[i]->Ok_0 by {
            assert(rest[i] == outcomes[i + 1]);
            assert(starts[(i + 1) + 1] == starts[i + 1] + outcomes[i + 1]->Ok_0);
        }
        a_failing_write_ends_the_whole(buf, rest, later, failing);
        writes_follow_each_other(buf, rest, later);
        assert(all.first() == outcomes[0]);
        assert(all.drop_first() =~= rest.push(failing));
        assert(buf.skip(starts[0] as int).take(outcomes[0]->Ok_0 as int) + buf.subrange(
            later[0] as int,
            later.last() as int,
        ) =~= buf.subrange(starts[0] as int, starts.last() as int));
    }
}

/// When the whole succeeds, the writes have handed over all bytes of the buffer from the byte
/// `n` on, each once and in order.
pub proof fn success_sends_the_whole_buffer<E>(
    buf: Seq<u8>,
    n: nat,
    outcomes: Seq<Result<usize, E>>,
)
    requires
        n <= buf.len(),
        within_offer(buf.len(), n, outcomes),
        write_all_result(buf.len(), n, outcomes) == Some(Ok::<(), WriteAllError<E>>(())),
    ensures
        sent(buf, n, outcomes) == buf.skip(n as int),
    decreases outcomes.len(),
{
    if n < buf.len() {
        let taken = taken_by(outcomes.first());
        success_sends_the_whole_buffer(buf, n + taken, outcomes.drop_first());
        assert(buf.skip(n as int).take(taken as int) + buf.skip((n + taken) as int) =~= buf.skip(
            n as int,
        ));
    } else {
        assert(buf.skip(n as int) =~= Seq::<u8>::empty());
    }
}

/// However the whole ends, what the writes have handed over is the beginning of the buffer
/// from the byte `n` on.
pub proof fn what_was_sent_is_a_prefix<E>(buf: Seq<u8>, n: nat, outcomes: Seq<Result<usize, E>>)
    requires
        n <= buf.len(),
        within_offer(buf.len(), n, outcomes),
    ensures
        sent(buf, n, outcomes).is_prefix_of(buf.skip(n as int)),
    decreases outcomes.len(),
{
    if n < buf.len() && outcomes.len() > 0 && write_error(outcomes.first()) is Ok {
        let taken = taken_by(outcomes.first());
        what_was_sent_is_a_prefix(buf, n + taken, outcomes.drop_first());
        let rest = sent(buf, n + taken, outcomes.drop_first());
        let all = sent(buf, n, outcomes);
        assert(rest =~= buf.skip((n + taken) as int).take(rest.len() as int));
        assert(all =~= buf.skip(n as int).take(all.len() as int));
    }
}

/// The whole returns the first error that a write returns, or the error of the first write
/// that took nothing, if that comes before the end of the buffer.
pub proof fn first_error_is_returned<E>(
    len: nat,
    n: nat,
    outcomes: Seq<Result<usize, E>>,
    at: nat,
)
    requires
        at < outcomes.len(),
        forall|i: int| 0 <= i < at ==> write_error(#[trigger] outcomes[i]) is Ok,
        n + taken(outcomes, at) < len,
        write_error(outcomes[at as int]) is Err,
    ensures
        write_all_result(len, n, outcomes) == Some(write_error(outcomes[at as int])),
    decreases at,
{
    if at > 0 {
        let rest = outcomes.drop_first();
        assert(write_error(outcomes[0]) is Ok);
        assert forall|i: int| 0 <= i < at - 1 implies write_error(#[trigger] rest[i]) is Ok by {
            assert(rest[i] == outcomes[i + 1]);
        }
        first_error_is_returned(len, n + taken_by(outcomes.first()), rest, (at - 1) as nat);
    }
}

/// The whole goes on writing while every write takes something and the end of the buffer is
/// not reached.
pub proof fn writing_goes_on_to_the_end<E>(len: nat, n: nat, outcomes: Seq<Result<usize, E>>)
    requires
        forall|i: int| 0 <= i < outcomes.len() ==> write_error(#[trigger] outcomes[i]) is Ok,
        n + taken(outcomes, outcomes.len()) < len,
    ensures
        write_all_result(len, n, outcomes) is None,
    decreases outcomes.len(),
{
    if outcomes.len() > 0 {
        let rest = outcomes.drop_first();
        assert(write_error(outcomes[0]) is Ok);
        assert forall|i: int| 0 <= i < rest.len() implies write_error(#[trigger] rest[i]) is Ok by {
            assert(rest[i] == outcomes[i + 1]);
        }
        writing_goes_on_to_the_end(len, n + taken_by(outcomes.first()), rest);
    }
}

/// Writing ends after at most as many writes as there are bytes left from the byte `n` on,
/// however they come out.
pub proof fn writing_ends_within_the_length<E>(len: nat, n: nat, outcomes: Seq<Result<usize, E>>)
    requires
        n + outcomes.len() >= len,
    ensures
        write_all_result(len, n, outcomes) is Some,
    decreases outcomes.len(),
{
    if n < len && write_error(outcomes.first()) is Ok {
        writing_ends_within_the_length(
            len,
            n + taken_by(outcomes.first()),
            outcomes.drop_first(),
        );
    }
}

} // verus!
