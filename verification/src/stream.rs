//! Byte streams as the library sees them.
//!
//! A stream is any function that carries out one [`Action`] and hands back its
//! outcome. [`Stream`] keeps, for the contracts only, the log of every action
//! and its outcome.

use vstd::prelude::*;

verus! {

/// Why a stream operation failed.
#[derive(Clone, Copy, Debug, PartialEq, Eq, Structural)]
pub enum IoErrorKind {
    NotFound,
    PermissionDenied,
    ConnectionRefused,
    ConnectionReset,
    ConnectionAborted,
    NotConnected,
    BrokenPipe,
    WouldBlock,
    InvalidInput,
    InvalidData,
    TimedOut,
    WriteZero,
    Interrupted,
    Unsupported,
    UnexpectedEof,
    OutOfMemory,
    Other,
}

/// A failed stream operation, or bytes that do not follow the format.
#[derive(Clone, Debug)]
pub struct IoError {
    pub kind: IoErrorKind,
    pub message: String,
}

impl IoError {
    /// Whether the error has this kind and this message.
    pub open spec fn says(self, kind: IoErrorKind, message: Seq<char>) -> bool {
        self.kind == kind && self.message@ == message
    }

    /// An error of the given kind.
    pub fn new(kind: IoErrorKind, message: &str) -> (e: IoError)
        ensures
            e.says(kind, message@),
    {
        IoError { kind, message: message.to_owned() }
    }

    /// The error of a read that asks for more bytes than there are.
    pub fn end_of_input() -> (e: IoError)
        ensures
            e.says(IoErrorKind::UnexpectedEof, "failed to fill whole buffer"@),
    {
        IoError::new(IoErrorKind::UnexpectedEof, "failed to fill whole buffer")
    }
}

/// One operation asked of a stream.
pub enum Action<'a> {
    /// Read exactly this many bytes, or fail. Interrupted reads are repeated.
    ReadExact(usize),
    /// Read once, at most this many bytes; no bytes at all mean the end.
    Read(usize),
    /// As [`Action::Read`], but an interrupted read is repeated.
    ReadUninterrupted(usize),
    /// Continue reading at this offset from the start.
    Seek(u64),
    /// Write all of these bytes. Interrupted writes are repeated.
    WriteAll(&'a [u8]),
    /// Hand over everything written so far.
    Flush,
}

/// What an [`Action`] asks for.
pub enum Asked {
    ReadExact(nat),
    Read(nat),
    ReadUninterrupted(nat),
    Seek(nat),
    WriteAll(Seq<u8>),
    Flush,
}

impl<'a> View for Action<'a> {
    type V = Asked;

    open spec fn view(&self) -> Asked {
        match self {
            Action::ReadExact(n) => Asked::ReadExact(*n as nat),
            Action::Read(n) => Asked::Read(*n as nat),
            Action::ReadUninterrupted(n) => Asked::ReadUninterrupted(*n as nat),
            Action::Seek(offset) => Asked::Seek(*offset as nat),
            Action::WriteAll(bytes) => Asked::WriteAll(bytes@),
            Action::Flush => Asked::Flush,
        }
    }
}

/// An action together with its outcome.
pub struct Step {
    pub asked: Asked,
    pub outcome: Result<Seq<u8>, IoError>,
}

/// The outcome as it enters the log.
pub open spec fn seen(outcome: Result<Vec<u8>, IoError>) -> Result<Seq<u8>, IoError> {
    match outcome {
        Ok(bytes) => Ok(bytes@),
        Err(e) => Err(e),
    }
}

/// Whether the outcome is one that the action may have: a read hands over no
/// more bytes than it was asked for, and what is repeated when it is interrupted
/// does not fail for that.
pub open spec fn is_proper(step: Step) -> bool {
    match step.outcome {
        Ok(bytes) => match step.asked {
            Asked::ReadExact(n) => bytes.len() == n,
            Asked::Read(n) | Asked::ReadUninterrupted(n) => bytes.len() <= n,
            _ => true,
        },
        Err(e) => match step.asked {
            Asked::ReadExact(_) | Asked::ReadUninterrupted(_) | Asked::WriteAll(_) => e.kind
                != IoErrorKind::Interrupted,
            _ => true,
        },
    }
}

/// Whether no step failed.
pub open spec fn all_went_well(steps: Seq<Step>) -> bool {
    forall|i: int| 0 <= i < steps.len() ==> (#[trigger] steps[i]).outcome is Ok
}

/// The bytes that `steps` wrote, in order.
pub open spec fn sent(steps: Seq<Step>) -> Seq<u8>
    decreases steps.len(),
{
    if steps.len() == 0 {
        Seq::empty()
    } else {
        sent(steps.drop_last()) + match steps.last() {
            Step { asked: Asked::WriteAll(bytes), outcome: Ok(_) } => bytes,
            _ => Seq::empty(),
        }
    }
}

/// The bytes that `steps` read, in order.
pub open spec fn received(steps: Seq<Step>) -> Seq<u8>
    decreases steps.len(),
{
    if steps.len() == 0 {
        Seq::empty()
    } else {
        received(steps.drop_last()) + match steps.last() {
            Step { asked: Asked::ReadExact(_), outcome: Ok(bytes) } => bytes,
            Step { asked: Asked::Read(_), outcome: Ok(bytes) } => bytes,
            Step { asked: Asked::ReadUninterrupted(_), outcome: Ok(bytes) } => bytes,
            _ => Seq::empty(),
        }
    }
}

/// Where a source that was at `start` is after `steps`.
pub open spec fn position(steps: Seq<Step>, start: int) -> int
    decreases steps.len(),
{
    if steps.len() == 0 {
        start
    } else {
        let before = position(steps.drop_last(), start);
        match steps.last() {
            Step { asked: Asked::Seek(offset), outcome: Ok(_) } => offset as int,
            Step { asked: Asked::ReadExact(_), outcome: Ok(bytes) } => before + bytes.len(),
            Step { asked: Asked::Read(_), outcome: Ok(bytes) } => before + bytes.len(),
            Step { asked: Asked::ReadUninterrupted(_), outcome: Ok(bytes) } => before + bytes.len(),
            _ => before,
        }
    }
}

/// Whether `bytes` are those of `data` that start at `at`.
pub open spec fn found_at(data: Seq<u8>, at: int, bytes: Seq<u8>) -> bool {
    bytes.len() > 0 ==> 0 <= at && at + bytes.len() <= data.len() && bytes == data.subrange(
        at,
        at + bytes.len(),
    )
}

/// Whether all that `steps` read is what stands in `data` where the source, at
/// first at `start`, is at.
pub open spec fn faithful(steps: Seq<Step>, data: Seq<u8>, start: int) -> bool
    decreases steps.len(),
{
    steps.len() > 0 ==> {
        let at = position(steps.drop_last(), start);
        &&& faithful(steps.drop_last(), data, start)
        &&& match steps.last() {
            Step { asked: Asked::ReadExact(_), outcome: Ok(bytes) } => found_at(data, at, bytes),
            Step { asked: Asked::Read(_), outcome: Ok(bytes) } => found_at(data, at, bytes),
            Step { asked: Asked::ReadUninterrupted(_), outcome: Ok(bytes) } => found_at(
                data,
                at,
                bytes,
            ),
            _ => true,
        }
    }
}

/// Whether the source holds `data`: no step fails, what is read stands there,
/// and no read comes back empty before the end.
pub open spec fn delivers(steps: Seq<Step>, data: Seq<u8>, start: int) -> bool {
    &&& all_went_well(steps)
    &&& faithful(steps, data, start)
    &&& forall|i: int|
        0 <= i < steps.len() ==> match (#[trigger] steps[i]) {
            Step { asked: Asked::ReadUninterrupted(n), outcome: Ok(bytes) } => n > 0 && position(
                steps.take(i),
                start,
            ) < data.len() ==> bytes.len() > 0,
            _ => true,
        }
}

/// A faithful run is faithful in its parts.
pub proof fn lemma_faithful_add(first: Seq<Step>, second: Seq<Step>, data: Seq<u8>, start: int)
    ensures
        position(first + second, start) == position(second, position(first, start)),
        faithful(first + second, data, start) == (faithful(first, data, start) && faithful(
            second,
            data,
            position(first, start),
        )),
    decreases second.len(),
{
    if second.len() == 0 {
        assert(first + second =~= first);
    } else {
        assert((first + second).drop_last() =~= first + second.drop_last());
        lemma_faithful_add(first, second.drop_last(), data, start);
    }
}

/// A faithful run without seeking reads the data from its start on.
pub proof fn lemma_faithful_received(steps: Seq<Step>, data: Seq<u8>, start: int)
    requires
        faithful(steps, data, start),
        forall|i: int| 0 <= i < steps.len() ==> !((#[trigger] steps[i]).asked is Seek),
    ensures
        position(steps, start) == start + received(steps).len(),
        found_at(data, start, received(steps)),
    decreases steps.len(),
{
    if steps.len() > 0 {
        let before = steps.drop_last();
        assert forall|i: int| 0 <= i < before.len() implies !(
        (#[trigger] before[i]).asked is Seek) by {
            assert(before[i] == steps[i]);
        }
        lemma_faithful_received(before, data, start);
        assert(!(steps[steps.len() - 1].asked is Seek));
        let got = received(steps);
        if got.len() > 0 {
            assert(got =~= data.subrange(start, start + got.len()));
        }
    }
}

/// What two runs wrote, one after the other.
pub proof fn lemma_sent_add(first: Seq<Step>, second: Seq<Step>)
    ensures
        sent(first + second) == sent(first) + sent(second),
    decreases second.len(),
{
    if second.len() == 0 {
        assert(first + second =~= first);
        assert(sent(first) + sent(second) =~= sent(first));
    } else {
        assert((first + second).drop_last() =~= first + second.drop_last());
        lemma_sent_add(first, second.drop_last());
        assert(sent(first + second) =~= sent(first) + sent(second));
    }
}

/// What two runs read, one after the other.
pub proof fn lemma_received_add(first: Seq<Step>, second: Seq<Step>)
    ensures
        received(first + second) == received(first) + received(second),
    decreases second.len(),
{
    if second.len() == 0 {
        assert(first + second =~= first);
        assert(received(first) + received(second) =~= received(first));
    } else {
        assert((first + second).drop_last() =~= first + second.drop_last());
        lemma_received_add(first, second.drop_last());
        assert(received(first + second) =~= received(first) + received(second));
    }
}

/// What is required of the function behind a stream: it can be asked anything,
/// and its outcomes are proper.
pub open spec fn is_transport<S: for<'a> Fn(Action<'a>) -> Result<Vec<u8>, IoError>>(
    transport: S,
) -> bool {
    &&& forall|action: Action| #[trigger] call_requires(transport, (action,))
    &&& forall|action: Action, outcome: Result<Vec<u8>, IoError>|
        #[trigger] call_ensures(transport, (action,), outcome) ==> is_proper(
            Step { asked: action@, outcome: seen(outcome) },
        )
}

/// Whether `step` is an action that `transport` carried out.
pub open spec fn is_genuine<S: for<'a> Fn(Action<'a>) -> Result<Vec<u8>, IoError>>(
    transport: S,
    step: Step,
) -> bool {
    exists|action: Action, outcome: Result<Vec<u8>, IoError>|
        #[trigger] call_ensures(transport, (action,), outcome) && action@ == step.asked && seen(
            outcome,
        ) == step.outcome
}

/// A byte stream over `transport`.
pub struct Stream<S> {
    transport: S,
    log: Ghost<Seq<Step>>,
}

impl<S: for<'a> Fn(Action<'a>) -> Result<Vec<u8>, IoError>> Stream<S> {
    /// The function that carries out the actions.
    pub closed spec fn transport(&self) -> S {
        self.transport
    }

    /// Every action so far, with its outcome.
    pub closed spec fn log(&self) -> Seq<Step> {
        self.log@
    }

    /// The log holds only what the transport did.
    pub open spec fn wf(&self) -> bool {
        &&& is_transport(self.transport())
        &&& forall|i: int|
            0 <= i < self.log().len() ==> is_genuine(self.transport(), #[trigger] self.log()[i])
    }

    /// `self` came from `before` by exactly `steps`.
    pub open spec fn ran(&self, before: &Self, steps: Seq<Step>) -> bool {
        &&& self.wf()
        &&& self.transport() == before.transport()
        &&& self.log() == before.log() + steps
    }

    /// A stream on which nothing has happened yet.
    pub fn new(transport: S) -> (s: Self)
        requires
            is_transport(transport),
        ensures
            s.wf(),
            s.transport() == transport,
            s.log() == Seq::<Step>::empty(),
    {
        Stream { transport, log: Ghost(Seq::empty()) }
    }

    /// Carries out one action.
    pub fn perform(&mut self, action: Action) -> (outcome: Result<Vec<u8>, IoError>)
        requires
            old(self).wf(),
        ensures
            final(self).ran(
                old(self),
                seq![Step { asked: action@, outcome: seen(outcome) }],
            ),
            is_proper(Step { asked: action@, outcome: seen(outcome) }),
    {
        let ghost given = action;
        let outcome = (self.transport)(action);
        self.log = Ghost(self.log@ + seq![Step { asked: given@, outcome: seen(outcome) }]);
        proof {
            assert(is_genuine(self.transport, Step { asked: given@, outcome: seen(outcome) }));
            assert forall|i: int| 0 <= i < self.log().len() implies is_genuine(
                self.transport(),
                #[trigger] self.log()[i],
            ) by {
                if i < old(self).log().len() {
                    assert(self.log()[i] == old(self).log()[i]);
                }
            }
        }
        outcome
    }
}

/// What is asked of a stream is what the action says, and what enters the log is
/// what came of it.
pub proof fn law_action_says_what_is_asked(action: Action, outcome: Result<Vec<u8>, IoError>)
    ensures
        match action {
            Action::ReadExact(n) => action@ == Asked::ReadExact(n as nat),
            Action::Read(n) => action@ == Asked::Read(n as nat),
            Action::ReadUninterrupted(n) => action@ == Asked::ReadUninterrupted(n as nat),
            Action::Seek(offset) => action@ == Asked::Seek(offset as nat),
            Action::WriteAll(bytes) => action@ == Asked::WriteAll(bytes@),
            Action::Flush => action@ is Flush,
        },
        outcome matches Ok(bytes) ==> seen(outcome) == Ok::<Seq<u8>, IoError>(bytes@),
        outcome matches Err(e) ==> seen(outcome) == Err::<Seq<u8>, IoError>(e),
{
}

} // verus!
