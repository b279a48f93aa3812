//! Retryable non-blocking operations and the perform protocol they share.
use vstd::prelude::*;

verus! {

/// Which readiness an operation waits for.
#[derive(PartialEq, Eq, Structural, Clone, Copy, Debug)]
pub enum Direction {
    Read,
    Write,
}

/// What one non-blocking call reported.
#[derive(PartialEq, Eq, Debug)]
pub enum Outcome<T> {
    /// The call made progress and produced this value.
    Ready(T),
    /// No progress is possible until the next readiness notification.
    WouldBlock,
    /// A signal interrupted the call; it may be issued again at once.
    Interrupted,
    /// The call failed with this error number.
    Failed(i32),
}

/// The value a successful call produced.
#[derive(PartialEq, Eq, Debug)]
pub enum Payload {
    /// Bytes received by a read; an empty buffer means end of stream.
    Bytes(Vec<u8>),
    /// Number of bytes accepted by a write.
    Count(usize),
    /// A descriptor produced by an accept.
    Descriptor(i32),
}

/// How an operation ended, as delivered to its continuation.
#[derive(PartialEq, Eq, Debug)]
pub enum OpResult {
    Success(Payload),
    Failed(i32),
    Cancelled,
}

/// The single delivery of an operation's result, identified by the operation's id.
#[derive(PartialEq, Eq, Debug)]
pub struct Completion {
    pub id: u64,
    pub result: OpResult,
}

/// What the event loop does after handing an outcome to an operation.
#[derive(PartialEq, Eq, Debug)]
pub enum Step {
    /// Issue the call again now.
    Retry,
    /// Leave the operation queued until the next readiness event.
    NotReady,
    /// The operation finished; deliver this completion and drop it.
    Done(Completion),
}

/// The step that an outcome leads to for the operation with id `id`.
pub open spec fn step_of(id: u64, outcome: Outcome<Payload>) -> Step {
    match outcome {
        Outcome::Ready(p) => Step::Done(Completion { id, result: OpResult::Success(p) }),
        Outcome::WouldBlock => Step::NotReady,
        Outcome::Interrupted => Step::Retry,
        Outcome::Failed(e) => Step::Done(Completion { id, result: OpResult::Failed(e) }),
    }
}

/// A deferred unit of non-blocking work.
pub trait Operation {
    spec fn spec_id(&self) -> u64;

    spec fn spec_direction(&self) -> Direction;

    /// Whether `p` is a payload that this kind of call can produce.
    spec fn spec_fits(&self, p: Payload) -> bool;

    fn id(&self) -> (r: u64)
        ensures
            r == self.spec_id(),
    ;

    fn direction(&self) -> (r: Direction)
        ensures
            r == self.spec_direction(),
    ;

    /// Interprets the outcome of one attempt of the call.
    fn perform(&self, outcome: Outcome<Payload>) -> (r: Step)
        requires
            outcome is Ready ==> self.spec_fits(outcome->Ready_0),
        ensures
            r == step_of(self.spec_id(), outcome),
    ;
}

/// Reads at most `capacity` bytes.
#[derive(PartialEq, Eq, Debug)]
pub struct ReadOperation {
    pub id: u64,
    pub capacity: usize,
}

/// Writes `data`; completes with the count the call accepted.
#[derive(PartialEq, Eq, Debug)]
pub struct WriteOperation {
    pub id: u64,
    pub data: Vec<u8>,
}

/// Accepts one pending connection.
#[derive(PartialEq, Eq, Debug)]
pub struct AcceptOperation {
    pub id: u64,
}

impl Operation for ReadOperation {
    open spec fn spec_id(&self) -> u64 {
        self.id
    }

    open spec fn spec_direction(&self) -> Direction {
        Direction::Read
    }

    open spec fn spec_fits(&self, p: Payload) -> bool {
        p is Bytes && p->Bytes_0@.len() <= self.capacity
    }

    fn id(&self) -> (r: u64) {
        self.id
    }

    fn direction(&self) -> (r: Direction) {
        Direction::Read
    }

    fn perform(&self, outcome: Outcome<Payload>) -> (r: Step) {
        settle(self.id, outcome)
    }
}

impl Operation for WriteOperation {
    open spec fn spec_id(&self) -> u64 {
        self.id
    }

    open spec fn spec_direction(&self) -> Direction {
        Direction::Write
    }

    open spec fn spec_fits(&self, p: Payload) -> bool {
        p is Count && p->Count_0 <= self.data@.len()
    }

    fn id(&self) -> (r: u64) {
        self.id
    }

    fn direction(&self) -> (r: Direction) {
        Direction::Write
    }

    fn perform(&self, outcome: Outcome<Payload>) -> (r: Step) {
        settle(self.id, outcome)
    }
}

impl Operation for AcceptOperation {
    open spec fn spec_id(&self) -> u64 {
        self.id
    }

    open spec fn spec_direction(&self) -> Direction {
        Direction::Read
    }

    open spec fn spec_fits(&self, p: Payload) -> bool {
        p is Descriptor && p->Descriptor_0 >= 0
    }

    fn id(&self) -> (r: u64) {
        self.id
    }

    fn direction(&self) -> (r: Direction) {
        Direction::Read
    }

    fn perform(&self, outcome: Outcome<Payload>) -> (r: Step) {
        settle(self.id, outcome)
    }
}

/// The shared retry/complete protocol: interrupted calls are retried,
/// would-block leaves the operation queued, anything else completes it.
fn settle(id: u64, outcome: Outcome<Payload>) -> (r: Step)
    ensures
        r == step_of(id, outcome),
{
    match outcome {
        Outcome::Ready(p) => Step::Done(Completion { id, result: OpResult::Success(p) }),
        Outcome::WouldBlock => Step::NotReady,
        Outcome::Interrupted => Step::Retry,
        Outcome::Failed(e) => Step::Done(Completion { id, result: OpResult::Failed(e) }),
    }
}

/// An operation of any kind, as held in a descriptor's queue.
#[derive(PartialEq, Eq, Debug)]
pub enum PendingOp {
    Read(ReadOperation),
    Write(WriteOperation),
    Accept(AcceptOperation),
}

impl Operation for PendingOp {
    open spec fn spec_id(&self) -> u64 {
        match self {
            PendingOp::Read(o) => o.spec_id(),
            PendingOp::Write(o) => o.spec_id(),
            PendingOp::Accept(o) => o.spec_id(),
        }
    }

    open spec fn spec_direction(&self) -> Direction {
        match self {
            PendingOp::Write(_) => Direction::Write,
            _ => Direction::Read,
        }
    }

    open spec fn spec_fits(&self, p: Payload) -> bool {
        match self {
            PendingOp::Read(o) => o.spec_fits(p),
            PendingOp::Write(o) => o.spec_fits(p),
            PendingOp::Accept(o) => o.spec_fits(p),
        }
    }

    fn id(&self) -> (r: u64) {
        match self {
            PendingOp::Read(o) => o.id(),
            PendingOp::Write(o) => o.id(),
            PendingOp::Accept(o) => o.id(),
        }
    }

    fn direction(&self) -> (r: Direction) {
        match self {
            PendingOp::Read(o) => o.direction(),
            PendingOp::Write(o) => o.direction(),
            PendingOp::Accept(o) => o.direction(),
        }
    }

    fn perform(&self, outcome: Outcome<Payload>) -> (r: Step) {
        match self {
            PendingOp::Read(o) => o.perform(outcome),
            PendingOp::Write(o) => o.perform(outcome),
            PendingOp::Accept(o) => o.perform(outcome),
        }
    }
}

} // verus!
