//! The descriptor table: per-descriptor FIFO operation queues, addressed by
//! stable tokens, with submission, dispatch and cancelling close.
use std::collections::VecDeque;
use vstd::prelude::*;

use crate::operation::{
    step_of, AcceptOperation, Completion, Direction, OpResult, Operation, Outcome, Payload,
    PendingOp, ReadOperation, Step, WriteOperation,
};

verus! {

/// The record kept for one registered descriptor.
#[derive(Debug)]
pub struct DescriptorState {
    pub fd: i32,
    pub read_queue: VecDeque<PendingOp>,
    pub write_queue: VecDeque<PendingOp>,
}

impl DescriptorState {
    /// The operations waiting for readiness in direction `d`, oldest first.
    pub open spec fn queue(&self, d: Direction) -> Seq<PendingOp> {
        match d {
            Direction::Read => self.read_queue@,
            Direction::Write => self.write_queue@,
        }
    }

    /// Every queued operation sits in the queue of its own direction.
    pub open spec fn wf(&self) -> bool {
        &&& forall|i: int|
            0 <= i < self.read_queue@.len() ==> (#[trigger] self.read_queue@[i]).spec_direction()
                == Direction::Read
        &&& forall|i: int|
            0 <= i < self.write_queue@.len() ==> (#[trigger] self.write_queue@[i]).spec_direction()
                == Direction::Write
    }
}

/// A readiness notification: the descriptor's token and the direction that became ready.
#[derive(PartialEq, Eq, Structural, Clone, Copy, Debug)]
pub struct ReadyEvent {
    pub token: usize,
    pub direction: Direction,
}

/// Why a descriptor could not be registered.
#[derive(PartialEq, Eq, Structural, Clone, Copy, Debug)]
pub enum RegisterError {
    /// The descriptor is negative.
    InvalidDescriptor,
    /// The descriptor is already managed under another token.
    AlreadyRegistered,
}

/// Why an operation could not be submitted.
#[derive(PartialEq, Eq, Structural, Clone, Copy, Debug)]
pub enum SubmitError {
    /// The token names no registered descriptor.
    UnknownToken,
    /// Every operation id has been handed out.
    IdsExhausted,
}

/// What closing a descriptor released: the descriptor, to be deregistered
/// and closed by its owner, and one cancellation per operation still queued.
#[derive(Debug)]
pub struct Closed {
    pub fd: i32,
    pub cancelled: Vec<Completion>,
}

/// The cancellation delivered to an operation that never ran to completion.
pub open spec fn cancellation(op: PendingOp) -> Completion {
    Completion { id: op.spec_id(), result: OpResult::Cancelled }
}

/// One cancellation for each operation of `q`, in queue order.
pub open spec fn cancellations(q: Seq<PendingOp>) -> Seq<Completion> {
    q.map_values(|op: PendingOp| cancellation(op))
}

/// The events of `events` whose token is live in `r`, in their order.
pub open spec fn live_only(r: Reactor, events: Seq<ReadyEvent>) -> Seq<ReadyEvent>
    decreases events.len(),
{
    if events.len() == 0 {
        Seq::empty()
    } else {
        let rest = live_only(r, events.drop_last());
        if r.live(events.last().token as int) {
            rest.push(events.last())
        } else {
            rest
        }
    }
}

/// Owns the descriptor table. Tokens are slot indices and are never reused,
/// so an event carrying the token of a closed descriptor can never reach a
/// descriptor registered later.
pub struct Reactor {
    slots: Vec<Option<DescriptorState>>,
    next_id: u64,
}

impl Reactor {
    /// Number of tokens handed out so far.
    pub closed spec fn slot_count(&self) -> nat {
        self.slots@.len()
    }

    /// The record behind token `t`, or `None` once closed or never issued.
    pub closed spec fn slot(&self, t: int) -> Option<DescriptorState> {
        if 0 <= t < self.slots@.len() {
            self.slots@[t]
        } else {
            None
        }
    }

    /// The id the next submitted operation receives.
    pub closed spec fn next_op_id(&self) -> u64 {
        self.next_id
    }

    pub open spec fn live(&self, t: int) -> bool {
        self.slot(t) is Some
    }

    pub open spec fn fd_of(&self, t: int) -> i32 {
        self.slot(t)->Some_0.fd
    }

    pub open spec fn queue(&self, t: int, d: Direction) -> Seq<PendingOp> {
        self.slot(t)->Some_0.queue(d)
    }

    /// Whether some live token manages descriptor `fd`.
    pub open spec fn manages(&self, fd: i32) -> bool {
        exists|t: int| self.live(t) && #[trigger] self.fd_of(t) == fd
    }

    /// Whether position `i` of the queue of `t` in direction `d` holds an operation.
    pub open spec fn occupied(&self, t: int, d: Direction, i: int) -> bool {
        self.live(t) && 0 <= i < self.queue(t, d).len()
    }

    /// The id of the operation at position `i` of the queue of `t` in direction `d`.
    pub open spec fn id_at(&self, t: int, d: Direction, i: int) -> u64 {
        self.queue(t, d)[i].spec_id()
    }

    /// Every queued operation has an id below the next one to be handed out,
    /// and no id is queued twice: an operation sits in at most one queue, once.
    pub open spec fn ids_unique(&self) -> bool {
        &&& forall|t: int, d: Direction, i: int|
            self.occupied(t, d, i) ==> #[trigger] self.id_at(t, d, i) < self.next_op_id()
        &&& forall|t: int, d: Direction, i: int, u: int, e: Direction, j: int|
            self.occupied(t, d, i) && self.occupied(u, e, j) && #[trigger] self.id_at(t, d, i)
                == #[trigger] self.id_at(u, e, j) ==> t == u && d == e && i == j
    }

    pub closed spec fn wf(&self) -> bool {
        &&& self.ids_unique()
        &&& forall|t: int|
            #![trigger self.slots@[t]]
            0 <= t < self.slots@.len() && self.slots@[t] is Some ==> {
                &&& self.slots@[t]->Some_0.wf()
                &&& self.slots@[t]->Some_0.fd >= 0
            }
        &&& forall|t: int, u: int|
            #![trigger self.slots@[t], self.slots@[u]]
            0 <= t < self.slots@.len() && 0 <= u < self.slots@.len() && t != u
                && self.slots@[t] is Some && self.slots@[u] is Some ==> self.slots@[t]->Some_0.fd
                != self.slots@[u]->Some_0.fd
    }

    /// A token that is dead in `old` is dead in `self`, and no token was withdrawn.
    pub open spec fn keeps_retired(&self, old: &Reactor) -> bool {
        &&& old.slot_count() <= self.slot_count()
        &&& forall|t: int| #![trigger self.live(t)] !old.live(t) && t < old.slot_count() ==> !self.live(t)
    }

    /// `self` is `old` but for the queue of token `t` in direction `d`.
    pub open spec fn same_except_queue(&self, old: &Reactor, t: int, d: Direction) -> bool {
        &&& self.slot_count() == old.slot_count()
        &&& self.next_op_id() == old.next_op_id()
        &&& self.live(t) == old.live(t)
        &&& self.fd_of(t) == old.fd_of(t)
        &&& self.queue(t, flip(d)) == old.queue(t, flip(d))
        &&& forall|u: int| u != t ==> #[trigger] self.slot(u) == old.slot(u)
    }

    pub fn new() -> (r: Reactor)
        ensures
            r.wf(),
            r.slot_count() == 0,
            r.next_op_id() == 0,
            forall|t: int| !r.live(t),
    {
        Reactor { slots: Vec::new(), next_id: 0 }
    }

    /// The token under which `fd` is managed, if any.
    pub fn token_of(&self, fd: i32) -> (r: Option<usize>)
        requires
            self.wf(),
        ensures
            match r {
                Some(t) => self.live(t as int) && self.fd_of(t as int) == fd,
                None => !self.manages(fd),
            },
    {
        let mut i: usize = 0;
        while i < self.slots.len()
            invariant
                i <= self.slots@.len(),
                forall|t: int| 0 <= t < i ==> !(self.live(t) && #[trigger] self.fd_of(t) == fd),
            decreases self.slots@.len() - i,
        {
            match &self.slots[i] {
                Some(st) => {
                    if st.fd == fd {
                        return Some(i);
                    }
                },
                None => {},
            }
            i = i + 1;
        }
        proof {
            assert forall|t: int| !(self.live(t) && #[trigger] self.fd_of(t) == fd) by {
                if 0 <= t < i {
                }
            }
        }
        None
    }

    /// Brings `fd` under management with empty queues. The new token is the
    /// next unused slot index.
    pub fn register_socket(&mut self, fd: i32) -> (r: Result<usize, RegisterError>)
        requires
            old(self).wf(),
        ensures
            final(self).wf(),
            final(self).keeps_retired(old(self)),
            final(self).next_op_id() == old(self).next_op_id(),
            fd < 0 ==> r == Err::<usize, RegisterError>(RegisterError::InvalidDescriptor),
            fd >= 0 && old(self).manages(fd) ==> r == Err::<usize, RegisterError>(
                RegisterError::AlreadyRegistered,
            ),
            r is Err ==> *final(self) == *old(self),
            fd >= 0 && !old(self).manages(fd) ==> {
                &&& r == Ok::<usize, RegisterError>(old(self).slot_count() as usize)
                &&& final(self).slot_count() == old(self).slot_count() + 1
                &&& final(self).live(old(self).slot_count() as int)
                &&& final(self).fd_of(old(self).slot_count() as int) == fd
                &&& final(self).queue(old(self).slot_count() as int, Direction::Read).len() == 0
                &&& final(self).queue(old(self).slot_count() as int, Direction::Write).len() == 0
                &&& forall|u: int|
                    u < old(self).slot_count() ==> #[trigger] final(self).slot(u) == old(self).slot(u)
            },
            r is Ok ==> {
                &&& final(self).live(r->Ok_0 as int)
                &&& final(self).fd_of(r->Ok_0 as int) == fd
                &&& final(self).queue(r->Ok_0 as int, Direction::Read).len() == 0
                &&& final(self).queue(r->Ok_0 as int, Direction::Write).len() == 0
            },
    {
        if fd < 0 {
            return Err(RegisterError::InvalidDescriptor);
        }
        if self.token_of(fd).is_some() {
            return Err(RegisterError::AlreadyRegistered);
        }
        let t = self.slots.len();
        let st = DescriptorState { fd, read_queue: VecDeque::new(), write_queue: VecDeque::new() };
        self.slots.push(Some(st));
        proof {
            assert(self.slots@[t as int] is Some);
            assert forall|u: int| 0 <= u < t && self.slots@[u] is Some implies self.slots@[u]->Some_0.fd != fd by {
                assert(old(self).slots@[u] == self.slots@[u]);
                assert(old(self).live(u));
                assert(!(old(self).live(u) && old(self).fd_of(u) == fd));
            }
            assert forall|u: int, e: Direction, j: int| self.occupied(u, e, j) implies old(
                self,
            ).occupied(u, e, before_pos(u, e, j, 0, Direction::Read, 0)) && #[trigger] self.id_at(u, e, j)
                == old(self).id_at(u, e, before_pos(u, e, j, 0, Direction::Read, 0)) by {
                assert(u != t);
                assert(self.slots@[u] == old(self).slots@[u]);
            }
            lemma_ids_carry(*old(self), *self, 0, Direction::Read, 0);
        }
        Ok(t)
    }
}

impl Reactor {
    /// `self` is `old` after the head operation of token `t` in direction `d`
    /// completed with `c`.
    pub open spec fn completed(&self, old: &Reactor, t: int, d: Direction, c: Completion) -> bool {
        &&& old.queue(t, d).len() > 0
        &&& c.id == old.queue(t, d)[0].spec_id()
        &&& self.same_except_queue(old, t, d)
        &&& self.queue(t, d) == old.queue(t, d).drop_first()
    }

    /// `self` is `old` with `op` appended to the queue of its direction under `t`,
    /// and one more operation id spent.
    pub open spec fn enqueued(&self, old: &Reactor, t: int, op: PendingOp) -> bool {
        &&& self.slot_count() == old.slot_count()
        &&& self.next_op_id() == old.next_op_id() + 1
        &&& self.live(t)
        &&& self.fd_of(t) == old.fd_of(t)
        &&& self.queue(t, op.spec_direction()) == old.queue(t, op.spec_direction()).push(op)
        &&& self.queue(t, flip(op.spec_direction())) == old.queue(t, flip(op.spec_direction()))
        &&& forall|u: int| u != t ==> #[trigger] self.slot(u) == old.slot(u)
    }

    /// What every submission promises: an unknown token and exhausted ids are
    /// refused with the state untouched; otherwise `make(id)` is queued, where
    /// `id` is the next operation id, and `id` is returned.
    pub open spec fn submitted(
        &self,
        old: &Reactor,
        t: int,
        op: PendingOp,
        r: Result<u64, SubmitError>,
    ) -> bool {
        &&& !old.live(t) ==> r == Err::<u64, SubmitError>(SubmitError::UnknownToken)
        &&& old.live(t) && old.next_op_id() == u64::MAX ==> r == Err::<u64, SubmitError>(
            SubmitError::IdsExhausted,
        )
        &&& r is Err ==> *self == *old
        &&& old.live(t) && old.next_op_id() < u64::MAX ==> {
            &&& r == Ok::<u64, SubmitError>(old.next_op_id())
            &&& self.enqueued(old, t, op)
        }
    }

    /// Whether token `t` is live.
    pub fn is_live(&self, t: usize) -> (r: bool)
        ensures
            r == self.live(t as int),
    {
        t < self.slots.len() && self.slots[t].is_some()
    }

    fn enqueue(&mut self, t: usize, op: PendingOp)
        requires
            old(self).wf(),
            old(self).live(t as int),
            old(self).next_op_id() < u64::MAX,
            op.spec_id() == old(self).next_op_id(),
        ensures
            final(self).wf(),
            final(self).enqueued(old(self), t as int, op),
    {
        let d = op.direction();
        let mut slot: Option<DescriptorState> = None;
        self.slots.set_and_swap(t, &mut slot);
        match slot {
            Some(mut st) => {
                match d {
                    Direction::Read => st.read_queue.push_back(op),
                    Direction::Write => st.write_queue.push_back(op),
                }
                self.slots.set(t, Some(st));
            },
            None => {},
        }
        self.next_id = self.next_id + 1;
        proof {
            assert forall|u: int| u != t implies #[trigger] self.slot(u) == old(self).slot(u) by {}
            assert(self.slots@[t as int]->Some_0.wf()) by {
                let st = self.slots@[t as int]->Some_0;
                let st0 = old(self).slots@[t as int]->Some_0;
                assert(st0.wf());
                assert forall|i: int| 0 <= i < st.read_queue@.len() implies (
                #[trigger] st.read_queue@[i]).spec_direction() == Direction::Read by {
                    if i < st0.read_queue@.len() {
                        assert(st.read_queue@[i] == st0.read_queue@[i]);
                    }
                }
                assert forall|i: int| 0 <= i < st.write_queue@.len() implies (
                #[trigger] st.write_queue@[i]).spec_direction() == Direction::Write by {
                    if i < st0.write_queue@.len() {
                        assert(st.write_queue@[i] == st0.write_queue@[i]);
                    }
                }
            }
            lemma_fds_stay_distinct(*old(self), *self, t as int);
            let n = old(self).queue(t as int, d).len() as int;
            let pre = *old(self);
            assert(self.queue(t as int, d) =~= pre.queue(t as int, d).push(op));
            assert forall|u: int, e: Direction, j: int| #[trigger] self.occupied(u, e, j) implies (
            if u == t && e == d && j == n {
                self.id_at(u, e, j) == pre.next_op_id()
            } else {
                pre.occupied(u, e, j) && self.id_at(u, e, j) == pre.id_at(u, e, j)
            }) by {
                if u != t {
                    assert(self.slot(u) == pre.slot(u));
                } else if e != d {
                    assert(e == flip(d));
                }
            }
            assert forall|u: int, e: Direction, j: int| self.occupied(u, e, j) implies #[trigger] self.id_at(
                u,
                e,
                j,
            ) < self.next_op_id() by {
                if !(u == t && e == d && j == n) {
                    assert(pre.id_at(u, e, j) < pre.next_op_id());
                }
            }
            assert forall|u: int, e: Direction, j: int, v: int, f: Direction, l: int|
                self.occupied(u, e, j) && self.occupied(v, f, l) && #[trigger] self.id_at(u, e, j)
                    == #[trigger] self.id_at(v, f, l) implies u == v && e == f && j == l by {
                if !(u == t && e == d && j == n) && !(v == t && f == d && l == n) {
                    assert(pre.id_at(u, e, j) == pre.id_at(v, f, l));
                }
            }
        }
    }

    /// Queues a read of at most `capacity` bytes on token `t`.
    pub fn submit_read(&mut self, t: usize, capacity: usize) -> (r: Result<u64, SubmitError>)
        requires
            old(self).wf(),
        ensures
            final(self).wf(),
            final(self).keeps_retired(old(self)),
            final(self).submitted(
                old(self),
                t as int,
                PendingOp::Read(ReadOperation { id: old(self).next_op_id(), capacity }),
                r,
            ),
    {
        if !self.is_live(t) {
            return Err(SubmitError::UnknownToken);
        }
        if self.next_id == u64::MAX {
            return Err(SubmitError::IdsExhausted);
        }
        let id = self.next_id;
        self.enqueue(t, PendingOp::Read(ReadOperation { id, capacity }));
        Ok(id)
    }

    /// Queues a write of `data` on token `t`.
    pub fn submit_write(&mut self, t: usize, data: Vec<u8>) -> (r: Result<u64, SubmitError>)
        requires
            old(self).wf(),
        ensures
            final(self).wf(),
            final(self).keeps_retired(old(self)),
            final(self).submitted(
                old(self),
                t as int,
                PendingOp::Write(WriteOperation { id: old(self).next_op_id(), data }),
                r,
            ),
    {
        if !self.is_live(t) {
            return Err(SubmitError::UnknownToken);
        }
        if self.next_id == u64::MAX {
            return Err(SubmitError::IdsExhausted);
        }
        let id = self.next_id;
        self.enqueue(t, PendingOp::Write(WriteOperation { id, data }));
        Ok(id)
    }

    /// Queues an accept on token `t`.
    pub fn submit_accept(&mut self, t: usize) -> (r: Result<u64, SubmitError>)
        requires
            old(self).wf(),
        ensures
            final(self).wf(),
            final(self).keeps_retired(old(self)),
            final(self).submitted(
                old(self),
                t as int,
                PendingOp::Accept(AcceptOperation { id: old(self).next_op_id() }),
                r,
            ),
    {
        if !self.is_live(t) {
            return Err(SubmitError::UnknownToken);
        }
        if self.next_id == u64::MAX {
            return Err(SubmitError::IdsExhausted);
        }
        let id = self.next_id;
        self.enqueue(t, PendingOp::Accept(AcceptOperation { id }));
        Ok(id)
    }
}

impl Reactor {
    /// The operation at the head of the queue of `t` in direction `d`: the
    /// one the next readiness event in that direction is for.
    pub fn head(&self, t: usize, d: Direction) -> (r: Option<&PendingOp>)
        ensures
            match r {
                Some(op) => self.live(t as int) && self.queue(t as int, d).len() > 0 && *op
                    == self.queue(t as int, d)[0],
                None => !self.live(t as int) || self.queue(t as int, d).len() == 0,
            },
    {
        if t >= self.slots.len() {
            return None;
        }
        match &self.slots[t] {
            Some(st) => {
                let q = match d {
                    Direction::Read => &st.read_queue,
                    Direction::Write => &st.write_queue,
                };
                if q.len() > 0 {
                    Some(&q[0])
                } else {
                    None
                }
            },
            None => None,
        }
    }

    /// Hands the outcome of one attempt of the head operation of `t` in
    /// direction `d` to that operation. A completed operation leaves its
    /// queue; otherwise nothing changes, so the operation runs again on a
    /// retry or on the next readiness event.
    pub fn dispatch(&mut self, t: usize, d: Direction, outcome: Outcome<Payload>) -> (r: Step)
        requires
            old(self).wf(),
            old(self).live(t as int),
            old(self).queue(t as int, d).len() > 0,
            outcome is Ready ==> old(self).queue(t as int, d)[0].spec_fits(outcome->Ready_0),
        ensures
            final(self).wf(),
            final(self).keeps_retired(old(self)),
            r == step_of(old(self).queue(t as int, d)[0].spec_id(), outcome),
            outcome is WouldBlock ==> r is NotReady && *final(self) == *old(self),
            !(r is Done) ==> *final(self) == *old(self),
            r is Done ==> final(self).completed(old(self), t as int, d, r->Done_0),
    {
        let step = match self.head(t, d) {
            Some(op) => op.perform(outcome),
            None => Step::NotReady,
        };
        if let Step::Done(_) = &step {
            self.pop_head(t, d);
        }
        step
    }

    fn pop_head(&mut self, t: usize, d: Direction)
        requires
            old(self).wf(),
            old(self).live(t as int),
            old(self).queue(t as int, d).len() > 0,
        ensures
            final(self).wf(),
            final(self).keeps_retired(old(self)),
            final(self).same_except_queue(old(self), t as int, d),
            final(self).queue(t as int, d) == old(self).queue(t as int, d).drop_first(),
    {
        let mut slot: Option<DescriptorState> = None;
        self.slots.set_and_swap(t, &mut slot);
        match slot {
            Some(mut st) => {
                match d {
                    Direction::Read => {
                        st.read_queue.pop_front();
                    },
                    Direction::Write => {
                        st.write_queue.pop_front();
                    },
                }
                self.slots.set(t, Some(st));
            },
            None => {},
        }
        proof {
            let st = self.slots@[t as int]->Some_0;
            let st0 = old(self).slots@[t as int]->Some_0;
            assert(st0.wf());
            assert(st.queue(d) =~= st0.queue(d).drop_first());
            assert forall|u: int| u != t implies #[trigger] self.slot(u) == old(self).slot(u) by {}
            assert(st.wf()) by {
                assert forall|i: int| 0 <= i < st.read_queue@.len() implies (
                #[trigger] st.read_queue@[i]).spec_direction() == Direction::Read by {
                    if d == Direction::Read {
                        assert(st.read_queue@[i] == st0.read_queue@[i + 1]);
                    } else {
                        assert(st.read_queue@[i] == st0.read_queue@[i]);
                    }
                }
                assert forall|i: int| 0 <= i < st.write_queue@.len() implies (
                #[trigger] st.write_queue@[i]).spec_direction() == Direction::Write by {
                    if d == Direction::Write {
                        assert(st.write_queue@[i] == st0.write_queue@[i + 1]);
                    } else {
                        assert(st.write_queue@[i] == st0.write_queue@[i]);
                    }
                }
            }
            lemma_fds_stay_distinct(*old(self), *self, t as int);
            let pre = *old(self);
            assert forall|u: int, e: Direction, j: int| self.occupied(u, e, j) implies pre.occupied(
                u,
                e,
                before_pos(u, e, j, t as int, d, 1),
            ) && #[trigger] self.id_at(u, e, j) == pre.id_at(
                u,
                e,
                before_pos(u, e, j, t as int, d, 1),
            ) by {
                if u != t {
                    assert(self.slot(u) == pre.slot(u));
                } else if e != d {
                    assert(e == flip(d));
                }
            }
            lemma_ids_carry(pre, *self, t as int, d, 1);
        }
    }
}

/// Empties `q` into `out`, one cancellation per operation, oldest first.
fn cancel_all(q: &mut VecDeque<PendingOp>, out: &mut Vec<Completion>)
    ensures
        final(q)@.len() == 0,
        final(out)@ == old(out)@ + cancellations(old(q)@),
{
    let ghost orig = q@;
    let ghost start = out@;
    let ghost mut k: int = 0;
    loop
        invariant
            0 <= k <= orig.len(),
            q@ == orig.subrange(k, orig.len() as int),
            out@ == start + cancellations(orig.subrange(0, k)),
        ensures
            q@.len() == 0,
            out@ == start + cancellations(orig),
        decreases q@.len(),
    {
        match q.pop_front() {
            Some(op) => {
                let id = op.id();
                out.push(Completion { id, result: OpResult::Cancelled });
                proof {
                    assert(orig.subrange(0, k + 1) =~= orig.subrange(0, k).push(op));
                    assert(cancellations(orig.subrange(0, k + 1)) =~= cancellations(
                        orig.subrange(0, k),
                    ).push(cancellation(op)));
                    k = k + 1;
                }
            },
            None => {
                proof {
                    assert(orig.subrange(0, k) =~= orig);
                }
                break ;
            },
        }
    }
}

impl Reactor {
    /// Withdraws token `t`: its queued operations are resolved as cancelled,
    /// read queue first, each queue oldest first, and its descriptor is handed
    /// back for deregistration and closing. The token is never live again.
    /// Closing a token that is not live changes nothing.
    pub fn close(&mut self, t: usize) -> (r: Option<Closed>)
        requires
            old(self).wf(),
        ensures
            final(self).wf(),
            final(self).keeps_retired(old(self)),
            !final(self).live(t as int),
            !old(self).live(t as int) ==> r is None && *final(self) == *old(self),
            old(self).live(t as int) ==> {
                &&& r is Some
                &&& r->Some_0.fd == old(self).fd_of(t as int)
                &&& r->Some_0.cancelled@ == cancellations(
                    old(self).queue(t as int, Direction::Read) + old(self).queue(
                        t as int,
                        Direction::Write,
                    ),
                )
                &&& final(self).slot_count() == old(self).slot_count()
                &&& final(self).next_op_id() == old(self).next_op_id()
                &&& !final(self).manages(old(self).fd_of(t as int))
                &&& forall|u: int| u != t ==> #[trigger] final(self).slot(u) == old(self).slot(u)
            },
    {
        if !self.is_live(t) {
            return None;
        }
        let mut slot: Option<DescriptorState> = None;
        self.slots.set_and_swap(t, &mut slot);
        match slot {
            Some(mut st) => {
                let mut cancelled: Vec<Completion> = Vec::new();
                cancel_all(&mut st.read_queue, &mut cancelled);
                cancel_all(&mut st.write_queue, &mut cancelled);
                proof {
                    let st0 = old(self).slots@[t as int]->Some_0;
                    let q = st0.read_queue@ + st0.write_queue@;
                    assert(cancellations(q) =~= cancellations(st0.read_queue@) + cancellations(
                        st0.write_queue@,
                    ));
                    assert forall|u: int| u != t implies #[trigger] self.slot(u) == old(self).slot(
                        u,
                    ) by {}
                    assert forall|u: int| !(self.live(u) && #[trigger] self.fd_of(u) == st0.fd) by {
                        if self.live(u) && u != t {
                            assert(old(self).slots@[u] is Some);
                            assert(old(self).slots@[t as int] is Some);
                        }
                    }
                    let pre = *old(self);
                    assert forall|u: int, e: Direction, j: int| self.occupied(u, e, j) implies pre.occupied(
                        u,
                        e,
                        before_pos(u, e, j, t as int, Direction::Read, 0),
                    ) && #[trigger] self.id_at(u, e, j) == pre.id_at(
                        u,
                        e,
                        before_pos(u, e, j, t as int, Direction::Read, 0),
                    ) by {
                        assert(self.slot(u) == pre.slot(u));
                    }
                    lemma_ids_carry(pre, *self, t as int, Direction::Read, 0);
                }
                Some(Closed { fd: st.fd, cancelled })
            },
            None => None,
        }
    }

    /// The events of `events` that a live descriptor can act on, in order.
    /// Events whose token was closed or never issued are dropped.
    pub fn live_events(&self, events: &Vec<ReadyEvent>) -> (r: Vec<ReadyEvent>)
        ensures
            r@ == live_only(*self, events@),
    {
        let mut out: Vec<ReadyEvent> = Vec::new();
        let mut i: usize = 0;
        while i < events.len()
            invariant
                i <= events@.len(),
                out@ == live_only(*self, events@.subrange(0, i as int)),
            decreases events@.len() - i,
        {
            let e = events[i];
            proof {
                assert(events@.subrange(0, i + 1).drop_last() =~= events@.subrange(0, i as int));
            }
            if self.is_live(e.token) {
                out.push(e);
            }
            i = i + 1;
        }
        proof {
            assert(events@.subrange(0, i as int) =~= events@);
        }
        out
    }
}

/// Position `j` of queue (`u`, `e`) in a state where the queue (`t`, `d`)
/// lost its first `k` entries, seen in the state before.
spec fn before_pos(u: int, e: Direction, j: int, t: int, d: Direction, k: int) -> int {
    if u == t && e == d {
        j + k
    } else {
        j
    }
}

/// Id uniqueness carries over to a state whose queued operations all stood
/// in `old`, with (`t`, `d`) shortened at the front by `k`.
proof fn lemma_ids_carry(old: Reactor, new: Reactor, t: int, d: Direction, k: int)
    requires
        old.ids_unique(),
        0 <= k,
        old.next_op_id() <= new.next_op_id(),
        forall|u: int, e: Direction, j: int|
            new.occupied(u, e, j) ==> old.occupied(u, e, before_pos(u, e, j, t, d, k))
                && #[trigger] new.id_at(u, e, j) == old.id_at(u, e, before_pos(u, e, j, t, d, k)),
    ensures
        new.ids_unique(),
{
    assert forall|u: int, e: Direction, j: int| new.occupied(u, e, j) implies #[trigger] new.id_at(
        u,
        e,
        j,
    ) < new.next_op_id() by {
        let p = before_pos(u, e, j, t, d, k);
        assert(new.id_at(u, e, j) == old.id_at(u, e, p));
        assert(old.occupied(u, e, p));
        assert(old.id_at(u, e, p) < old.next_op_id());
    }
    assert forall|u: int, e: Direction, j: int, v: int, f: Direction, l: int|
        new.occupied(u, e, j) && new.occupied(v, f, l) && #[trigger] new.id_at(u, e, j)
            == #[trigger] new.id_at(v, f, l) implies u == v && e == f && j == l by {
        let pj = before_pos(u, e, j, t, d, k);
        let pl = before_pos(v, f, l, t, d, k);
        assert(new.id_at(u, e, j) == old.id_at(u, e, pj));
        assert(new.id_at(v, f, l) == old.id_at(v, f, pl));
        assert(old.occupied(u, e, pj) && old.occupied(v, f, pl));
        assert(old.id_at(u, e, pj) == old.id_at(v, f, pl));
        assert(u == v && e == f && pj == pl);
    }
}

/// Descriptors stay distinct when only the record of `t` changed, and kept its descriptor.
proof fn lemma_fds_stay_distinct(old: Reactor, new: Reactor, t: int)
    requires
        old.wf(),
        0 <= t < old.slots@.len(),
        new.slots@.len() == old.slots@.len(),
        old.slots@[t] is Some,
        new.slots@[t] is Some,
        new.slots@[t]->Some_0.fd == old.slots@[t]->Some_0.fd,
        forall|u: int| 0 <= u < old.slots@.len() && u != t ==> new.slots@[u] == old.slots@[u],
    ensures
        forall|a: int, b: int|
            #![trigger new.slots@[a], new.slots@[b]]
            0 <= a < new.slots@.len() && 0 <= b < new.slots@.len() && a != b
                && new.slots@[a] is Some && new.slots@[b] is Some ==> new.slots@[a]->Some_0.fd
                != new.slots@[b]->Some_0.fd,
{
    assert forall|a: int, b: int|
        0 <= a < new.slots@.len() && 0 <= b < new.slots@.len() && a != b
            && new.slots@[a] is Some && new.slots@[b] is Some implies #[trigger] new.slots@[a]->Some_0.fd
        != #[trigger] new.slots@[b]->Some_0.fd by {
        assert(old.slots@[a] is Some && old.slots@[b] is Some);
    }
}

/// The other direction.
pub open spec fn flip(d: Direction) -> Direction {
    match d {
        Direction::Read => Direction::Write,
        Direction::Write => Direction::Read,
    }
}

/// Every event that `live_only` keeps carries a live token.
pub proof fn lemma_live_only_live(r: Reactor, events: Seq<ReadyEvent>)
    ensures
        forall|i: int|
            0 <= i < live_only(r, events).len() ==> r.live(
                (#[trigger] live_only(r, events)[i]).token as int,
            ),
    decreases events.len(),
{
    if events.len() > 0 {
        lemma_live_only_live(r, events.drop_last());
    }
}

/// Once a live token is closed, no later state of the reactor (one that
/// keeps retired tokens retired, as every operation does) holds it, and no
/// ready batch filtered there delivers an event for it.
pub proof fn lemma_closed_token_stays_out(
    before: Reactor,
    after: Reactor,
    later: Reactor,
    t: int,
    events: Seq<ReadyEvent>,
)
    requires
        before.live(t),
        !after.live(t),
        after.keeps_retired(&before),
        later.keeps_retired(&after),
    ensures
        !later.live(t),
        forall|i: int|
            0 <= i < live_only(later, events).len() ==> (#[trigger] live_only(later, events)[i]).token
                != t,
{
    assert(before.slot(t) is Some);
    assert(0 <= t < before.slot_count());
    assert(!later.live(t));
    lemma_live_only_live(later, events);
}

/// Submissions append: after queueing `ops` one by one on token `t`, all in
/// direction `d`, the queue is the old queue followed by `ops` in order.
pub proof fn lemma_submissions_append(states: Seq<Reactor>, ops: Seq<PendingOp>, t: int, d: Direction)
    requires
        states.len() == ops.len() + 1,
        forall|i: int| 0 <= i < ops.len() ==> (#[trigger] ops[i]).spec_direction() == d,
        forall|i: int|
            0 <= i < ops.len() ==> (#[trigger] states[i + 1]).enqueued(&states[i], t, ops[i]),
    ensures
        states.last().queue(t, d) == states[0].queue(t, d) + ops,
    decreases ops.len(),
{
    if ops.len() > 0 {
        let n = ops.len() - 1;
        lemma_submissions_append(states.drop_last(), ops.drop_last(), t, d);
        assert(states.drop_last().last() == states[n]);
        assert(states[n + 1].enqueued(&states[n], t, ops[n]));
        assert(states[0].queue(t, d) + ops.drop_last() + seq![ops[n]] =~= states[0].queue(t, d)
            + ops);
    } else {
        assert(states[0].queue(t, d) + ops =~= states[0].queue(t, d));
    }
}

/// Completions drain the head: successive completions on token `t` in
/// direction `d` carry the ids of the queue's operations in queue order.
pub proof fn lemma_completions_in_order(
    states: Seq<Reactor>,
    done: Seq<Completion>,
    t: int,
    d: Direction,
)
    requires
        states.len() == done.len() + 1,
        forall|i: int|
            0 <= i < done.len() ==> (#[trigger] states[i + 1]).completed(&states[i], t, d, done[i]),
    ensures
        done.len() <= states[0].queue(t, d).len(),
        states.last().queue(t, d) == states[0].queue(t, d).subrange(
            done.len() as int,
            states[0].queue(t, d).len() as int,
        ),
        forall|i: int|
            0 <= i < done.len() ==> (#[trigger] done[i]).id == states[0].queue(t, d)[i].spec_id(),
    decreases done.len(),
{
    if done.len() > 0 {
        let n = done.len() - 1;
        lemma_completions_in_order(states.drop_last(), done.drop_last(), t, d);
        assert(states.drop_last().last() == states[n]);
        assert(states[n + 1].completed(&states[n], t, d, done[n]));
        let q0 = states[0].queue(t, d);
        assert(states[n].queue(t, d) == q0.subrange(n, q0.len() as int));
        assert(states[n + 1].queue(t, d) =~= q0.subrange(n + 1, q0.len() as int));
        assert forall|i: int| 0 <= i < done.len() implies (#[trigger] done[i]).id == q0[i].spec_id() by {
            if i < n {
                assert(done.drop_last()[i] == done[i]);
            }
        }
    } else {
        assert(states[0].queue(t, d).subrange(0, states[0].queue(t, d).len() as int)
            =~= states[0].queue(t, d));
    }
}

/// Operations queued on one descriptor and direction complete in the order
/// they were submitted: submit `ops` onto an empty queue, then let
/// completions drain it, and the completions carry the ids of `ops` in order.
pub proof fn lemma_fifo(
    submitting: Seq<Reactor>,
    ops: Seq<PendingOp>,
    draining: Seq<Reactor>,
    done: Seq<Completion>,
    t: int,
    d: Direction,
)
    requires
        submitting.len() == ops.len() + 1,
        submitting[0].queue(t, d).len() == 0,
        forall|i: int| 0 <= i < ops.len() ==> (#[trigger] ops[i]).spec_direction() == d,
        forall|i: int|
            0 <= i < ops.len() ==> (#[trigger] submitting[i + 1]).enqueued(&submitting[i], t, ops[i]),
        draining.len() == done.len() + 1,
        draining[0] == submitting.last(),
        forall|i: int|
            0 <= i < done.len() ==> (#[trigger] draining[i + 1]).completed(&draining[i], t, d, done[i]),
    ensures
        done.len() <= ops.len(),
        forall|i: int| 0 <= i < done.len() ==> (#[trigger] done[i]).id == ops[i].spec_id(),
{
    lemma_submissions_append(submitting, ops, t, d);
    assert(submitting[0].queue(t, d) + ops =~= ops);
    lemma_completions_in_order(draining, done, t, d);
}

/// A well-formed reactor never holds one operation id in two places.
pub proof fn lemma_ids_unique(r: Reactor)
    requires
        r.wf(),
    ensures
        r.ids_unique(),
{
}

} // verus!
