//! The per-client echo state machine: read until the socket would block,
//! then write everything back, then read again.
use vstd::prelude::*;

use crate::operation::Outcome;

verus! {

/// Where a connection stands.
#[derive(PartialEq, Eq, Structural, Clone, Copy, Debug)]
pub enum ConnState {
    /// Read interest is armed; inbound bytes accumulate.
    Reading,
    /// Write interest is armed; the buffered bytes are being sent back.
    Writing,
    /// Terminal: both interests are withdrawn and the descriptor is released.
    Closed,
}

/// The readiness a descriptor is registered for.
#[derive(PartialEq, Eq, Structural, Clone, Copy, Debug)]
pub struct Interest {
    pub read: bool,
    pub write: bool,
}

/// A reading connection waits for read readiness only, a writing one for
/// write readiness only, and a closed one for nothing.
pub open spec fn interest_of(s: ConnState) -> Interest {
    match s {
        ConnState::Reading => Interest { read: true, write: false },
        ConnState::Writing => Interest { read: false, write: true },
        ConnState::Closed => Interest { read: false, write: false },
    }
}

impl ConnState {
    /// The interest to register for a connection in this state.
    pub fn interest(self) -> (r: Interest)
        ensures
            r == interest_of(self),
    {
        match self {
            ConnState::Reading => Interest { read: true, write: false },
            ConnState::Writing => Interest { read: false, write: true },
            ConnState::Closed => Interest { read: false, write: false },
        }
    }
}

/// What the event loop does next after a read attempt.
#[derive(PartialEq, Eq, Structural, Clone, Copy, Debug)]
pub enum ReadAction {
    /// Issue another read now.
    ReadAgain,
    /// Nothing more to do until the next read readiness.
    Wait,
    /// Withdraw read interest, arm write interest, and start writing.
    SwitchToWrite,
    /// The connection is closed: deregister it and release its descriptor.
    Close,
}

/// What the event loop does next after a write attempt.
#[derive(PartialEq, Eq, Structural, Clone, Copy, Debug)]
pub enum WriteAction {
    /// Issue another write of the remaining bytes now.
    WriteAgain,
    /// Nothing more to do until the next write readiness.
    Wait,
    /// Everything was sent: withdraw write interest and arm read interest.
    SwitchToRead,
    /// The connection is closed: deregister it and release its descriptor.
    Close,
}

/// The abstract value of a connection.
pub struct ConnView {
    pub fd: i32,
    pub state: ConnState,
    /// Bytes received and not yet written back, oldest first.
    pub pending: Seq<u8>,
}

/// The outcome of a read, with the bytes as a sequence.
pub open spec fn read_outcome_view(o: Outcome<Vec<u8>>) -> Outcome<Seq<u8>> {
    match o {
        Outcome::Ready(b) => Outcome::Ready(b@),
        Outcome::WouldBlock => Outcome::WouldBlock,
        Outcome::Interrupted => Outcome::Interrupted,
        Outcome::Failed(e) => Outcome::Failed(e),
    }
}

/// The connection after a read attempt reported `o`, for a connection that is reading.
pub open spec fn after_read(c: ConnView, o: Outcome<Seq<u8>>) -> ConnView {
    match o {
        Outcome::Ready(b) => if b.len() == 0 {
            ConnView { state: ConnState::Closed, ..c }
        } else {
            ConnView { pending: c.pending + b, ..c }
        },
        Outcome::WouldBlock => if c.pending.len() > 0 {
            ConnView { state: ConnState::Writing, ..c }
        } else {
            c
        },
        Outcome::Interrupted => c,
        Outcome::Failed(_) => ConnView { state: ConnState::Closed, ..c },
    }
}

/// The action that follows a read attempt that reported `o`.
pub open spec fn read_action(c: ConnView, o: Outcome<Seq<u8>>) -> ReadAction {
    match o {
        Outcome::Ready(b) => if b.len() == 0 {
            ReadAction::Close
        } else {
            ReadAction::ReadAgain
        },
        Outcome::WouldBlock => if c.pending.len() > 0 {
            ReadAction::SwitchToWrite
        } else {
            ReadAction::Wait
        },
        Outcome::Interrupted => ReadAction::ReadAgain,
        Outcome::Failed(_) => ReadAction::Close,
    }
}

/// The connection after a write attempt reported `o`, for a connection that is writing.
pub open spec fn after_write(c: ConnView, o: Outcome<usize>) -> ConnView {
    match o {
        Outcome::Ready(n) => if n == 0 {
            ConnView { state: ConnState::Closed, ..c }
        } else if n >= c.pending.len() {
            ConnView { state: ConnState::Reading, pending: Seq::empty(), ..c }
        } else {
            ConnView { pending: c.pending.subrange(n as int, c.pending.len() as int), ..c }
        },
        Outcome::WouldBlock => c,
        Outcome::Interrupted => c,
        Outcome::Failed(_) => ConnView { state: ConnState::Closed, ..c },
    }
}

/// The action that follows a write attempt that reported `o`.
pub open spec fn write_action(c: ConnView, o: Outcome<usize>) -> WriteAction {
    match o {
        Outcome::Ready(n) => if n == 0 {
            WriteAction::Close
        } else if n >= c.pending.len() {
            WriteAction::SwitchToRead
        } else {
            WriteAction::WriteAgain
        },
        Outcome::WouldBlock => WriteAction::Wait,
        Outcome::Interrupted => WriteAction::WriteAgain,
        Outcome::Failed(_) => WriteAction::Close,
    }
}

/// One accepted client.
#[derive(Debug)]
pub struct Connection {
    fd: i32,
    buf: Vec<u8>,
    state: ConnState,
}

impl View for Connection {
    type V = ConnView;

    closed spec fn view(&self) -> ConnView {
        ConnView { fd: self.fd, state: self.state, pending: self.buf@ }
    }
}

impl Connection {
    /// A writing connection always has bytes left to send.
    pub closed spec fn wf(&self) -> bool {
        self.state == ConnState::Writing ==> self.buf@.len() > 0
    }

    /// A freshly accepted connection: reading, with nothing buffered.
    pub fn new(fd: i32) -> (r: Connection)
        ensures
            r.wf(),
            r@ == (ConnView { fd, state: ConnState::Reading, pending: Seq::empty() }),
    {
        Connection { fd, buf: Vec::new(), state: ConnState::Reading }
    }

    pub fn fd(&self) -> (r: i32)
        ensures
            r == self@.fd,
    {
        self.fd
    }

    pub fn state(&self) -> (r: ConnState)
        ensures
            r == self@.state,
    {
        self.state
    }

    /// The bytes still to be written back, oldest first.
    pub fn pending_output(&self) -> (r: &[u8])
        ensures
            r@ == self@.pending,
    {
        self.buf.as_slice()
    }

    /// Takes the outcome of one read on a reading connection. Received bytes
    /// are appended; end of stream or an error closes; would-block switches
    /// to writing once anything is buffered.
    pub fn on_read(&mut self, o: Outcome<Vec<u8>>) -> (r: ReadAction)
        requires
            old(self).wf(),
            old(self)@.state == ConnState::Reading,
        ensures
            final(self).wf(),
            final(self)@ == after_read(old(self)@, read_outcome_view(o)),
            r == read_action(old(self)@, read_outcome_view(o)),
    {
        match o {
            Outcome::Ready(mut b) => {
                if b.len() == 0 {
                    self.state = ConnState::Closed;
                    ReadAction::Close
                } else {
                    self.buf.append(&mut b);
                    ReadAction::ReadAgain
                }
            },
            Outcome::WouldBlock => {
                if self.buf.len() > 0 {
                    self.state = ConnState::Writing;
                    ReadAction::SwitchToWrite
                } else {
                    ReadAction::Wait
                }
            },
            Outcome::Interrupted => ReadAction::ReadAgain,
            Outcome::Failed(_) => {
                self.state = ConnState::Closed;
                ReadAction::Close
            },
        }
    }

    /// Takes the outcome of one write of `pending_output` on a writing
    /// connection. Written bytes leave the front of the buffer; an empty
    /// buffer switches back to reading; a zero-byte write or an error closes.
    pub fn on_write(&mut self, o: Outcome<usize>) -> (r: WriteAction)
        requires
            old(self).wf(),
            old(self)@.state == ConnState::Writing,
            o is Ready ==> o->Ready_0 <= old(self)@.pending.len(),
        ensures
            final(self).wf(),
            final(self)@ == after_write(old(self)@, o),
            r == write_action(old(self)@, o),
    {
        match o {
            Outcome::Ready(n) => {
                if n == 0 {
                    self.state = ConnState::Closed;
                    WriteAction::Close
                } else if n >= self.buf.len() {
                    self.buf = Vec::new();
                    self.state = ConnState::Reading;
                    proof {
                        assert(self@.pending =~= Seq::<u8>::empty());
                    }
                    WriteAction::SwitchToRead
                } else {
                    self.buf = self.buf.split_off(n);
                    WriteAction::WriteAgain
                }
            },
            Outcome::WouldBlock => WriteAction::Wait,
            Outcome::Interrupted => WriteAction::WriteAgain,
            Outcome::Failed(_) => {
                self.state = ConnState::Closed;
                WriteAction::Close
            },
        }
    }
}

/// The bytes of `chunks` joined in order.
pub open spec fn concat(chunks: Seq<Seq<u8>>) -> Seq<u8>
    decreases chunks.len(),
{
    if chunks.len() == 0 {
        Seq::empty()
    } else {
        concat(chunks.drop_last()) + chunks.last()
    }
}

/// The connection after successive reads returned each of `chunks` in turn.
pub open spec fn after_reads(c: ConnView, chunks: Seq<Seq<u8>>) -> ConnView
    decreases chunks.len(),
{
    if chunks.len() == 0 {
        c
    } else {
        after_read(after_reads(c, chunks.drop_last()), Outcome::Ready(chunks.last()))
    }
}

/// However many reads return data, and however short each one is, the
/// connection keeps reading and its buffer is exactly the received bytes
/// joined in order. The would-block that ends the round then hands all of
/// them to the writing side.
pub proof fn lemma_reads_accumulate(c: ConnView, chunks: Seq<Seq<u8>>)
    requires
        c.state == ConnState::Reading,
        forall|i: int| 0 <= i < chunks.len() ==> (#[trigger] chunks[i]).len() > 0,
    ensures
        after_reads(c, chunks) == (ConnView { pending: c.pending + concat(chunks), ..c }),
        forall|i: int|
            0 <= i < chunks.len() ==> read_action(
                after_reads(c, chunks.take(i)),
                Outcome::Ready(#[trigger] chunks[i]),
            ) == ReadAction::ReadAgain,
        c.pending.len() + concat(chunks).len() > 0 ==> after_read(
            after_reads(c, chunks),
            Outcome::WouldBlock,
        ) == (ConnView { state: ConnState::Writing, pending: c.pending + concat(chunks), ..c }),
    decreases chunks.len(),
{
    if chunks.len() > 0 {
        let init = chunks.drop_last();
        lemma_reads_accumulate(c, init);
        assert(c.pending + concat(init) + chunks.last() =~= c.pending + concat(chunks));
        assert forall|i: int| 0 <= i < chunks.len() implies read_action(
            after_reads(c, chunks.take(i)),
            Outcome::Ready(#[trigger] chunks[i]),
        ) == ReadAction::ReadAgain by {
            if i < init.len() {
                assert(chunks.take(i) =~= init.take(i));
                assert(init[i] == chunks[i]);
            }
        }
    } else {
        assert(c.pending + concat(chunks) =~= c.pending);
    }
}

} // verus!
