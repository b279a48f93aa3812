//! The echo server's client table and its event routing, accept loop and
//! close discipline, driven by the outcomes of calls made elsewhere.
use vstd::prelude::*;

use crate::connection::{
    after_read, after_write, concat, read_action, read_outcome_view, write_action, ConnState,
    ConnView, Connection, ReadAction, WriteAction,
};
use crate::operation::{Direction, Outcome};

verus! {

/// The kind of readiness an event reports.
#[derive(PartialEq, Eq, Structural, Clone, Copy, Debug)]
pub enum Readiness {
    Readable,
    Writable,
    /// Anything else the multiplexer reports (an error or hang-up condition).
    Unexpected,
}

/// The readiness kinds one kernel event stands for, given whether it reports
/// the descriptor readable and writable: one per direction reported, and
/// `Unexpected` alone when it reports neither.
pub open spec fn readiness_seq(readable: bool, writable: bool) -> Seq<Readiness> {
    if readable && writable {
        seq![Readiness::Readable, Readiness::Writable]
    } else if readable {
        seq![Readiness::Readable]
    } else if writable {
        seq![Readiness::Writable]
    } else {
        seq![Readiness::Unexpected]
    }
}

impl Readiness {
    /// Splits one kernel event into the readiness kinds it reports.
    pub fn split(readable: bool, writable: bool) -> (r: Vec<Readiness>)
        ensures
            r@ == readiness_seq(readable, writable),
    {
        let mut r: Vec<Readiness> = Vec::new();
        if readable {
            r.push(Readiness::Readable);
        }
        if writable {
            r.push(Readiness::Writable);
        }
        if !readable && !writable {
            r.push(Readiness::Unexpected);
        }
        proof {
            assert(r@ =~= readiness_seq(readable, writable));
        }
        r
    }

    /// The queue direction a readiness kind serves; `None` for `Unexpected`.
    pub fn direction(self) -> (r: Option<Direction>)
        ensures
            self == Readiness::Readable ==> r == Some(Direction::Read),
            self == Readiness::Writable ==> r == Some(Direction::Write),
            self == Readiness::Unexpected ==> r is None,
    {
        match self {
            Readiness::Readable => Some(Direction::Read),
            Readiness::Writable => Some(Direction::Write),
            Readiness::Unexpected => None,
        }
    }
}

/// Which handler an event goes to.
#[derive(PartialEq, Eq, Structural, Clone, Copy, Debug)]
pub enum Route {
    /// Run the accept loop on the listener.
    Accept,
    /// Run the read loop of the client.
    Read,
    /// Run the write loop of the client.
    Write,
    /// Close the client: the event is not one its state can take.
    Close,
    /// The listener reported something other than readability: the server cannot go on.
    Fatal,
    /// Stale: no descriptor of the table, or readiness the client no longer waits for.
    Ignore,
}

/// What the accept loop does after one accept call.
#[derive(PartialEq, Eq, Structural, Clone, Copy, Debug)]
pub enum AcceptAction {
    /// A new client was added: make the descriptor non-blocking, register it
    /// for read interest, then accept again.
    Admit(i32),
    /// The descriptor cannot enter the table: close it, then accept again.
    Refuse(i32),
    /// The call was interrupted: accept again.
    AcceptAgain,
    /// The backlog is drained until the next readiness notification.
    Stop,
    /// The call failed: give this round up; the listener stays.
    Abandon,
}

/// Whether the client table holds descriptor `fd`.
pub open spec fn holds(conns: Seq<ConnView>, fd: i32) -> bool {
    exists|i: int| 0 <= i < conns.len() && (#[trigger] conns[i]).fd == fd
}

/// Descriptors in the table are distinct, valid and not the listener.
pub open spec fn table_wf(conns: Seq<ConnView>, listener: i32) -> bool {
    &&& forall|i: int| 0 <= i < conns.len() ==> (#[trigger] conns[i]).fd >= 0 && conns[i].fd != listener
    &&& forall|i: int, j: int|
        0 <= i < conns.len() && 0 <= j < conns.len() && i != j ==> (#[trigger] conns[i]).fd
            != (#[trigger] conns[j]).fd
}

/// The client of the table with descriptor `fd`, when there is one.
pub open spec fn client_of(conns: Seq<ConnView>, fd: i32) -> ConnView {
    conns[choose|i: int| 0 <= i < conns.len() && (#[trigger] conns[i]).fd == fd]
}

/// Where an event for `fd` with readiness `k` goes, given the table.
pub open spec fn route_of(conns: Seq<ConnView>, listener: i32, fd: i32, k: Readiness) -> Route {
    if fd == listener {
        if k == Readiness::Readable {
            Route::Accept
        } else {
            Route::Fatal
        }
    } else if holds(conns, fd) {
        let c = client_of(conns, fd);
        match k {
            Readiness::Readable => if c.state == ConnState::Reading {
                Route::Read
            } else {
                Route::Ignore
            },
            Readiness::Writable => if c.state == ConnState::Writing {
                Route::Write
            } else {
                Route::Ignore
            },
            Readiness::Unexpected => Route::Close,
        }
    } else {
        Route::Ignore
    }
}

/// Whether an accepted descriptor may enter the table.
pub open spec fn admissible(conns: Seq<ConnView>, listener: i32, fd: i32) -> bool {
    fd >= 0 && fd != listener && !holds(conns, fd)
}

/// The table after one accept call reported `o`.
pub open spec fn after_accept(conns: Seq<ConnView>, listener: i32, o: Outcome<i32>) -> Seq<
    ConnView,
> {
    match o {
        Outcome::Ready(fd) => if admissible(conns, listener, fd) {
            conns.push(ConnView { fd, state: ConnState::Reading, pending: Seq::empty() })
        } else {
            conns
        },
        _ => conns,
    }
}

/// The action that follows one accept call that reported `o`.
pub open spec fn accept_action(conns: Seq<ConnView>, listener: i32, o: Outcome<i32>) -> AcceptAction {
    match o {
        Outcome::Ready(fd) => if admissible(conns, listener, fd) {
            AcceptAction::Admit(fd)
        } else {
            AcceptAction::Refuse(fd)
        },
        Outcome::Interrupted => AcceptAction::AcceptAgain,
        Outcome::WouldBlock => AcceptAction::Stop,
        Outcome::Failed(_) => AcceptAction::Abandon,
    }
}

/// The interests withdrawn when a client leaves the table: both directions.
pub open spec fn both_directions() -> Seq<Direction> {
    seq![Direction::Read, Direction::Write]
}

/// The listener and the table of accepted clients.
pub struct Server {
    listener: i32,
    clients: Vec<Connection>,
}

impl Server {
    pub closed spec fn listener_fd(&self) -> i32 {
        self.listener
    }

    /// The clients, in the order they were admitted.
    pub closed spec fn conns(&self) -> Seq<ConnView> {
        self.clients@.map_values(|c: Connection| c@)
    }

    pub closed spec fn wf(&self) -> bool {
        &&& forall|i: int| 0 <= i < self.clients@.len() ==> (#[trigger] self.clients@[i]).wf()
        &&& table_wf(self.conns(), self.listener)
    }

    /// `post` is `pre` after client `fd` took a read attempt that reported `o`,
    /// and `a` is the action that follows.
    pub open spec fn read_handled(
        pre: &Server,
        post: &Server,
        fd: i32,
        o: Outcome<Seq<u8>>,
        a: ReadAction,
    ) -> bool {
        &&& post.listener_fd() == pre.listener_fd()
        &&& exists|i: int|
            0 <= i < pre.conns().len() && (#[trigger] pre.conns()[i]).fd == fd && post.conns()
                == pre.conns().update(i, after_read(pre.conns()[i], o)) && a == read_action(
                pre.conns()[i],
                o,
            )
    }

    /// `post` is `pre` after client `fd` took a write attempt that reported `o`,
    /// and `a` is the action that follows.
    pub open spec fn write_handled(
        pre: &Server,
        post: &Server,
        fd: i32,
        o: Outcome<usize>,
        a: WriteAction,
    ) -> bool {
        &&& post.listener_fd() == pre.listener_fd()
        &&& exists|i: int|
            0 <= i < pre.conns().len() && (#[trigger] pre.conns()[i]).fd == fd && post.conns()
                == pre.conns().update(i, after_write(pre.conns()[i], o)) && a == write_action(
                pre.conns()[i],
                o,
            )
    }

    /// `post` is `pre` after closing client `fd`, and `dirs` are the interests
    /// withdrawn: both directions if `fd` was in the table, none otherwise.
    pub open spec fn client_closed(pre: &Server, post: &Server, fd: i32, dirs: Seq<Direction>) -> bool {
        &&& post.listener_fd() == pre.listener_fd()
        &&& !holds(post.conns(), fd)
        &&& holds(pre.conns(), fd) ==> {
            &&& dirs == both_directions()
            &&& exists|i: int|
                0 <= i < pre.conns().len() && (#[trigger] pre.conns()[i]).fd == fd && post.conns()
                    == pre.conns().remove(i)
        }
        &&& !holds(pre.conns(), fd) ==> dirs.len() == 0 && post.conns() == pre.conns()
    }

    /// A server with an empty table around the listening descriptor `listener`.
    pub fn new(listener: i32) -> (r: Server)
        ensures
            r.wf(),
            r.listener_fd() == listener,
            r.conns().len() == 0,
    {
        let r = Server { listener, clients: Vec::new() };
        proof {
            assert(r.conns() =~= Seq::<ConnView>::empty());
        }
        r
    }

    pub fn listener(&self) -> (r: i32)
        ensures
            r == self.listener_fd(),
    {
        self.listener
    }

    /// The number of clients in the table.
    pub fn client_count(&self) -> (r: usize)
        ensures
            r == self.conns().len(),
    {
        self.clients.len()
    }

    /// The position of client `fd` in the table.
    fn find(&self, fd: i32) -> (r: Option<usize>)
        ensures
            match r {
                Some(i) => i < self.conns().len() && self.conns()[i as int].fd == fd,
                None => !holds(self.conns(), fd),
            },
    {
        let mut i: usize = 0;
        while i < self.clients.len()
            invariant
                i <= self.clients@.len(),
                forall|j: int| 0 <= j < i ==> (#[trigger] self.conns()[j]).fd != fd,
            decreases self.clients@.len() - i,
        {
            if self.clients[i].fd() == fd {
                return Some(i);
            }
            i = i + 1;
        }
        None
    }

    /// The state of client `fd`, if it is in the table.
    pub fn client_state(&self, fd: i32) -> (r: Option<ConnState>)
        requires
            self.wf(),
        ensures
            holds(self.conns(), fd) ==> r == Some(
                self.conns()[choose|i: int|
                    0 <= i < self.conns().len() && (#[trigger] self.conns()[i]).fd == fd].state,
            ),
            !holds(self.conns(), fd) ==> r is None,
    {
        match self.find(fd) {
            Some(i) => {
                proof {
                    let j = choose|j: int|
                        0 <= j < self.conns().len() && (#[trigger] self.conns()[j]).fd == fd;
                    assert(j == i);
                }
                Some(self.clients[i].state())
            },
            None => None,
        }
    }

    /// The bytes client `fd` has still to write back, if it is in the table.
    pub fn pending_output(&self, fd: i32) -> (r: Option<&[u8]>)
        requires
            self.wf(),
        ensures
            holds(self.conns(), fd) ==> r is Some && r->Some_0@ == self.conns()[choose|i: int|
                0 <= i < self.conns().len() && (#[trigger] self.conns()[i]).fd == fd].pending,
            !holds(self.conns(), fd) ==> r is None,
    {
        match self.find(fd) {
            Some(i) => {
                proof {
                    let j = choose|j: int|
                        0 <= j < self.conns().len() && (#[trigger] self.conns()[j]).fd == fd;
                    assert(j == i);
                }
                Some(self.clients[i].pending_output())
            },
            None => None,
        }
    }
}

impl Server {
    /// Routes a readiness event for descriptor `fd`.
    pub fn route(&self, fd: i32, k: Readiness) -> (r: Route)
        requires
            self.wf(),
        ensures
            r == route_of(self.conns(), self.listener_fd(), fd, k),
    {
        if fd == self.listener {
            return if k == Readiness::Readable {
                Route::Accept
            } else {
                Route::Fatal
            };
        }
        match self.find(fd) {
            Some(i) => {
                proof {
                    let j = choose|j: int|
                        0 <= j < self.conns().len() && (#[trigger] self.conns()[j]).fd == fd;
                    assert(j == i);
                }
                let st = self.clients[i].state();
                match k {
                    Readiness::Readable => if st == ConnState::Reading {
                        Route::Read
                    } else {
                        Route::Ignore
                    },
                    Readiness::Writable => if st == ConnState::Writing {
                        Route::Write
                    } else {
                        Route::Ignore
                    },
                    Readiness::Unexpected => Route::Close,
                }
            },
            None => Route::Ignore,
        }
    }

    /// Takes the outcome of one accept call on the listener. A new descriptor
    /// enters the table as a reading client.
    pub fn on_accept(&mut self, o: Outcome<i32>) -> (r: AcceptAction)
        requires
            old(self).wf(),
        ensures
            final(self).wf(),
            final(self).listener_fd() == old(self).listener_fd(),
            final(self).conns() == after_accept(old(self).conns(), old(self).listener_fd(), o),
            r == accept_action(old(self).conns(), old(self).listener_fd(), o),
    {
        match o {
            Outcome::Ready(fd) => {
                if fd >= 0 && fd != self.listener && self.find(fd).is_none() {
                    self.clients.push(Connection::new(fd));
                    proof {
                        assert(self.conns() =~= old(self).conns().push(
                            ConnView { fd, state: ConnState::Reading, pending: Seq::empty() },
                        ));
                    }
                    AcceptAction::Admit(fd)
                } else {
                    AcceptAction::Refuse(fd)
                }
            },
            Outcome::Interrupted => AcceptAction::AcceptAgain,
            Outcome::WouldBlock => AcceptAction::Stop,
            Outcome::Failed(_) => AcceptAction::Abandon,
        }
    }

    /// Takes the outcome of one read on client `fd`. A descriptor that is not
    /// a reading client of the table changes nothing and waits.
    pub fn handle_read(&mut self, fd: i32, o: Outcome<Vec<u8>>) -> (r: ReadAction)
        requires
            old(self).wf(),
        ensures
            final(self).wf(),
            route_of(old(self).conns(), old(self).listener_fd(), fd, Readiness::Readable)
                == Route::Read ==> Server::read_handled(
                old(self),
                final(self),
                fd,
                read_outcome_view(o),
                r,
            ),
            route_of(old(self).conns(), old(self).listener_fd(), fd, Readiness::Readable)
                != Route::Read ==> *final(self) == *old(self) && r == ReadAction::Wait,
    {
        if self.route(fd, Readiness::Readable) != Route::Read {
            return ReadAction::Wait;
        }
        let ghost ov = read_outcome_view(o);
        match self.find(fd) {
            Some(i) => {
                proof {
                    let j = choose|j: int|
                        0 <= j < self.conns().len() && (#[trigger] self.conns()[j]).fd == fd;
                    assert(j == i);
                    assert(self.clients@[i as int]@ == self.conns()[i as int]);
                }
                let r = self.clients[i].on_read(o);
                proof {
                    let c = after_read(old(self).conns()[i as int], ov);
                    assert(self.conns() =~= old(self).conns().update(i as int, c));
                    assert(old(self).conns()[i as int].fd == fd);
                }
                r
            },
            None => ReadAction::Wait,
        }
    }

    /// Takes the outcome of one write of client `fd`'s pending output. A
    /// descriptor that is not a writing client of the table changes nothing
    /// and waits.
    pub fn handle_write(&mut self, fd: i32, o: Outcome<usize>) -> (r: WriteAction)
        requires
            old(self).wf(),
            o is Ready ==> forall|i: int|
                0 <= i < old(self).conns().len() && (#[trigger] old(self).conns()[i]).fd == fd
                    ==> o->Ready_0 <= old(self).conns()[i].pending.len(),
        ensures
            final(self).wf(),
            route_of(old(self).conns(), old(self).listener_fd(), fd, Readiness::Writable)
                == Route::Write ==> Server::write_handled(old(self), final(self), fd, o, r),
            route_of(old(self).conns(), old(self).listener_fd(), fd, Readiness::Writable)
                != Route::Write ==> *final(self) == *old(self) && r == WriteAction::Wait,
    {
        if self.route(fd, Readiness::Writable) != Route::Write {
            return WriteAction::Wait;
        }
        match self.find(fd) {
            Some(i) => {
                proof {
                    let j = choose|j: int|
                        0 <= j < self.conns().len() && (#[trigger] self.conns()[j]).fd == fd;
                    assert(j == i);
                    assert(self.clients@[i as int]@ == self.conns()[i as int]);
                }
                let r = self.clients[i].on_write(o);
                proof {
                    let c = after_write(old(self).conns()[i as int], o);
                    assert(self.conns() =~= old(self).conns().update(i as int, c));
                    assert(old(self).conns()[i as int].fd == fd);
                }
                r
            },
            None => WriteAction::Wait,
        }
    }

    /// Removes client `fd` from the table and returns the interests to
    /// withdraw before its descriptor is closed. Closing a descriptor that is
    /// not in the table withdraws nothing.
    pub fn close_client(&mut self, fd: i32) -> (r: Vec<Direction>)
        requires
            old(self).wf(),
        ensures
            final(self).wf(),
            Server::client_closed(old(self), final(self), fd, r@),
    {
        let mut dirs: Vec<Direction> = Vec::new();
        match self.find(fd) {
            Some(i) => {
                self.clients.remove(i);
                dirs.push(Direction::Read);
                dirs.push(Direction::Write);
                proof {
                    let pre = old(self).conns();
                    assert(self.conns() =~= pre.remove(i as int));
                    assert(dirs@ =~= both_directions());
                    assert forall|j: int| 0 <= j < self.clients@.len() implies (#[trigger] self.clients@[j]).wf() by {
                        if j < i {
                            assert(self.clients@[j] == old(self).clients@[j]);
                        } else {
                            assert(self.clients@[j] == old(self).clients@[j + 1]);
                        }
                    }
                    assert forall|a: int, b: int|
                        0 <= a < self.conns().len() && 0 <= b < self.conns().len() && a != b implies (#[trigger] self.conns()[a]).fd
                        != (#[trigger] self.conns()[b]).fd by {
                        let a0 = if a < i { a } else { a + 1 };
                        let b0 = if b < i { b } else { b + 1 };
                        assert(self.conns()[a] == pre[a0]);
                        assert(self.conns()[b] == pre[b0]);
                    }
                    assert forall|a: int| 0 <= a < self.conns().len() implies (#[trigger] self.conns()[a]).fd >= 0
                        && self.conns()[a].fd != self.listener by {
                        let a0 = if a < i { a } else { a + 1 };
                        assert(self.conns()[a] == pre[a0]);
                    }
                    assert(!holds(self.conns(), fd)) by {
                        if holds(self.conns(), fd) {
                            let a = choose|a: int| 0 <= a < self.conns().len() && (#[trigger] self.conns()[a]).fd == fd;
                            let a0 = if a < i { a } else { a + 1 };
                            assert(self.conns()[a] == pre[a0]);
                        }
                    }
                }
            },
            None => {},
        }
        dirs
    }
}

/// A client as it enters the table.
pub open spec fn fresh(fd: i32) -> ConnView {
    ConnView { fd, state: ConnState::Reading, pending: Seq::empty() }
}

/// One readiness round of the accept loop over the outcomes `outs`: the loop
/// continues after admitting, refusing or being interrupted, and ends at
/// would-block or failure. Gives the table afterwards and the number of
/// accept calls made.
pub open spec fn accept_round(conns: Seq<ConnView>, listener: i32, outs: Seq<Outcome<i32>>) -> (
    Seq<ConnView>,
    nat,
)
    decreases outs.len(),
{
    if outs.len() == 0 {
        (conns, 0)
    } else {
        let next = after_accept(conns, listener, outs[0]);
        match accept_action(conns, listener, outs[0]) {
            AcceptAction::Stop | AcceptAction::Abandon => (next, 1),
            _ => {
                let (rest, n) = accept_round(next, listener, outs.drop_first());
                (rest, n + 1)
            },
        }
    }
}

/// A single readiness notification drains the whole backlog: when `fds` are
/// pending, the round makes one accept call per pending connection plus the
/// one that would block, and every pending connection enters the table as a
/// reading client, in order.
pub proof fn lemma_accept_drains_backlog(conns: Seq<ConnView>, listener: i32, fds: Seq<i32>)
    requires
        forall|i: int| 0 <= i < fds.len() ==> admissible(conns, listener, #[trigger] fds[i]),
        forall|i: int, j: int| 0 <= i < j < fds.len() ==> fds[i] != fds[j],
    ensures
        accept_round(
            conns,
            listener,
            fds.map_values(|fd: i32| Outcome::<i32>::Ready(fd)).push(Outcome::WouldBlock),
        ) == (conns + fds.map_values(|fd: i32| fresh(fd)), fds.len() + 1),
    decreases fds.len(),
{
    let outs = fds.map_values(|fd: i32| Outcome::<i32>::Ready(fd)).push(Outcome::WouldBlock);
    if fds.len() == 0 {
        assert(outs =~= seq![Outcome::<i32>::WouldBlock]);
        assert(outs.drop_first().len() == 0);
        assert(conns + fds.map_values(|fd: i32| fresh(fd)) =~= conns);
    } else {
        let fd0 = fds[0];
        let next = conns.push(fresh(fd0));
        let tail = fds.drop_first();
        assert(outs[0] == Outcome::<i32>::Ready(fd0));
        assert(admissible(conns, listener, fd0));
        assert(after_accept(conns, listener, outs[0]) == next);
        assert forall|i: int| 0 <= i < tail.len() implies admissible(next, listener, #[trigger] tail[i]) by {
            assert(tail[i] == fds[i + 1]);
            assert(admissible(conns, listener, fds[i + 1]));
            if holds(next, tail[i]) {
                let k = choose|k: int| 0 <= k < next.len() && (#[trigger] next[k]).fd == tail[i];
                if k < conns.len() {
                    assert(conns[k] == next[k]);
                }
            }
        }
        assert forall|i: int, j: int| 0 <= i < j < tail.len() implies tail[i] != tail[j] by {
            assert(tail[i] == fds[i + 1] && tail[j] == fds[j + 1]);
        }
        lemma_accept_drains_backlog(next, listener, tail);
        assert(outs.drop_first() =~= tail.map_values(|fd: i32| Outcome::<i32>::Ready(fd)).push(
            Outcome::WouldBlock,
        ));
        assert(next + tail.map_values(|fd: i32| fresh(fd)) =~= conns + fds.map_values(
            |fd: i32| fresh(fd),
        ));
    }
}

/// End of stream closes a client exactly once: the read that returns no
/// bytes moves it to `Closed` and asks for the close; closing it then
/// withdraws both interests and removes it from the table; a second close
/// withdraws nothing and changes nothing.
pub proof fn lemma_end_of_stream_closes_once(
    s0: Server,
    s1: Server,
    s2: Server,
    s3: Server,
    fd: i32,
    a: ReadAction,
    first: Seq<Direction>,
    second: Seq<Direction>,
)
    requires
        s0.wf(),
        route_of(s0.conns(), s0.listener_fd(), fd, Readiness::Readable) == Route::Read,
        Server::read_handled(&s0, &s1, fd, Outcome::Ready(Seq::empty()), a),
        Server::client_closed(&s1, &s2, fd, first),
        Server::client_closed(&s2, &s3, fd, second),
    ensures
        a == ReadAction::Close,
        forall|i: int|
            0 <= i < s1.conns().len() && (#[trigger] s1.conns()[i]).fd == fd ==> s1.conns()[i].state
                == ConnState::Closed,
        first == both_directions(),
        second.len() == 0,
        s3.conns() == s2.conns(),
        !holds(s2.conns(), fd),
{
    let i = choose|i: int|
        0 <= i < s0.conns().len() && (#[trigger] s0.conns()[i]).fd == fd && s1.conns()
            == s0.conns().update(i, after_read(s0.conns()[i], Outcome::Ready(Seq::empty())))
            && a == read_action(s0.conns()[i], Outcome::Ready(Seq::empty()));
    assert(s1.conns()[i].fd == fd);
    assert(holds(s1.conns(), fd));
    assert forall|j: int|
        0 <= j < s1.conns().len() && (#[trigger] s1.conns()[j]).fd == fd implies s1.conns()[j].state
        == ConnState::Closed by {
        if j != i {
            assert(s1.conns()[j] == s0.conns()[j]);
            assert(table_wf(s0.conns(), s0.listener_fd()));
        }
    }
}

/// In a well-formed server the table's descriptors are distinct, valid and
/// not the listener.
pub proof fn lemma_table_wf(s: Server)
    requires
        s.wf(),
    ensures
        table_wf(s.conns(), s.listener_fd()),
{
}

/// In a table of distinct descriptors, the client with descriptor `fd` is the one at its position.
pub proof fn lemma_client_at(conns: Seq<ConnView>, listener: i32, fd: i32, i: int)
    requires
        table_wf(conns, listener),
        0 <= i < conns.len(),
        conns[i].fd == fd,
    ensures
        holds(conns, fd),
        client_of(conns, fd) == conns[i],
{
    assert(holds(conns, fd));
}

/// Successive reads on one client of the server, each returning some bytes,
/// however few: every call finds the client still reading and asks for
/// another read, and the client's buffer ends as its old contents followed
/// by the received bytes, in order.
pub proof fn lemma_server_reads_accumulate(
    states: Seq<Server>,
    chunks: Seq<Seq<u8>>,
    actions: Seq<ReadAction>,
    fd: i32,
)
    requires
        states.len() == chunks.len() + 1,
        actions.len() == chunks.len(),
        forall|i: int| 0 <= i < states.len() ==> (#[trigger] states[i]).wf(),
        route_of(states[0].conns(), states[0].listener_fd(), fd, Readiness::Readable) == Route::Read,
        forall|i: int| 0 <= i < chunks.len() ==> (#[trigger] chunks[i]).len() > 0,
        forall|i: int|
            0 <= i < chunks.len() ==> Server::read_handled(
                &states[i],
                &#[trigger] states[i + 1],
                fd,
                Outcome::Ready(chunks[i]),
                actions[i],
            ),
    ensures
        forall|i: int| 0 <= i < actions.len() ==> #[trigger] actions[i] == ReadAction::ReadAgain,
        route_of(states.last().conns(), states.last().listener_fd(), fd, Readiness::Readable)
            == Route::Read,
        client_of(states.last().conns(), fd) == (ConnView {
            pending: client_of(states[0].conns(), fd).pending + concat(chunks),
            ..client_of(states[0].conns(), fd)
        }),
    decreases chunks.len(),
{
    let c0 = client_of(states[0].conns(), fd);
    if chunks.len() == 0 {
        assert(c0.pending + concat(chunks) =~= c0.pending);
    } else {
        let n = chunks.len() - 1;
        let pre = states.drop_last();
        assert forall|i: int| 0 <= i < pre.len() implies (#[trigger] pre[i]).wf() by {
            assert(pre[i] == states[i]);
        }
        assert forall|i: int| 0 <= i < n implies Server::read_handled(
            &pre[i],
            &#[trigger] pre[i + 1],
            fd,
            Outcome::Ready(chunks.drop_last()[i]),
            actions.drop_last()[i],
        ) by {
            assert(pre[i] == states[i] && pre[i + 1] == states[i + 1]);
            assert(Server::read_handled(&states[i], &states[i + 1], fd, Outcome::Ready(chunks[i]), actions[i]));
        }
        lemma_server_reads_accumulate(pre, chunks.drop_last(), actions.drop_last(), fd);
        let sa = states[n];
        let sb = states[n + 1];
        assert(pre.last() == sa);
        assert(sa.wf() && sb.wf());
        assert(Server::read_handled(&sa, &sb, fd, Outcome::Ready(chunks[n]), actions[n]));
        lemma_table_wf(sa);
        lemma_table_wf(sb);
        let i = choose|i: int|
            0 <= i < sa.conns().len() && (#[trigger] sa.conns()[i]).fd == fd && sb.conns()
                == sa.conns().update(i, after_read(sa.conns()[i], Outcome::Ready(chunks[n])))
                && actions[n] == read_action(sa.conns()[i], Outcome::Ready(chunks[n]));
        lemma_client_at(sa.conns(), sa.listener_fd(), fd, i);
        assert(sb.conns()[i].fd == fd);
        lemma_client_at(sb.conns(), sb.listener_fd(), fd, i);
        assert(c0.pending + concat(chunks.drop_last()) + chunks[n] =~= c0.pending + concat(chunks));
        assert forall|j: int| 0 <= j < actions.len() implies #[trigger] actions[j]
            == ReadAction::ReadAgain by {
            if j < n {
                assert(actions.drop_last()[j] == actions[j]);
            }
        }
    }
}

/// One echo round on a client that is reading with nothing buffered: a read
/// returns `p`, the next would block, and the client then writes exactly `p`;
/// once a write takes all of it, the client reads again with nothing buffered.
pub proof fn lemma_echo_round(
    s0: Server,
    s1: Server,
    s2: Server,
    s3: Server,
    fd: i32,
    p: Seq<u8>,
    a1: ReadAction,
    a2: ReadAction,
    a3: WriteAction,
)
    requires
        s0.wf(),
        s1.wf(),
        s2.wf(),
        s3.wf(),
        route_of(s0.conns(), s0.listener_fd(), fd, Readiness::Readable) == Route::Read,
        client_of(s0.conns(), fd).pending.len() == 0,
        0 < p.len() <= usize::MAX,
        Server::read_handled(&s0, &s1, fd, Outcome::Ready(p), a1),
        Server::read_handled(&s1, &s2, fd, Outcome::WouldBlock, a2),
        Server::write_handled(&s2, &s3, fd, Outcome::Ready(p.len() as usize), a3),
    ensures
        a1 == ReadAction::ReadAgain,
        a2 == ReadAction::SwitchToWrite,
        route_of(s2.conns(), s2.listener_fd(), fd, Readiness::Writable) == Route::Write,
        client_of(s2.conns(), fd).pending == p,
        a3 == WriteAction::SwitchToRead,
        route_of(s3.conns(), s3.listener_fd(), fd, Readiness::Readable) == Route::Read,
        client_of(s3.conns(), fd).pending.len() == 0,
{
    lemma_table_wf(s0);
    lemma_table_wf(s1);
    lemma_table_wf(s2);
    lemma_table_wf(s3);
    let i = choose|i: int|
        0 <= i < s0.conns().len() && (#[trigger] s0.conns()[i]).fd == fd && s1.conns()
            == s0.conns().update(i, after_read(s0.conns()[i], Outcome::Ready(p))) && a1
            == read_action(s0.conns()[i], Outcome::Ready(p));
    lemma_client_at(s0.conns(), s0.listener_fd(), fd, i);
    assert(s1.conns()[i].fd == fd);
    lemma_client_at(s1.conns(), s1.listener_fd(), fd, i);
    assert(Seq::<u8>::empty() + p =~= p);
    let j = choose|j: int|
        0 <= j < s1.conns().len() && (#[trigger] s1.conns()[j]).fd == fd && s2.conns()
            == s1.conns().update(j, after_read(s1.conns()[j], Outcome::WouldBlock)) && a2
            == read_action(s1.conns()[j], Outcome::WouldBlock);
    lemma_client_at(s1.conns(), s1.listener_fd(), fd, j);
    assert(s2.conns()[j].fd == fd);
    lemma_client_at(s2.conns(), s2.listener_fd(), fd, j);
    let k = choose|k: int|
        0 <= k < s2.conns().len() && (#[trigger] s2.conns()[k]).fd == fd && s3.conns()
            == s2.conns().update(k, after_write(s2.conns()[k], Outcome::Ready(p.len() as usize)))
            && a3 == write_action(s2.conns()[k], Outcome::Ready(p.len() as usize));
    lemma_client_at(s2.conns(), s2.listener_fd(), fd, k);
    assert(s3.conns()[k].fd == fd);
    lemma_client_at(s3.conns(), s3.listener_fd(), fd, k);
}

/// Successive accept calls, each taken by `on_accept`, that go on until one
/// stops the loop follow `accept_round`: the table ends as the round says and
/// the round counts exactly the calls made.
pub proof fn lemma_accept_calls_follow_round(
    states: Seq<Server>,
    outs: Seq<Outcome<i32>>,
    actions: Seq<AcceptAction>,
)
    requires
        outs.len() > 0,
        states.len() == outs.len() + 1,
        actions.len() == outs.len(),
        forall|i: int|
            0 <= i < outs.len() ==> {
                &&& states[i + 1].listener_fd() == states[i].listener_fd()
                &&& states[i + 1].conns() == after_accept(
                    states[i].conns(),
                    states[i].listener_fd(),
                    outs[i],
                )
                &&& actions[i] == accept_action(
                    states[i].conns(),
                    states[i].listener_fd(),
                    #[trigger] outs[i],
                )
            },
        forall|i: int|
            0 <= i < outs.len() - 1 ==> !(#[trigger] actions[i] is Stop) && !(actions[i] is Abandon),
        actions.last() is Stop || actions.last() is Abandon,
    ensures
        accept_round(states[0].conns(), states[0].listener_fd(), outs) == (
            states.last().conns(),
            outs.len(),
        ),
    decreases outs.len(),
{
    assert(actions[0] == accept_action(states[0].conns(), states[0].listener_fd(), outs[0]));
    assert(states[1].listener_fd() == states[0].listener_fd());
    if outs.len() > 1 {
        let rest = states.drop_first();
        assert forall|i: int| 0 <= i < outs.len() - 1 implies {
            &&& rest[i + 1].listener_fd() == rest[i].listener_fd()
            &&& rest[i + 1].conns() == after_accept(
                rest[i].conns(),
                rest[i].listener_fd(),
                #[trigger] outs.drop_first()[i],
            )
            &&& actions.drop_first()[i] == accept_action(
                rest[i].conns(),
                rest[i].listener_fd(),
                outs.drop_first()[i],
            )
        } by {
            assert(rest[i] == states[i + 1] && rest[i + 1] == states[i + 2]);
            assert(outs.drop_first()[i] == outs[i + 1]);
        }
        assert forall|i: int| 0 <= i < outs.len() - 2 implies !(
        #[trigger] actions.drop_first()[i] is Stop) && !(actions.drop_first()[i] is Abandon) by {
            assert(actions.drop_first()[i] == actions[i + 1]);
        }
        assert(!(actions[0] is Stop) && !(actions[0] is Abandon));
        lemma_accept_calls_follow_round(rest, outs.drop_first(), actions.drop_first());
        assert(rest.last() == states.last());
    } else {
        assert(states.last() == states[1]);
    }
}

} // verus!
