use reactor::{
    AcceptAction, ConnState, Direction, Outcome, ReadAction, Readiness, Route, Server, WriteAction,
};

#[test]
fn routes_events_by_descriptor_and_state() {
    let mut s = Server::new(3);
    assert_eq!(s.route(3, Readiness::Readable), Route::Accept);
    assert_eq!(s.route(3, Readiness::Writable), Route::Fatal);
    assert_eq!(s.route(7, Readiness::Readable), Route::Ignore);
    assert_eq!(s.on_accept(Outcome::Ready(7)), AcceptAction::Admit(7));
    assert_eq!(s.route(7, Readiness::Readable), Route::Read);
    assert_eq!(s.route(7, Readiness::Writable), Route::Ignore);
    assert_eq!(s.route(7, Readiness::Unexpected), Route::Close);
    s.handle_read(7, Outcome::Ready(b"x".to_vec()));
    s.handle_read(7, Outcome::WouldBlock);
    assert_eq!(s.route(7, Readiness::Writable), Route::Write);
    assert_eq!(s.route(7, Readiness::Readable), Route::Ignore);
}

#[test]
fn accept_loop_drains_backlog() {
    let mut s = Server::new(3);
    let backlog = [10, 11, 12, 13, 14];
    let mut calls = 0;
    let mut outcomes: Vec<Outcome<i32>> = backlog.iter().map(|&fd| Outcome::Ready(fd)).collect();
    outcomes.push(Outcome::WouldBlock);
    for o in outcomes {
        calls += 1;
        match s.on_accept(o) {
            AcceptAction::Admit(_) | AcceptAction::Refuse(_) | AcceptAction::AcceptAgain => {}
            AcceptAction::Stop | AcceptAction::Abandon => break,
        }
    }
    assert_eq!(calls, backlog.len() + 1);
    assert_eq!(s.client_count(), backlog.len());
    for fd in backlog {
        assert_eq!(s.client_state(fd), Some(ConnState::Reading));
    }
}

#[test]
fn accept_refuses_listener_and_duplicates() {
    let mut s = Server::new(3);
    assert_eq!(s.on_accept(Outcome::Ready(3)), AcceptAction::Refuse(3));
    assert_eq!(s.on_accept(Outcome::Ready(-1)), AcceptAction::Refuse(-1));
    assert_eq!(s.on_accept(Outcome::Ready(8)), AcceptAction::Admit(8));
    assert_eq!(s.on_accept(Outcome::Ready(8)), AcceptAction::Refuse(8));
    assert_eq!(s.on_accept(Outcome::Interrupted), AcceptAction::AcceptAgain);
    assert_eq!(s.on_accept(Outcome::Failed(24)), AcceptAction::Abandon);
    assert_eq!(s.on_accept(Outcome::WouldBlock), AcceptAction::Stop);
    assert_eq!(s.client_count(), 1);
    assert_eq!(s.listener(), 3);
}

#[test]
fn end_to_end_echo_of_ping() {
    let mut s = Server::new(3);
    assert_eq!(s.on_accept(Outcome::Ready(9)), AcceptAction::Admit(9));
    assert_eq!(s.on_accept(Outcome::WouldBlock), AcceptAction::Stop);
    assert_eq!(s.handle_read(9, Outcome::Ready(b"ping".to_vec())), ReadAction::ReadAgain);
    assert_eq!(s.pending_output(9).map(|b| b.len()), Some(4));
    assert_eq!(s.handle_read(9, Outcome::WouldBlock), ReadAction::SwitchToWrite);
    assert_eq!(s.client_state(9), Some(ConnState::Writing));
    let out = s.pending_output(9).unwrap().to_vec();
    assert_eq!(out, b"ping".to_vec());
    assert_eq!(s.handle_write(9, Outcome::Ready(out.len())), WriteAction::SwitchToRead);
    assert_eq!(s.client_state(9), Some(ConnState::Reading));
}

#[test]
fn half_close_before_read_closes_connection() {
    let mut s = Server::new(3);
    s.on_accept(Outcome::Ready(9));
    assert_eq!(s.handle_read(9, Outcome::Ready(b"bye".to_vec())), ReadAction::ReadAgain);
    assert_eq!(s.handle_read(9, Outcome::Ready(Vec::new())), ReadAction::Close);
    assert_eq!(s.client_state(9), Some(ConnState::Closed));
    let withdrawn = s.close_client(9);
    assert_eq!(withdrawn, vec![Direction::Read, Direction::Write]);
    assert_eq!(s.client_state(9), None);
    assert_eq!(s.route(9, Readiness::Readable), Route::Ignore);
}

#[test]
fn closing_twice_withdraws_interests_once() {
    let mut s = Server::new(3);
    s.on_accept(Outcome::Ready(4));
    s.on_accept(Outcome::Ready(5));
    assert_eq!(s.handle_read(4, Outcome::Ready(Vec::new())), ReadAction::Close);
    assert_eq!(s.close_client(4), vec![Direction::Read, Direction::Write]);
    assert!(s.close_client(4).is_empty());
    assert_eq!(s.client_count(), 1);
    assert_eq!(s.client_state(5), Some(ConnState::Reading));
}

#[test]
fn kernel_event_splits_by_direction() {
    assert_eq!(Readiness::split(true, true), vec![Readiness::Readable, Readiness::Writable]);
    assert_eq!(Readiness::split(true, false), vec![Readiness::Readable]);
    assert_eq!(Readiness::split(false, true), vec![Readiness::Writable]);
    assert_eq!(Readiness::split(false, false), vec![Readiness::Unexpected]);
    assert_eq!(Readiness::Readable.direction(), Some(Direction::Read));
    assert_eq!(Readiness::Writable.direction(), Some(Direction::Write));
    assert_eq!(Readiness::Unexpected.direction(), None);
}

#[test]
fn handlers_ignore_descriptors_outside_the_table() {
    let mut s = Server::new(3);
    assert_eq!(s.handle_read(42, Outcome::Ready(b"x".to_vec())), ReadAction::Wait);
    assert_eq!(s.handle_write(42, Outcome::Ready(1)), WriteAction::Wait);
    assert_eq!(s.client_count(), 0);
    s.on_accept(Outcome::Ready(7));
    assert_eq!(s.handle_write(7, Outcome::Ready(0)), WriteAction::Wait);
    assert_eq!(s.client_state(7), Some(ConnState::Reading));
    s.handle_read(7, Outcome::Ready(b"ab".to_vec()));
    s.handle_read(7, Outcome::WouldBlock);
    assert_eq!(s.handle_read(7, Outcome::Ready(b"c".to_vec())), ReadAction::Wait);
    assert_eq!(s.pending_output(7), Some(&b"ab"[..]));
}
