use reactor::{ConnState, Connection, Interest, Outcome, ReadAction, WriteAction};

#[test]
fn short_reads_accumulate_in_order() {
    let mut c = Connection::new(8);
    assert_eq!(c.on_read(Outcome::Ready(b"ab".to_vec())), ReadAction::ReadAgain);
    assert_eq!(c.on_read(Outcome::Interrupted), ReadAction::ReadAgain);
    assert_eq!(c.on_read(Outcome::Ready(b"c".to_vec())), ReadAction::ReadAgain);
    assert_eq!(c.on_read(Outcome::Ready(b"def".to_vec())), ReadAction::ReadAgain);
    assert_eq!(c.pending_output(), b"abcdef");
    assert_eq!(c.state(), ConnState::Reading);
    assert_eq!(c.on_read(Outcome::WouldBlock), ReadAction::SwitchToWrite);
    assert_eq!(c.state(), ConnState::Writing);
    assert_eq!(c.pending_output(), b"abcdef");
}

#[test]
fn would_block_with_nothing_read_keeps_reading() {
    let mut c = Connection::new(3);
    assert_eq!(c.on_read(Outcome::WouldBlock), ReadAction::Wait);
    assert_eq!(c.state(), ConnState::Reading);
    assert_eq!(c.fd(), 3);
}

#[test]
fn zero_length_read_closes() {
    let mut c = Connection::new(3);
    assert_eq!(c.on_read(Outcome::Ready(Vec::new())), ReadAction::Close);
    assert_eq!(c.state(), ConnState::Closed);
}

#[test]
fn read_error_closes() {
    let mut c = Connection::new(3);
    assert_eq!(c.on_read(Outcome::Ready(b"x".to_vec())), ReadAction::ReadAgain);
    assert_eq!(c.on_read(Outcome::Failed(104)), ReadAction::Close);
    assert_eq!(c.state(), ConnState::Closed);
}

#[test]
fn echo_ping_round_trip() {
    let mut c = Connection::new(5);
    assert_eq!(c.on_read(Outcome::Ready(b"ping".to_vec())), ReadAction::ReadAgain);
    assert_eq!(c.pending_output().len(), 4);
    assert_eq!(c.on_read(Outcome::WouldBlock), ReadAction::SwitchToWrite);
    assert_eq!(c.pending_output(), b"ping");
    assert_eq!(c.on_write(Outcome::Ready(4)), WriteAction::SwitchToRead);
    assert_eq!(c.state(), ConnState::Reading);
    assert!(c.pending_output().is_empty());
}

#[test]
fn partial_write_keeps_the_rest() {
    let mut c = Connection::new(5);
    c.on_read(Outcome::Ready(b"hello".to_vec()));
    c.on_read(Outcome::WouldBlock);
    assert_eq!(c.on_write(Outcome::Ready(2)), WriteAction::WriteAgain);
    assert_eq!(c.pending_output(), b"llo");
    assert_eq!(c.on_write(Outcome::WouldBlock), WriteAction::Wait);
    assert_eq!(c.state(), ConnState::Writing);
    assert_eq!(c.on_write(Outcome::Interrupted), WriteAction::WriteAgain);
    assert_eq!(c.on_write(Outcome::Ready(3)), WriteAction::SwitchToRead);
    assert_eq!(c.state(), ConnState::Reading);
}

#[test]
fn zero_byte_write_closes() {
    let mut c = Connection::new(5);
    c.on_read(Outcome::Ready(b"z".to_vec()));
    c.on_read(Outcome::WouldBlock);
    assert_eq!(c.on_write(Outcome::Ready(0)), WriteAction::Close);
    assert_eq!(c.state(), ConnState::Closed);
}

#[test]
fn write_error_closes() {
    let mut c = Connection::new(5);
    c.on_read(Outcome::Ready(b"z".to_vec()));
    c.on_read(Outcome::WouldBlock);
    assert_eq!(c.on_write(Outcome::Failed(32)), WriteAction::Close);
    assert_eq!(c.state(), ConnState::Closed);
}

#[test]
fn interest_follows_state() {
    assert_eq!(ConnState::Reading.interest(), Interest { read: true, write: false });
    assert_eq!(ConnState::Writing.interest(), Interest { read: false, write: true });
    assert_eq!(ConnState::Closed.interest(), Interest { read: false, write: false });
}
