use reactor::{
    AcceptOperation, Completion, Direction, OpResult, Operation, Outcome, Payload, PendingOp,
    ReadOperation, Step, WriteOperation,
};

#[test]
fn read_operation_completes_with_bytes() {
    let op = ReadOperation { id: 7, capacity: 16 };
    let step = op.perform(Outcome::Ready(Payload::Bytes(vec![1, 2, 3])));
    assert_eq!(
        step,
        Step::Done(Completion { id: 7, result: OpResult::Success(Payload::Bytes(vec![1, 2, 3])) })
    );
    assert_eq!(op.direction(), Direction::Read);
}

#[test]
fn interrupted_call_is_retried() {
    let op = WriteOperation { id: 1, data: vec![9; 4] };
    assert_eq!(op.perform(Outcome::Interrupted), Step::Retry);
}

#[test]
fn would_block_leaves_operation_pending() {
    let op = AcceptOperation { id: 2 };
    assert_eq!(op.perform(Outcome::WouldBlock), Step::NotReady);
    let w = WriteOperation { id: 3, data: vec![1] };
    assert_eq!(w.perform(Outcome::WouldBlock), Step::NotReady);
}

#[test]
fn hard_error_completes_with_error() {
    let op = PendingOp::Accept(AcceptOperation { id: 4 });
    assert_eq!(
        op.perform(Outcome::Failed(24)),
        Step::Done(Completion { id: 4, result: OpResult::Failed(24) })
    );
}

#[test]
fn write_and_accept_payloads_are_delivered() {
    let w = PendingOp::Write(WriteOperation { id: 5, data: vec![1, 2, 3, 4] });
    assert_eq!(w.direction(), Direction::Write);
    assert_eq!(
        w.perform(Outcome::Ready(Payload::Count(2))),
        Step::Done(Completion { id: 5, result: OpResult::Success(Payload::Count(2)) })
    );
    let a = PendingOp::Accept(AcceptOperation { id: 6 });
    assert_eq!(a.direction(), Direction::Read);
    assert_eq!(a.id(), 6);
    assert_eq!(
        a.perform(Outcome::Ready(Payload::Descriptor(12))),
        Step::Done(Completion { id: 6, result: OpResult::Success(Payload::Descriptor(12)) })
    );
}

#[test]
fn end_of_stream_read_completes_with_no_bytes() {
    let op = PendingOp::Read(ReadOperation { id: 8, capacity: 1024 });
    assert_eq!(
        op.perform(Outcome::Ready(Payload::Bytes(Vec::new()))),
        Step::Done(Completion { id: 8, result: OpResult::Success(Payload::Bytes(Vec::new())) })
    );
}
