use reactor::{
    Completion, Direction, OpResult, Operation, Outcome, Payload, PendingOp, Reactor, ReadyEvent,
    RegisterError, Step, SubmitError,
};

fn head_id(r: &Reactor, t: usize, d: Direction) -> Option<u64> {
    r.head(t, d).map(|op| op.id())
}

#[test]
fn register_hands_out_consecutive_tokens() {
    let mut r = Reactor::new();
    assert_eq!(r.register_socket(5), Ok(0));
    assert_eq!(r.register_socket(6), Ok(1));
    assert!(r.is_live(0) && r.is_live(1));
    assert_eq!(r.token_of(6), Some(1));
    assert_eq!(r.token_of(7), None);
}

#[test]
fn register_rejects_negative_and_duplicate() {
    let mut r = Reactor::new();
    assert_eq!(r.register_socket(-1), Err(RegisterError::InvalidDescriptor));
    assert_eq!(r.register_socket(3), Ok(0));
    assert_eq!(r.register_socket(3), Err(RegisterError::AlreadyRegistered));
}

#[test]
fn submit_to_unknown_token_is_refused() {
    let mut r = Reactor::new();
    assert_eq!(r.submit_read(0, 64), Err(SubmitError::UnknownToken));
    assert_eq!(r.submit_write(3, vec![1]), Err(SubmitError::UnknownToken));
    assert_eq!(r.submit_accept(1), Err(SubmitError::UnknownToken));
}

#[test]
fn writes_complete_in_submission_order() {
    let mut r = Reactor::new();
    let t = r.register_socket(9).unwrap();
    let a = r.submit_write(t, b"A".to_vec()).unwrap();
    let b = r.submit_write(t, b"B".to_vec()).unwrap();
    let c = r.submit_write(t, b"C".to_vec()).unwrap();
    let mut order = Vec::new();
    for _ in 0..3 {
        match r.dispatch(t, Direction::Write, Outcome::Ready(Payload::Count(1))) {
            Step::Done(done) => order.push(done.id),
            other => panic!("unexpected step {:?}", other),
        }
    }
    assert_eq!(order, vec![a, b, c]);
    assert_eq!(r.head(t, Direction::Write), None);
}

#[test]
fn would_block_keeps_head_queued() {
    let mut r = Reactor::new();
    let t = r.register_socket(4).unwrap();
    let id = r.submit_read(t, 32).unwrap();
    assert_eq!(r.dispatch(t, Direction::Read, Outcome::WouldBlock), Step::NotReady);
    assert_eq!(head_id(&r, t, Direction::Read), Some(id));
    assert_eq!(r.dispatch(t, Direction::Read, Outcome::Interrupted), Step::Retry);
    assert_eq!(head_id(&r, t, Direction::Read), Some(id));
    let step = r.dispatch(t, Direction::Read, Outcome::Ready(Payload::Bytes(b"hi".to_vec())));
    assert_eq!(
        step,
        Step::Done(Completion { id, result: OpResult::Success(Payload::Bytes(b"hi".to_vec())) })
    );
    assert_eq!(head_id(&r, t, Direction::Read), None);
}

#[test]
fn directions_queue_independently() {
    let mut r = Reactor::new();
    let t = r.register_socket(4).unwrap();
    let rd = r.submit_read(t, 8).unwrap();
    let wr = r.submit_write(t, vec![1, 2]).unwrap();
    let ac = r.submit_accept(t).unwrap();
    assert_eq!(head_id(&r, t, Direction::Read), Some(rd));
    assert_eq!(head_id(&r, t, Direction::Write), Some(wr));
    r.dispatch(t, Direction::Write, Outcome::Failed(32));
    assert_eq!(head_id(&r, t, Direction::Read), Some(rd));
    r.dispatch(t, Direction::Read, Outcome::Ready(Payload::Bytes(vec![7])));
    assert_eq!(head_id(&r, t, Direction::Read), Some(ac));
}

#[test]
fn close_cancels_every_queued_operation() {
    let mut r = Reactor::new();
    let t = r.register_socket(11).unwrap();
    let r1 = r.submit_read(t, 8).unwrap();
    let w1 = r.submit_write(t, vec![1]).unwrap();
    let r2 = r.submit_accept(t).unwrap();
    let closed = r.close(t).unwrap();
    assert_eq!(closed.fd, 11);
    let ids: Vec<u64> = closed.cancelled.iter().map(|c| c.id).collect();
    assert_eq!(ids, vec![r1, r2, w1]);
    assert!(closed.cancelled.iter().all(|c| c.result == OpResult::Cancelled));
    assert!(!r.is_live(t));
    assert_eq!(r.token_of(11), None);
}

#[test]
fn second_close_is_a_no_op() {
    let mut r = Reactor::new();
    let t = r.register_socket(2).unwrap();
    assert!(r.close(t).is_some());
    assert!(r.close(t).is_none());
}

#[test]
fn closed_token_never_reappears() {
    let mut r = Reactor::new();
    let t0 = r.register_socket(5).unwrap();
    let t1 = r.register_socket(6).unwrap();
    r.close(t0);
    let t2 = r.register_socket(5).unwrap();
    assert_ne!(t2, t0);
    let batch = vec![
        ReadyEvent { token: t0, direction: Direction::Read },
        ReadyEvent { token: t1, direction: Direction::Write },
        ReadyEvent { token: t2, direction: Direction::Read },
        ReadyEvent { token: 99, direction: Direction::Read },
    ];
    let kept = r.live_events(&batch);
    assert_eq!(
        kept,
        vec![
            ReadyEvent { token: t1, direction: Direction::Write },
            ReadyEvent { token: t2, direction: Direction::Read },
        ]
    );
    assert_eq!(r.submit_read(t0, 4), Err(SubmitError::UnknownToken));
}

#[test]
fn operation_ids_increase() {
    let mut r = Reactor::new();
    let t = r.register_socket(1).unwrap();
    assert_eq!(r.submit_read(t, 1), Ok(0));
    assert_eq!(r.submit_write(t, vec![]), Ok(1));
    assert_eq!(r.submit_accept(t), Ok(2));
    match r.head(t, Direction::Write) {
        Some(PendingOp::Write(w)) => assert_eq!(w.id, 1),
        other => panic!("unexpected head {:?}", other),
    }
}

#[test]
fn registered_token_resolves_to_descriptor() {
    let mut r = Reactor::new();
    let t = r.register_socket(21).unwrap();
    assert!(r.is_live(t));
    assert_eq!(r.token_of(21), Some(t));
    assert_eq!(r.head(t, Direction::Read), None);
    assert_eq!(r.head(t, Direction::Write), None);
    r.register_socket(22).unwrap();
    assert_eq!(r.token_of(21), Some(t));
}
