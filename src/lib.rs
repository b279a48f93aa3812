//! A single-threaded readiness reactor, modelled as verified state machines.
//!
//! The library never touches the operating system. It decides what happens
//! when a non-blocking call reports its outcome; the host program performs
//! the calls and feeds their outcomes back.
pub mod connection;
pub mod operation;
pub mod reactor;
pub mod server;

pub use connection::{ConnState, Connection, Interest, ReadAction, WriteAction};
pub use operation::{
    AcceptOperation, Completion, Direction, OpResult, Operation, Outcome, Payload, PendingOp,
    ReadOperation, Step, WriteOperation,
};
pub use reactor::{Closed, DescriptorState, ReadyEvent, Reactor, RegisterError, SubmitError};
pub use server::{AcceptAction, Readiness, Route, Server};
