//! A verified model of a user-space consumer/producer protocol for a pair of
//! kernel-shared asynchronous I/O ring buffers (a submission queue and a
//! completion queue), plus the pieces of a connection-multiplexing event loop
//! built on top of it: a correlation-tag dispatcher, a connection table, and
//! a driver step.
//!
//! The kernel side of the protocol is represented by an in-process collaborator
//! that obeys exactly the documented interface contract: submissions are
//! consumed in order, each completion carries the 64-bit correlation tag of the
//! submission it answers, and cursors wrap with a power-of-two bitmask.

pub mod conn;
pub mod driver;
pub mod page;
pub mod ring;

pub use conn::{
    decode_tag, Action, ConnState, ConnTable, Event, Fatal, BUFFER_LEN, MAX_CONNECTIONS,
    MSG_WAITALL, NEW_CLIENT,
};
pub use driver::{event_loop_step, LoopError};
pub use page::Page;
pub use ring::{
    io_uring_cqe_index, io_uring_cqe_shift, io_uring_for_each_cqe, io_uring_prep_multishot_accept,
    io_uring_prep_nop, io_uring_prep_recv, Cqe, IoUring, Opcode, SetupError, Sqe, WaitError,
    IORING_SETUP_CQE32, IORING_SETUP_DEFER_TASKRUN, IORING_SETUP_SINGLE_ISSUER, MAX_RING_ENTRIES,
};
