use uring::{
    event_loop_step, io_uring_prep_multishot_accept, Action, ConnState, ConnTable, Cqe, Fatal,
    IoUring, LoopError, Opcode, BUFFER_LEN, MSG_WAITALL, NEW_CLIENT,
};

#[test]
fn accept_then_receive() {
    let mut table = ConnTable::new();

    // a simulated accept completion: sentinel tag, result is the new fd 7
    let action = table.handle_completion(Cqe { user_data: NEW_CLIENT, res: 7 }).unwrap();
    assert_eq!(table.conn_count(), 1);
    assert_eq!(table.conn_fd(0), 7);
    assert_eq!(table.conn_state(0), ConnState::Receiving);
    match action {
        Action::Rearm(e) => {
            assert_eq!(e.opcode, Opcode::Recv);
            assert_eq!(e.fd, 7);
            assert_eq!(e.buf_len, BUFFER_LEN);
            assert_eq!(e.op_flags, MSG_WAITALL);
            assert_eq!(e.user_data, 0);
        },
        Action::Inert => panic!("an accepted connection must arm a receive"),
    }

    // a full-buffer receive completion re-arms the receive on the same
    // connection, under the same tag
    let action = table.handle_completion(Cqe { user_data: 0, res: 1024 }).unwrap();
    assert_eq!(table.conn_count(), 1);
    match action {
        Action::Rearm(e) => {
            assert_eq!(e.opcode, Opcode::Recv);
            assert_eq!(e.fd, 7);
            assert_eq!(e.buf_len, BUFFER_LEN);
            assert_eq!(e.user_data, 0);
        },
        Action::Inert => panic!("a full buffer must re-arm the receive"),
    }

    // a zero-length result is an orderly disconnect: the slot goes inert and
    // nothing further is submitted for it
    let action = table.handle_completion(Cqe { user_data: 0, res: 0 }).unwrap();
    assert_eq!(action, Action::Inert);
    assert_eq!(table.conn_state(0), ConnState::Disconnected);
    assert_eq!(table.conn_count(), 1);
}

#[test]
fn negative_result_is_fatal() {
    let mut table = ConnTable::new();
    let r = table.handle_completion(Cqe { user_data: NEW_CLIENT, res: -104 });
    assert_eq!(r, Err(Fatal::OpFailed { tag: NEW_CLIENT, res: -104 }));
    assert_eq!(table.conn_count(), 0);
}

#[test]
fn unknown_tag_is_fatal() {
    let mut table = ConnTable::new();
    table.handle_completion(Cqe { user_data: NEW_CLIENT, res: 7 }).unwrap();
    let r = table.handle_completion(Cqe { user_data: 3, res: 1024 });
    assert_eq!(r, Err(Fatal::UnknownTag { tag: 3 }));
}

#[test]
fn short_read_is_fatal() {
    let mut table = ConnTable::new();
    table.handle_completion(Cqe { user_data: NEW_CLIENT, res: 7 }).unwrap();
    let r = table.handle_completion(Cqe { user_data: 0, res: 10 });
    assert_eq!(r, Err(Fatal::UnexpectedLength { tag: 0, res: 10 }));
    assert_eq!(table.conn_state(0), ConnState::Receiving);
}

#[test]
fn completion_for_inert_slot_is_fatal() {
    let mut table = ConnTable::new();
    table.handle_completion(Cqe { user_data: NEW_CLIENT, res: 7 }).unwrap();
    table.handle_completion(Cqe { user_data: 0, res: 0 }).unwrap();
    let r = table.handle_completion(Cqe { user_data: 0, res: 1024 });
    assert_eq!(r, Err(Fatal::StaleCompletion { tag: 0 }));
}

#[test]
fn event_loop_drives_a_connection() {
    let mut ring = IoUring::queue_init(8, 0).unwrap();
    let mut table = ConnTable::new();
    assert!(ring.push_sqe(io_uring_prep_multishot_accept(3, NEW_CLIENT)));

    // the accept is published but nothing has completed yet
    assert_eq!(event_loop_step(&mut ring, &mut table), Err(LoopError::WouldBlock));
    assert_eq!(ring.inflight_len(), 1);

    // a peer arrives: the accept fires with the new descriptor
    ring.kernel_complete(0, 7);
    assert_eq!(event_loop_step(&mut ring, &mut table), Ok(1));
    assert_eq!(table.conn_count(), 1);
    assert_eq!(table.conn_fd(0), 7);
    assert_eq!(ring.sq_pending_len(), 1);
    let armed = ring.sq_pending_at(0);
    assert_eq!(armed.opcode, Opcode::Recv);
    assert_eq!(armed.user_data, 0);

    // publish the receive; it completes with a full buffer and is re-armed
    assert_eq!(event_loop_step(&mut ring, &mut table), Err(LoopError::WouldBlock));
    assert_eq!(ring.inflight_len(), 2);
    ring.kernel_complete(1, 1024);
    assert_eq!(event_loop_step(&mut ring, &mut table), Ok(1));
    assert_eq!(ring.sq_pending_len(), 1);
    assert_eq!(ring.sq_pending_at(0).user_data, 0);

    // the peer disconnects: the slot goes inert, nothing is re-armed
    assert_eq!(event_loop_step(&mut ring, &mut table), Err(LoopError::WouldBlock));
    ring.kernel_complete(1, 0);
    assert_eq!(event_loop_step(&mut ring, &mut table), Ok(1));
    assert_eq!(table.conn_state(0), ConnState::Disconnected);
    assert_eq!(ring.sq_pending_len(), 0);
}

#[test]
fn event_loop_reports_fatal_completions() {
    let mut ring = IoUring::queue_init(8, 0).unwrap();
    let mut table = ConnTable::new();
    assert!(ring.push_sqe(io_uring_prep_multishot_accept(3, NEW_CLIENT)));
    assert_eq!(event_loop_step(&mut ring, &mut table), Err(LoopError::WouldBlock));
    ring.kernel_complete(0, -104);
    assert_eq!(
        event_loop_step(&mut ring, &mut table),
        Err(LoopError::Dispatch(Fatal::OpFailed { tag: NEW_CLIENT, res: -104 })),
    );
    assert_eq!(table.conn_count(), 0);
    assert_eq!(ring.ready_len(), 0);
}
