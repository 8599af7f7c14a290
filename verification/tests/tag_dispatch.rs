use uring::{
    decode_tag, io_uring_for_each_cqe, io_uring_prep_multishot_accept, io_uring_prep_nop,
    io_uring_prep_recv, Event, IoUring, Opcode, MSG_WAITALL, NEW_CLIENT,
};

#[test]
fn tag_round_trip_through_kernel() {
    // The tag of a submission comes back verbatim in the completion that
    // answers it, whatever the result code.
    let mut ring = IoUring::queue_init(8, 0).unwrap();
    assert!(ring.push_sqe(io_uring_prep_recv(5, 1024, MSG_WAITALL, 42)));
    assert_eq!(ring.submit(), 1);
    assert_eq!(ring.inflight_len(), 1);
    ring.kernel_complete(0, 1024);
    let batch = io_uring_for_each_cqe(&ring);
    assert_eq!(batch.len(), 1);
    assert_eq!(batch[0].user_data, 42);
    assert_eq!(batch[0].res, 1024);
    assert_eq!(ring.inflight_len(), 0);
}

#[test]
fn multishot_accept_stays_armed() {
    let mut ring = IoUring::queue_init(8, 0).unwrap();
    assert!(ring.push_sqe(io_uring_prep_multishot_accept(3, NEW_CLIENT)));
    assert_eq!(ring.submit(), 1);
    ring.kernel_complete(0, 7);
    assert_eq!(ring.inflight_len(), 1);
    assert_eq!(ring.inflight_at(0).opcode, Opcode::MultishotAccept);
    ring.kernel_complete(0, 8);
    assert_eq!(ring.inflight_len(), 1);
    let batch = io_uring_for_each_cqe(&ring);
    assert_eq!(batch.len(), 2);
    assert_eq!(batch[0].user_data, NEW_CLIENT);
    assert_eq!(batch[0].res, 7);
    assert_eq!(batch[1].user_data, NEW_CLIENT);
    assert_eq!(batch[1].res, 8);
}

#[test]
fn decode_tag_sentinel_and_index() {
    assert_eq!(decode_tag(NEW_CLIENT), Event::NewConnection);
    assert_eq!(decode_tag(0), Event::ConnectionEvent(0));
    assert_eq!(decode_tag(5), Event::ConnectionEvent(5));
    assert_eq!(decode_tag(NEW_CLIENT - 1), Event::ConnectionEvent(NEW_CLIENT - 1));
}

#[test]
fn drain_then_advance_releases_exactly_the_batch() {
    // Entries are read before the head moves; once the head has moved, the
    // released entries are never exposed again.
    let mut ring = IoUring::queue_init(8, 0).unwrap();
    for tag in 0..4u64 {
        assert!(ring.push_sqe(io_uring_prep_nop(tag)));
    }
    ring.submit_and_wait(4).unwrap();
    let batch = io_uring_for_each_cqe(&ring);
    assert_eq!(batch.len(), 4);
    // reading does not consume: a second drain sees the same entries
    let again = io_uring_for_each_cqe(&ring);
    assert_eq!(batch, again);
    ring.cq_advance(2);
    let rest = io_uring_for_each_cqe(&ring);
    assert_eq!(rest.len(), 2);
    assert_eq!(rest[0].user_data, 2);
    assert_eq!(rest[1].user_data, 3);
    ring.cq_advance(2);
    assert!(io_uring_for_each_cqe(&ring).is_empty());
}

#[test]
fn released_slots_are_reused_without_resurrecting_old_entries() {
    // Fill the completion ring to capacity, release everything, then let the
    // kernel collaborator fill it again: only the new entries appear.
    let mut ring = IoUring::queue_init(1, 0).unwrap();
    for round in 0..5u64 {
        assert!(ring.push_sqe(io_uring_prep_nop(round)));
        ring.submit_and_wait(1).unwrap();
        let batch = io_uring_for_each_cqe(&ring);
        assert_eq!(batch.len(), 1);
        assert_eq!(batch[0].user_data, round);
        ring.cq_advance(1);
    }
}
