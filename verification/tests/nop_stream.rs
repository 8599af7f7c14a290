use uring::{
    io_uring_cqe_index, io_uring_cqe_shift, io_uring_for_each_cqe, io_uring_prep_nop, IoUring,
    SetupError, WaitError, IORING_SETUP_CQE32, IORING_SETUP_DEFER_TASKRUN,
    IORING_SETUP_SINGLE_ISSUER,
};

#[test]
fn liburing_example() {
    let flags = IORING_SETUP_SINGLE_ISSUER | IORING_SETUP_DEFER_TASKRUN;
    let mut ring = match IoUring::queue_init(8, flags) {
        Ok(r) => r,
        Err(_) => panic!("could not initialize the ring"),
    };

    let mut data_start: u64 = 0;
    let mut data_expect: u64 = 0;
    for _ in 0..20 {
        let ok = ring.push_sqe(io_uring_prep_nop(data_start));
        assert!(ok);
        data_start += 1;

        ring.submit_and_wait(1).unwrap();

        let mut nr: u32 = 0;
        for cqe in io_uring_for_each_cqe(&ring) {
            assert_eq!(cqe.user_data, data_expect);
            data_expect += 1;
            nr += 1;
        }
        ring.cq_advance(nr);
    }
}

#[test]
fn single_nop_round_trip() {
    let mut ring = IoUring::queue_init(8, 0).unwrap();
    assert!(ring.push_sqe(io_uring_prep_nop(1)));
    ring.submit_and_wait(1).unwrap();
    let batch = io_uring_for_each_cqe(&ring);
    assert_eq!(batch.len(), 1);
    assert_eq!(batch[0].user_data, 1);
    assert_eq!(batch[0].res, 0);
    ring.cq_advance(1);
    assert_eq!(ring.ready_len(), 0);
}

#[test]
fn sequential_nop_stream_in_order() {
    let mut ring = IoUring::queue_init(8, 0).unwrap();
    let mut seen: Vec<u64> = Vec::new();
    for tag in 0..20u64 {
        assert!(ring.push_sqe(io_uring_prep_nop(tag)));
        ring.submit_and_wait(1).unwrap();
        let batch = io_uring_for_each_cqe(&ring);
        for cqe in &batch {
            assert_eq!(cqe.res, 0);
            seen.push(cqe.user_data);
        }
        ring.cq_advance(batch.len() as u32);
    }
    let expected: Vec<u64> = (0..20u64).collect();
    assert_eq!(seen, expected);
}

#[test]
fn cursor_wrap_batches() {
    // More submissions than the ring holds, drained batch by batch: nothing
    // is lost or duplicated when the cursors cross the capacity boundary.
    let mut ring = IoUring::queue_init(4, 0).unwrap();
    let mut seen: Vec<u64> = Vec::new();
    let mut tag: u64 = 0;
    for _ in 0..6 {
        for _ in 0..3 {
            assert!(ring.push_sqe(io_uring_prep_nop(tag)));
            tag += 1;
        }
        ring.submit_and_wait(3).unwrap();
        let batch = io_uring_for_each_cqe(&ring);
        assert_eq!(batch.len(), 3);
        for cqe in &batch {
            seen.push(cqe.user_data);
        }
        ring.cq_advance(3);
    }
    let expected: Vec<u64> = (0..18u64).collect();
    assert_eq!(seen, expected);
}

#[test]
fn submission_ring_full() {
    let mut ring = IoUring::queue_init(4, 0).unwrap();
    for tag in 0..4u64 {
        assert!(ring.push_sqe(io_uring_prep_nop(tag)));
    }
    // a slot the kernel has not released is never handed out
    assert!(!ring.push_sqe(io_uring_prep_nop(4)));
    assert_eq!(ring.sq_pending_len(), 4);
}

#[test]
fn queue_init_rejects_bad_depths() {
    for bad in [0u32, 3, 12, 40000] {
        match IoUring::queue_init(bad, 0) {
            Err(e) => assert_eq!(e, SetupError::InvalidEntries),
            Ok(_) => panic!("a bad depth must be refused"),
        }
    }
    assert!(IoUring::queue_init(1, 0).is_ok());
    assert!(IoUring::queue_init(32768, 0).is_ok());
}

#[test]
fn wait_with_nothing_ready_would_block() {
    let mut ring = IoUring::queue_init(8, 0).unwrap();
    assert_eq!(ring.submit_and_wait(1), Err(WaitError::WouldBlock));
}

#[test]
fn cqe_shift_follows_setup_flags() {
    let plain = IoUring::queue_init(8, 0).unwrap();
    assert_eq!(plain.setup_flags(), 0);
    assert_eq!(io_uring_cqe_shift(&plain), 0);
    let wide = IoUring::queue_init(8, IORING_SETUP_CQE32).unwrap();
    assert_eq!(wide.setup_flags(), IORING_SETUP_CQE32);
    assert_eq!(io_uring_cqe_shift(&wide), 1);
    assert_eq!(plain.sq_capacity(), 8);
    assert_eq!(plain.cq_capacity(), 16);
}

#[test]
fn cqe_index_masks_and_shifts() {
    let plain = IoUring::queue_init(8, 0).unwrap();
    assert_eq!(io_uring_cqe_index(&plain, 9, 7), 1);
    assert_eq!(io_uring_cqe_index(&plain, 16, 15), 0);
    let wide = IoUring::queue_init(8, IORING_SETUP_CQE32).unwrap();
    assert_eq!(io_uring_cqe_index(&wide, 9, 7), 2);
    assert_eq!(io_uring_cqe_index(&wide, 3, 15), 6);
}

#[test]
fn nop_round_trip_under_wide_entries() {
    let mut ring = IoUring::queue_init(8, IORING_SETUP_CQE32).unwrap();
    for tag in 0..10u64 {
        assert!(ring.push_sqe(io_uring_prep_nop(tag)));
        ring.submit_and_wait(1).unwrap();
        let batch = io_uring_for_each_cqe(&ring);
        assert_eq!(batch.len(), 1);
        assert_eq!(batch[0].user_data, tag);
        ring.cq_advance(1);
    }
}
