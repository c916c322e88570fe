use block_mirror::phase::MirrorPhase;
use block_mirror::queue::MirroringAsyncIo;
use block_mirror::ranges::RangeError;
use block_mirror::state::MirrorState;
use block_mirror::worker::{
    BlockRead, CopyError, CopyWorker, EpollAction, EpollEvent, EpollWaiter, RunAction,
    TransferOutcome, WaitAction, WaitEvent, MIRROR_BLOCK_SIZE,
};

type Outcome = TransferOutcome<&'static str, &'static str>;

fn begin(worker: &mut CopyWorker, state: &mut MirrorState, offset: u64, length: usize) -> BlockRead {
    match worker.copy_block(state, offset, length) {
        Ok(Some(read)) => read,
        _ => panic!("the range is free"),
    }
}

fn is_free(state: &mut MirrorState, offset: u64) -> bool {
    let queue = MirroringAsyncIo::create();
    match queue.punch_hole(state, offset, 1, 0) {
        Ok(Some(request)) => {
            assert!(matches!(queue.mirror_request(state, request, Err(())), Err(())));
            true
        }
        _ => false,
    }
}

#[test]
fn the_block_size_is_half_a_mebibyte() {
    assert_eq!(MIRROR_BLOCK_SIZE, 524288);
}

#[test]
fn a_disk_is_copied_block_by_block() {
    let mut state = MirrorState::new(10);
    let mut worker = CopyWorker::new(4);
    let mut blocks = vec![];
    let mut ids = vec![];
    loop {
        match worker.run(&mut state) {
            RunAction::Stop => break,
            RunAction::Copy { offset, length } => {
                blocks.push((offset, length));
                let read = begin(&mut worker, &mut state, offset, length);
                assert!(!is_free(&mut state, offset));
                assert_eq!(read.file_offset(), offset as i64);
                assert_eq!(read.length(), length);
                ids.push(read.user_data());
                let done: Outcome = TransferOutcome::Completed(length as i32);
                let write = match worker.read_done(&mut state, read, done) {
                    Ok(write) => write,
                    Err(_) => panic!("the block was read"),
                };
                assert!(!is_free(&mut state, offset));
                assert_eq!(write.file_offset(), offset as i64);
                assert_eq!(write.length(), length);
                ids.push(write.user_data());
                let done: Outcome = TransferOutcome::Completed(0);
                assert_eq!(worker.write_done(&mut state, write, done), Ok(()));
                assert!(is_free(&mut state, offset));
                assert_eq!(state.status().copied_bytes, offset + length as u64);
            }
        }
    }
    assert_eq!(blocks, vec![(0, 4), (4, 4), (8, 2)]);
    assert_eq!(ids, vec![0, 1, 2, 3, 4, 5]);
    assert_eq!(state.phase(), MirrorPhase::Ready);
    assert_eq!(state.status().copied_bytes, 10);
}

#[test]
fn an_empty_disk_is_ready_at_once() {
    let mut state = MirrorState::new(0);
    let worker = CopyWorker::new(4);
    assert_eq!(worker.run(&mut state), RunAction::Stop);
    assert_eq!(state.phase(), MirrorPhase::Ready);
}

#[test]
fn a_mirror_that_is_not_running_stops_the_worker() {
    for phase in [
        MirrorPhase::Cancelling,
        MirrorPhase::Failed(String::from("broken")),
    ] {
        let mut state = MirrorState::new(10);
        state.transition_to_phase(phase.clone());
        let worker = CopyWorker::new(4);
        assert_eq!(worker.run(&mut state), RunAction::Stop);
        assert_eq!(state.phase(), phase);
    }
}

#[test]
fn a_finished_copy_does_not_revive_a_cancelled_mirror() {
    let mut state = MirrorState::new(0);
    state.transition_to_phase(MirrorPhase::Cancelling);
    let worker = CopyWorker::new(4);
    assert_eq!(worker.run(&mut state), RunAction::Stop);
    assert_eq!(state.phase(), MirrorPhase::Cancelling);
}

#[test]
fn a_block_clears_the_part_of_the_buffer_it_fills() {
    let mut state = MirrorState::new(10);
    let mut worker = CopyWorker::new(4);
    assert_eq!(worker.buffer(), &[0, 0, 0, 0]);
    worker.buffer().copy_from_slice(&[1, 2, 3, 4]);
    begin(&mut worker, &mut state, 0, 3);
    assert_eq!(worker.buffer(), &[0, 0, 0, 4]);
}

#[test]
fn a_short_read_is_filled_with_zeros() {
    let mut state = MirrorState::new(10);
    let mut worker = CopyWorker::new(4);
    worker.buffer().copy_from_slice(&[1, 2, 3, 4]);
    let read = begin(&mut worker, &mut state, 0, 4);
    worker.buffer()[..2].copy_from_slice(&[7, 8]);
    let done: Outcome = TransferOutcome::Completed(2);
    assert!(worker.read_done(&mut state, read, done).is_ok());
    assert_eq!(worker.buffer(), &[7, 8, 0, 0]);
}

#[test]
fn a_held_range_makes_the_worker_wait() {
    let mut state = MirrorState::new(10);
    let mut worker = CopyWorker::new(4);
    worker.buffer().copy_from_slice(&[1, 2, 3, 4]);
    let queue = MirroringAsyncIo::create();
    let request = match queue.punch_hole(&mut state, 3, 1, 1) {
        Ok(Some(request)) => request,
        _ => panic!("the range is free"),
    };
    assert!(matches!(worker.copy_block(&mut state, 0, 4), Ok(None)));
    assert_eq!(worker.buffer(), &[1, 2, 3, 4]);
    assert!(queue.mirror_request(&mut state, request, Err(())).is_err());
    assert_eq!(begin(&mut worker, &mut state, 0, 4).user_data(), 0);
}

#[test]
fn a_block_without_bytes_is_refused() {
    let mut state = MirrorState::new(10);
    let mut worker = CopyWorker::new(0);
    assert_eq!(
        worker.run(&mut state),
        RunAction::Copy { offset: 0, length: 0 }
    );
    assert!(matches!(
        worker.copy_block(&mut state, 0, 0),
        Err(RangeError::ZeroLength)
    ));
}

#[test]
fn a_block_past_64_bits_is_refused() {
    let mut state = MirrorState::new(10);
    let mut worker = CopyWorker::new(4);
    assert!(matches!(
        worker.copy_block(&mut state, u64::MAX - 1, 4),
        Err(RangeError::Overflow)
    ));
    assert!(matches!(
        worker.copy_block(&mut state, u64::MAX - 1, 5),
        Err(RangeError::Overflow)
    ));
}

#[test]
fn a_large_offset_turns_negative_as_a_file_offset() {
    let mut state = MirrorState::new(u64::MAX);
    let mut worker = CopyWorker::new(4);
    let read = begin(&mut worker, &mut state, u64::MAX - 4, 4);
    assert_eq!(read.file_offset(), -5);
    let read = begin(&mut worker, &mut state, 0x7fff_ffff_ffff_ffff, 1);
    assert_eq!(read.file_offset(), i64::MAX);
}

#[test]
fn a_read_that_fails_frees_the_range() {
    let outcomes: [(Outcome, CopyError<&str, &str>); 3] = [
        (
            TransferOutcome::NotSubmitted("full"),
            CopyError::ReadNotSubmitted("full"),
        ),
        (
            TransferOutcome::WaitFailed("lost"),
            CopyError::WaitFailed("lost"),
        ),
        (TransferOutcome::Completed(-5), CopyError::Os(5)),
    ];
    for (outcome, expected) in outcomes {
        let mut state = MirrorState::new(10);
        let mut worker = CopyWorker::new(4);
        let read = begin(&mut worker, &mut state, 0, 4);
        match worker.read_done(&mut state, read, outcome) {
            Ok(_) => panic!("the read failed"),
            Err(error) => assert_eq!(error, expected),
        }
        assert!(is_free(&mut state, 0));
        assert_eq!(state.status().copied_bytes, 0);
    }
}

#[test]
fn a_write_that_fails_frees_the_range_and_counts_nothing() {
    let outcomes: [(Outcome, CopyError<&str, &str>); 3] = [
        (
            TransferOutcome::NotSubmitted("full"),
            CopyError::WriteNotSubmitted("full"),
        ),
        (
            TransferOutcome::WaitFailed("lost"),
            CopyError::WaitFailed("lost"),
        ),
        (TransferOutcome::Completed(-28), CopyError::Os(28)),
    ];
    for (outcome, expected) in outcomes {
        let mut state = MirrorState::new(10);
        let mut worker = CopyWorker::new(4);
        let read = begin(&mut worker, &mut state, 0, 4);
        let done: Outcome = TransferOutcome::Completed(4);
        let write = match worker.read_done(&mut state, read, done) {
            Ok(write) => write,
            Err(_) => panic!("the block was read"),
        };
        assert_eq!(worker.write_done(&mut state, write, outcome), Err(expected));
        assert!(is_free(&mut state, 0));
        assert_eq!(state.status().copied_bytes, 0);
        assert_eq!(
            worker.run(&mut state),
            RunAction::Copy { offset: 0, length: 4 }
        );
    }
}

#[test]
fn an_abandoned_block_frees_its_range() {
    let mut state = MirrorState::new(10);
    let mut worker = CopyWorker::new(4);
    begin(&mut worker, &mut state, 0, 4).abandon(&mut state);
    assert!(is_free(&mut state, 0));
    let read = begin(&mut worker, &mut state, 0, 4);
    let done: Outcome = TransferOutcome::Completed(4);
    match worker.read_done(&mut state, read, done) {
        Ok(write) => write.abandon(&mut state),
        Err(_) => panic!("the block was read"),
    }
    assert!(is_free(&mut state, 0));
    assert_eq!(state.status().copied_bytes, 0);
}

#[test]
fn a_completion_is_polled_for_and_waited_for() {
    let step = CopyWorker::wait_for_completion::<&str>;
    assert_eq!(step(WaitEvent::Polled(Some((3, 7)))), WaitAction::Return(Ok((3, 7))));
    assert_eq!(step(WaitEvent::Polled(None)), WaitAction::Wait);
    assert_eq!(step(WaitEvent::Waited(Ok(()))), WaitAction::Drain);
    assert_eq!(step(WaitEvent::Drained(Ok(()))), WaitAction::Poll);
    assert_eq!(step(WaitEvent::Waited(Err("epoll"))), WaitAction::Return(Err("epoll")));
    assert_eq!(step(WaitEvent::Drained(Err("read"))), WaitAction::Return(Err("read")));
}

#[test]
fn an_interrupted_wait_is_repeated() {
    assert_eq!(EpollWaiter::wait::<&str>(EpollEvent::Interrupted), EpollAction::Again);
    assert_eq!(EpollWaiter::wait::<&str>(EpollEvent::Ready), EpollAction::Return(Ok(())));
    assert_eq!(
        EpollWaiter::wait(EpollEvent::Failed("bad fd")),
        EpollAction::Return(Err("bad fd"))
    );
}

#[test]
fn a_worker_that_gives_up_fails_the_mirror() {
    let mut state = MirrorState::new(10);
    CopyWorker::finish(&mut state, Ok(()));
    assert_eq!(state.phase(), MirrorPhase::Running);
    CopyWorker::finish(&mut state, Err(String::from("Os { code: 5 }")));
    assert_eq!(
        state.phase(),
        MirrorPhase::Failed(String::from("Copy worker failed: Os { code: 5 }"))
    );
}

#[test]
fn guest_writes_and_the_copy_leave_both_disks_equal() {
    let mut source = vec![1u8, 2, 3, 4, 5, 6];
    let mut destination = vec![0u8; 6];
    let mut state = MirrorState::new(6);
    let mut worker = CopyWorker::new(2);
    let mut queue = MirroringAsyncIo::create();
    let mut id = 100;
    loop {
        let (offset, length) = match worker.run(&mut state) {
            RunAction::Stop => break,
            RunAction::Copy { offset, length } => (offset, length),
        };
        let read = begin(&mut worker, &mut state, offset, length);
        let at = offset as usize;
        // The guest cannot touch the block that is being copied.
        assert!(matches!(queue.write_zeroes(&mut state, offset, 1, id), Ok(None)));
        worker.buffer().copy_from_slice(&source[at..at + length]);
        let done: Outcome = TransferOutcome::Completed(length as i32);
        let write = match worker.read_done(&mut state, read, done) {
            Ok(write) => write,
            Err(_) => panic!("the block was read"),
        };
        destination[at..at + length].copy_from_slice(worker.buffer());
        let done: Outcome = TransferOutcome::Completed(length as i32);
        assert_eq!(worker.write_done(&mut state, write, done), Ok(()));
        // The guest clears a byte somewhere on both disks.
        let target = (at * 5 + 1) % 6;
        match queue.write_zeroes(&mut state, target as u64, 1, id) {
            Ok(Some(request)) => match queue.mirror_request::<()>(&mut state, request, Ok(())) {
                Ok(Some(accepted)) => {
                    source[target] = 0;
                    destination[target] = 0;
                    queue.mirror_to_destination(&mut state, accepted, Ok(()));
                }
                _ => panic!("the source took the request"),
            },
            _ => panic!("the range is free"),
        }
        queue.next_completed_request(
            &mut state,
            block_mirror::queue::CompletionEvent::Source(Some((id, 0))),
        );
        queue.next_completed_request(
            &mut state,
            block_mirror::queue::CompletionEvent::Destination(Some((id, 0))),
        );
        queue.next_completed_request(
            &mut state,
            block_mirror::queue::CompletionEvent::Destination(None),
        );
        id += 1;
    }
    assert_eq!(state.phase(), MirrorPhase::Ready);
    assert!(!queue.has_inflight_requests());
    assert_eq!(source, destination);
}
