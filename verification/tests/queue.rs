use block_mirror::phase::MirrorPhase;
use block_mirror::queue::{
    AsyncIoError, BatchAction, CompletionAction, CompletionEvent, MirrorRequest, MirroredOp,
    MirroringAsyncIo, RequestType,
};
use block_mirror::ranges::{IoVec, RangeError};
use block_mirror::state::MirrorState;

fn hole(queue: &MirroringAsyncIo, state: &mut MirrorState, offset: u64, id: u64) -> MirrorRequest {
    match queue.punch_hole(state, offset, 10, id) {
        Ok(Some(request)) => request,
        _ => panic!("the range is not free"),
    }
}

fn is_free(queue: &MirroringAsyncIo, state: &mut MirrorState, offset: u64) -> bool {
    match queue.punch_hole(state, offset, 10, 0) {
        Ok(Some(request)) => {
            assert!(matches!(queue.mirror_request(state, request, Err(())), Err(())));
            true
        }
        _ => false,
    }
}

fn track(queue: &mut MirroringAsyncIo, state: &mut MirrorState, request: MirrorRequest) {
    match queue.mirror_request::<()>(state, request, Ok(())) {
        Ok(Some(accepted)) => queue.mirror_to_destination(state, accepted, Ok(())),
        Ok(None) => panic!("the mirror has not failed"),
        Err(()) => panic!("the source took the request"),
    }
}

fn failed(reason: &str) -> MirrorPhase {
    MirrorPhase::Failed(String::from(reason))
}

#[test]
fn a_new_queue_has_nothing_in_flight() {
    let queue = MirroringAsyncIo::create();
    assert!(!queue.has_inflight_requests());
    assert!(queue.batch_requests_enabled());
}

#[test]
fn a_write_completes_after_both_disks() {
    let mut state = MirrorState::new(4096);
    let mut queue = MirroringAsyncIo::create();
    let request = match queue.write_vectored(&mut state, 512, &[IoVec { iov_len: 512 }], 9) {
        Ok(Some(request)) => request,
        _ => panic!("the range is free"),
    };
    assert_eq!(request.op(), MirroredOp::WriteVectored { file_offset: 512 });
    assert_eq!(request.user_data(), Some(9));
    track(&mut queue, &mut state, request);
    assert!(queue.has_inflight_requests());
    assert!(!is_free(&queue, &mut state, 600));

    let event = CompletionEvent::Source(Some((9, 512)));
    assert_eq!(
        queue.next_completed_request(&mut state, event),
        CompletionAction::PollSource
    );
    assert_eq!(
        queue.next_completed_request(&mut state, CompletionEvent::Source(None)),
        CompletionAction::PollDestination
    );
    assert_eq!(
        queue.next_completed_request(&mut state, CompletionEvent::Destination(None)),
        CompletionAction::Return(None)
    );
    assert!(!is_free(&queue, &mut state, 600));
    let event = CompletionEvent::Destination(Some((9, 0)));
    assert_eq!(
        queue.next_completed_request(&mut state, event),
        CompletionAction::PollDestination
    );
    assert_eq!(
        queue.next_completed_request(&mut state, CompletionEvent::Destination(None)),
        CompletionAction::Return(Some((9, 512)))
    );
    assert!(!queue.has_inflight_requests());
    assert!(is_free(&queue, &mut state, 600));
    assert_eq!(state.phase(), MirrorPhase::Running);
}

#[test]
fn the_requests_name_their_operations() {
    let mut state = MirrorState::new(4096);
    let queue = MirroringAsyncIo::create();
    let punched = hole(&queue, &mut state, 20, 1);
    assert_eq!(punched.op(), MirroredOp::PunchHole { offset: 20, length: 10 });
    assert_eq!(punched.user_data(), Some(1));
    let zeroed = match queue.write_zeroes(&mut state, 40, 5, 2) {
        Ok(Some(request)) => request,
        _ => panic!("the range is free"),
    };
    assert_eq!(zeroed.op(), MirroredOp::WriteZeroes { offset: 40, length: 5 });
    let synced = queue.fsync(None);
    assert_eq!(synced.op(), MirroredOp::Fsync);
    assert_eq!(synced.user_data(), None);
    assert_eq!(synced.op().label(), "fsync");
    assert_eq!(punched.op().label(), "punch_hole");
    assert_eq!(zeroed.op().label(), "write_zeroes");
    match queue.mirror_request::<()>(&mut state, punched, Ok(())) {
        Ok(Some(accepted)) => {
            assert_eq!(accepted.op(), MirroredOp::PunchHole { offset: 20, length: 10 });
            assert_eq!(accepted.user_data(), Some(1));
        }
        _ => panic!("the source took the request"),
    }
}

#[test]
fn a_held_range_makes_every_operation_wait() {
    let mut state = MirrorState::new(4096);
    let queue = MirroringAsyncIo::create();
    let _held = hole(&queue, &mut state, 0, 1);
    assert!(matches!(queue.punch_hole(&mut state, 9, 1, 2), Ok(None)));
    assert!(matches!(queue.write_zeroes(&mut state, 9, 1, 2), Ok(None)));
    assert!(matches!(
        queue.write_vectored(&mut state, 9, &[IoVec { iov_len: 1 }], 2),
        Ok(None)
    ));
}

#[test]
fn a_range_that_cannot_be_locked_names_the_operation() {
    let mut state = MirrorState::new(4096);
    let queue = MirroringAsyncIo::create();
    assert!(matches!(
        queue.write_vectored(&mut state, 0, &[], 1),
        Err(AsyncIoError::WriteVectored(RangeError::ZeroLength))
    ));
    assert!(matches!(
        queue.punch_hole(&mut state, 0, 0, 1),
        Err(AsyncIoError::PunchHole(RangeError::ZeroLength))
    ));
    assert!(matches!(
        queue.write_zeroes(&mut state, u64::MAX, 2, 1),
        Err(AsyncIoError::WriteZeroes(RangeError::Overflow))
    ));
}

#[test]
fn a_source_error_goes_to_the_guest_and_frees_the_range() {
    let mut state = MirrorState::new(4096);
    let queue = MirroringAsyncIo::create();
    let request = hole(&queue, &mut state, 0, 1);
    assert!(!is_free(&queue, &mut state, 0));
    match queue.mirror_request(&mut state, request, Err("refused")) {
        Ok(_) => panic!("the source refused the request"),
        Err(error) => assert_eq!(error, "refused"),
    }
    assert!(is_free(&queue, &mut state, 0));
    assert!(!queue.has_inflight_requests());
    assert_eq!(state.phase(), MirrorPhase::Running);
}

#[test]
fn a_destination_that_refuses_fails_the_mirror() {
    let mut state = MirrorState::new(4096);
    let mut queue = MirroringAsyncIo::create();
    let request = hole(&queue, &mut state, 0, 1234567890);
    match queue.mirror_request::<()>(&mut state, request, Ok(())) {
        Ok(Some(accepted)) => {
            queue.mirror_to_destination(&mut state, accepted, Err(String::from("Full")))
        }
        _ => panic!("the source took the request"),
    }
    assert!(!queue.has_inflight_requests());
    assert!(is_free(&queue, &mut state, 0));
    assert_eq!(
        state.phase(),
        failed("destination punch_hole submit failed for user_data Some(1234567890): Full")
    );
}

#[test]
fn a_request_that_the_destination_refused_passes_through() {
    let mut state = MirrorState::new(4096);
    let mut queue = MirroringAsyncIo::create();
    let request = hole(&queue, &mut state, 0, 4);
    match queue.mirror_request::<()>(&mut state, request, Ok(())) {
        Ok(Some(accepted)) => {
            queue.mirror_to_destination(&mut state, accepted, Err(String::from("Full")))
        }
        _ => panic!("the source took the request"),
    }
    assert_eq!(
        queue.next_completed_request(&mut state, CompletionEvent::Source(Some((4, 10)))),
        CompletionAction::Return(Some((4, 10)))
    );
}

#[test]
fn a_destination_that_refuses_an_untracked_fsync_fails_the_mirror() {
    let mut state = MirrorState::new(4096);
    let mut queue = MirroringAsyncIo::create();
    let request = queue.fsync(None);
    match queue.mirror_request::<()>(&mut state, request, Ok(())) {
        Ok(Some(accepted)) => {
            queue.mirror_to_destination(&mut state, accepted, Err(String::from("Gone")))
        }
        _ => panic!("the source took the request"),
    }
    assert_eq!(
        state.phase(),
        failed("destination fsync submit failed for user_data None: Gone")
    );
}

#[test]
fn a_failed_mirror_passes_requests_through() {
    let mut state = MirrorState::new(4096);
    let mut queue = MirroringAsyncIo::create();
    queue.fail(&mut state, String::from("broken"));
    let request = hole(&queue, &mut state, 0, 8);
    assert!(!is_free(&queue, &mut state, 0));
    assert!(matches!(queue.mirror_request::<()>(&mut state, request, Ok(())), Ok(None)));
    assert!(is_free(&queue, &mut state, 0));
    assert!(!queue.has_inflight_requests());
    assert_eq!(
        queue.next_completed_request(&mut state, CompletionEvent::Source(Some((8, 0)))),
        CompletionAction::Return(Some((8, 0)))
    );
    let request = hole(&queue, &mut state, 0, 9);
    match queue.mirror_request(&mut state, request, Err("refused")) {
        Ok(_) => panic!("the source refused the request"),
        Err(error) => assert_eq!(error, "refused"),
    }
    assert_eq!(state.phase(), failed("broken"));
}

#[test]
fn an_abandoned_request_frees_its_range() {
    let mut state = MirrorState::new(4096);
    let queue = MirroringAsyncIo::create();
    hole(&queue, &mut state, 0, 1).abandon(&mut state);
    assert!(is_free(&queue, &mut state, 0));
    let request = hole(&queue, &mut state, 0, 1);
    match queue.mirror_request::<()>(&mut state, request, Ok(())) {
        Ok(Some(accepted)) => accepted.abandon(&mut state),
        _ => panic!("the source took the request"),
    }
    assert!(is_free(&queue, &mut state, 0));
}

#[test]
fn an_fsync_without_user_data_is_not_tracked() {
    let mut state = MirrorState::new(4096);
    let mut queue = MirroringAsyncIo::create();
    let request = queue.fsync(None);
    track(&mut queue, &mut state, request);
    assert!(!queue.has_inflight_requests());
    let request = queue.fsync(Some(3));
    track(&mut queue, &mut state, request);
    assert!(queue.has_inflight_requests());
}

#[test]
fn a_destination_error_is_hidden_from_the_guest() {
    let mut state = MirrorState::new(4096);
    let mut queue = MirroringAsyncIo::create();
    let request = hole(&queue, &mut state, 0, 70);
    track(&mut queue, &mut state, request);
    queue.next_completed_request(&mut state, CompletionEvent::Source(Some((70, 0))));
    queue.next_completed_request(&mut state, CompletionEvent::Destination(Some((70, -28))));
    assert_eq!(state.phase(), MirrorPhase::Running);
    assert_eq!(
        queue.next_completed_request(&mut state, CompletionEvent::Destination(None)),
        CompletionAction::Return(Some((70, 0)))
    );
    assert_eq!(
        state.phase(),
        failed("destination completion with user_data=70 failed")
    );
    assert!(is_free(&queue, &mut state, 0));
}

#[test]
fn a_source_error_reaches_the_guest_and_does_not_fail_the_mirror() {
    let mut state = MirrorState::new(4096);
    let mut queue = MirroringAsyncIo::create();
    let request = hole(&queue, &mut state, 0, u64::MAX);
    track(&mut queue, &mut state, request);
    queue.next_completed_request(&mut state, CompletionEvent::Source(Some((u64::MAX, -5))));
    queue.next_completed_request(&mut state, CompletionEvent::Destination(Some((u64::MAX, 0))));
    assert_eq!(
        queue.next_completed_request(&mut state, CompletionEvent::Destination(None)),
        CompletionAction::Return(Some((u64::MAX, -5)))
    );
    assert_eq!(state.phase(), MirrorPhase::Running);
}

#[test]
fn untracked_completions_pass_through() {
    let mut state = MirrorState::new(4096);
    let mut queue = MirroringAsyncIo::create();
    assert_eq!(
        queue.next_completed_request(&mut state, CompletionEvent::Source(Some((5, 100)))),
        CompletionAction::Return(Some((5, 100)))
    );
    assert_eq!(
        queue.next_completed_request(&mut state, CompletionEvent::Destination(Some((6, 0)))),
        CompletionAction::UnexpectedDestination(6)
    );
}

#[test]
fn every_done_request_is_handed_out_once() {
    let mut state = MirrorState::new(4096);
    let mut queue = MirroringAsyncIo::create();
    for id in 0..5 {
        let request = hole(&queue, &mut state, id * 10, id);
        track(&mut queue, &mut state, request);
        let result = id as i32;
        queue.next_completed_request(&mut state, CompletionEvent::Source(Some((id, result))));
        if id != 3 {
            queue.next_completed_request(&mut state, CompletionEvent::Destination(Some((id, 0))));
        }
    }
    let mut seen = vec![];
    loop {
        match queue.next_completed_request(&mut state, CompletionEvent::Destination(None)) {
            CompletionAction::Return(Some(completion)) => seen.push(completion),
            action => {
                assert_eq!(action, CompletionAction::Return(None));
                break;
            }
        }
    }
    seen.sort();
    assert_eq!(seen, vec![(0, 0), (1, 1), (2, 2), (4, 4)]);
    assert!(queue.has_inflight_requests());
    assert!(!is_free(&queue, &mut state, 30));
    assert!(is_free(&queue, &mut state, 40));
}

#[test]
fn a_reused_id_releases_the_range_it_had() {
    let mut state = MirrorState::new(4096);
    let mut queue = MirroringAsyncIo::create();
    let request = hole(&queue, &mut state, 0, 1);
    track(&mut queue, &mut state, request);
    let request = hole(&queue, &mut state, 100, 1);
    track(&mut queue, &mut state, request);
    assert!(is_free(&queue, &mut state, 0));
    assert!(!is_free(&queue, &mut state, 100));
}

#[test]
fn taking_a_queue_down_releases_its_ranges_only() {
    let mut state = MirrorState::new(4096);
    let mut queue = MirroringAsyncIo::create();
    let mut other = MirroringAsyncIo::create();
    for id in 0..4 {
        let request = hole(&queue, &mut state, id * 10, id);
        track(&mut queue, &mut state, request);
    }
    let request = queue.fsync(Some(9));
    track(&mut queue, &mut state, request);
    let request = hole(&other, &mut state, 500, 1);
    track(&mut other, &mut state, request);
    queue.release_all(&mut state);
    assert!(!queue.has_inflight_requests());
    for id in 0..4 {
        assert!(is_free(&queue, &mut state, id * 10));
    }
    assert!(!is_free(&queue, &mut state, 500));
}

#[test]
fn a_batch_goes_out_in_order() {
    let queue = MirroringAsyncIo::create();
    let batch = [RequestType::In, RequestType::Out];
    assert_eq!(
        queue.submit_batch_requests::<()>(&batch, 0, Ok(())),
        BatchAction::Read(0)
    );
    assert_eq!(
        queue.submit_batch_requests::<()>(&batch, 1, Ok(())),
        BatchAction::Write(1)
    );
    assert_eq!(
        queue.submit_batch_requests::<()>(&batch, 2, Ok(())),
        BatchAction::Return(Ok(()))
    );
}

#[test]
fn the_first_error_ends_a_batch() {
    let queue = MirroringAsyncIo::create();
    let batch = [RequestType::Out, RequestType::Out];
    assert_eq!(
        queue.submit_batch_requests(&batch, 1, Err("no")),
        BatchAction::Return(Err("no"))
    );
}

#[test]
fn the_stricter_alignment_wins() {
    assert_eq!(MirroringAsyncIo::alignment(512, 4096), 4096);
    assert_eq!(MirroringAsyncIo::alignment(4096, 512), 4096);
    assert_eq!(MirroringAsyncIo::alignment(512, 512), 512);
}

#[test]
fn fail_records_the_reason() {
    let mut state = MirrorState::new(0);
    let queue = MirroringAsyncIo::create();
    queue.fail(&mut state, String::from("broken"));
    assert_eq!(state.phase(), failed("broken"));
}
