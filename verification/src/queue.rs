//! One queue of a mirror: every request that changes the disk goes to the source
//! and to the destination, and completes for the guest once both are done.

use crate::phase::{MirrorPhase, PhaseView};
use crate::ranges;
use crate::ranges::{IoVec, LockOutcome, RangeError, RangeGuard};
use crate::reasons;
use crate::state::{MirrorState, MirrorStateView};
use std::collections::HashMap;
use vstd::prelude::*;

verus! {

broadcast use vstd::std_specs::hash::group_hash_axioms;

/// What is asked of both disks.
#[derive(Debug, Clone, Copy, PartialEq, Eq, Structural)]
pub enum MirroredOp {
    /// Write the buffers of the request from `file_offset` on.
    WriteVectored { file_offset: i64 },
    /// Make what was written durable.
    Fsync,
    /// Deallocate `[offset, offset + length)`.
    PunchHole { offset: u64, length: u64 },
    /// Fill `[offset, offset + length)` with zeros.
    WriteZeroes { offset: u64, length: u64 },
}

impl MirroredOp {
    /// The name of the operation in messages.
    pub open spec fn label_text(self) -> Seq<char> {
        match self {
            MirroredOp::WriteVectored { .. } => "write_vectored"@,
            MirroredOp::Fsync => "fsync"@,
            MirroredOp::PunchHole { .. } => "punch_hole"@,
            MirroredOp::WriteZeroes { .. } => "write_zeroes"@,
        }
    }

    /// The name of the operation in messages.
    pub fn label(&self) -> (label: &'static str)
        ensures
            label@ == self.label_text(),
    {
        match self {
            MirroredOp::WriteVectored { .. } => "write_vectored",
            MirroredOp::Fsync => "fsync",
            MirroredOp::PunchHole { .. } => "punch_hole",
            MirroredOp::WriteZeroes { .. } => "write_zeroes",
        }
    }
}

/// A request whose range cannot be locked, by the operation that was asked for.
#[derive(Debug, Clone, Copy, PartialEq, Eq, Structural)]
pub enum AsyncIoError {
    WriteVectored(RangeError),
    PunchHole(RangeError),
    WriteZeroes(RangeError),
}

/// A request on its way to the source.
pub struct MirrorRequest {
    op: MirroredOp,
    user_data: Option<u64>,
    guard: Option<RangeGuard>,
}

/// A request that the source has accepted, on its way to the destination.
pub struct AcceptedRequest {
    op: MirroredOp,
    user_data: Option<u64>,
    guard: Option<RangeGuard>,
}

/// A request on its way to one of the disks, as contracts speak of it.
pub struct RequestView {
    pub op: MirroredOp,
    /// `None` where no completion is wanted.
    pub user_data: Option<u64>,
    pub guard: Option<RangeGuard>,
}

impl View for MirrorRequest {
    type V = RequestView;

    closed spec fn view(&self) -> RequestView {
        RequestView { op: self.op, user_data: self.user_data, guard: self.guard }
    }
}

impl View for AcceptedRequest {
    type V = RequestView;

    closed spec fn view(&self) -> RequestView {
        RequestView { op: self.op, user_data: self.user_data, guard: self.guard }
    }
}

impl MirrorRequest {
    /// What to ask of the source.
    pub fn op(&self) -> (op: MirroredOp)
        ensures
            op == self@.op,
    {
        self.op
    }

    /// The id under which the source completes the request.
    pub fn user_data(&self) -> (user_data: Option<u64>)
        ensures
            user_data == self@.user_data,
    {
        self.user_data
    }

    /// Gives the request up and frees its range, where it holds one.
    pub fn abandon(self, state: &mut MirrorState)
        requires
            old(state).wf(),
        ensures
            final(state).wf(),
            final(state)@ == old(state)@.release(self@.guard),
    {
        state.release(self.guard);
    }
}

impl AcceptedRequest {
    /// What to ask of the destination.
    pub fn op(&self) -> (op: MirroredOp)
        ensures
            op == self@.op,
    {
        self.op
    }

    /// The id under which the destination completes the request.
    pub fn user_data(&self) -> (user_data: Option<u64>)
        ensures
            user_data == self@.user_data,
    {
        self.user_data
    }

    /// Gives the request up and frees its range, where it holds one.
    pub fn abandon(self, state: &mut MirrorState)
        requires
            old(state).wf(),
        ensures
            final(state).wf(),
            final(state)@ == old(state)@.release(self@.guard),
    {
        state.release(self.guard);
    }
}

/// State for a single inflight mirrored request awaiting source and
/// destination completions. Only mutating requests are tracked, reads are
/// applied to the source.
pub struct InflightMutatingRequest {
    pub src_completion: Option<i32>,
    pub dest_completion: Option<i32>,
    /// Keeps the copy worker away from the range until both completions arrive.
    pub guard: Option<RangeGuard>,
}

impl InflightMutatingRequest {
    /// A request that neither disk has completed.
    pub fn new(guard: Option<RangeGuard>) -> (request: Self)
        ensures
            request == inflight(guard),
    {
        Self { src_completion: None, dest_completion: None, guard }
    }

    /// Both disks have completed the request.
    pub open spec fn done(self) -> bool {
        self.src_completion is Some && self.dest_completion is Some
    }

    /// Both disks have completed the request.
    pub fn is_done(&self) -> (done: bool)
        ensures
            done == self.done(),
    {
        self.src_completion.is_some() && self.dest_completion.is_some()
    }
}

/// A request that neither disk has completed.
pub open spec fn inflight(guard: Option<RangeGuard>) -> InflightMutatingRequest {
    InflightMutatingRequest { src_completion: None, dest_completion: None, guard }
}

/// The requests of a queue that wait for completions, by their `user_data`.
pub type InflightTable = Map<u64, InflightMutatingRequest>;

/// The guard of the request that is tracked under `id`, where there is one.
pub open spec fn tracked_guard(table: InflightTable, id: u64) -> Option<RangeGuard> {
    if table.contains_key(id) {
        table[id].guard
    } else {
        None
    }
}

/// The table after the source completed `id` with `result`.
pub open spec fn with_source_completion(
    table: InflightTable,
    id: u64,
    result: i32,
) -> InflightTable {
    table.insert(id, InflightMutatingRequest { src_completion: Some(result), ..table[id] })
}

/// The table after the destination completed `id` with `result`.
pub open spec fn with_destination_completion(
    table: InflightTable,
    id: u64,
    result: i32,
) -> InflightTable {
    table.insert(id, InflightMutatingRequest { dest_completion: Some(result), ..table[id] })
}

/// The shared state after the request under `id` completed for the guest: a
/// destination error fails the mirror, and the range is free again.
pub open spec fn after_completion(
    state: MirrorStateView,
    id: u64,
    request: InflightMutatingRequest,
) -> MirrorStateView {
    let state = if request.dest_completion->0 < 0 {
        state.attempt(PhaseView::Failed(reasons::completion_reason_text(id)))
    } else {
        state
    };
    state.release(request.guard)
}

/// What a disk answered when it was asked for its next completion.
#[derive(Debug, Clone, Copy, PartialEq, Eq)]
pub enum CompletionEvent {
    Source(Option<(u64, i32)>),
    Destination(Option<(u64, i32)>),
}

/// What to do next to find the guest's next completion.
#[derive(Debug, Clone, Copy, PartialEq, Eq)]
pub enum CompletionAction {
    /// Ask the source for its next completion.
    PollSource,
    /// Ask the destination for its next completion.
    PollDestination,
    /// The destination completed a request that nobody waits for: note it, then
    /// ask the destination for its next completion.
    UnexpectedDestination(u64),
    /// Hand this to the guest.
    Return(Option<(u64, i32)>),
}

/// What a batched request asks for.
#[derive(Debug, Clone, Copy, PartialEq, Eq, Structural)]
pub enum RequestType {
    /// A read.
    In,
    /// A write.
    Out,
    /// Something that cannot be batched.
    Other,
}

/// What to do next with a batch.
#[derive(Debug, PartialEq, Eq)]
pub enum BatchAction<E> {
    /// Read for the request at this index.
    Read(usize),
    /// Write for the request at this index.
    Write(usize),
    /// The batch ends with this result.
    Return(Result<(), E>),
}

/// The mirroring part of one queue.
pub struct MirroringAsyncIo {
    /// Inflight mirrored requests, keyed by the request's `user_data`.
    inflight_requests: HashMap<u64, InflightMutatingRequest>,
}

impl View for MirroringAsyncIo {
    type V = InflightTable;

    closed spec fn view(&self) -> InflightTable {
        self.inflight_requests@
    }
}

impl MirroringAsyncIo {
    /// A queue with nothing in flight.
    pub fn create() -> (queue: Self)
        ensures
            queue@ == InflightTable::empty(),
    {
        MirroringAsyncIo { inflight_requests: HashMap::new() }
    }

    /// Fail virtqueue worker and go into passthrough: while the phase is
    /// `Failed`, [`Self::mirror_request`] keeps requests from the destination.
    /// While this keeps the VM and source block-dev state valid, the operator
    /// needs to cancel to cleanup resources.
    pub fn fail(&self, state: &mut MirrorState, reason: String)
        requires
            old(state).wf(),
        ensures
            final(state).wf(),
            final(state)@ == old(state)@.attempt(PhaseView::Failed(reason@)),
    {
        state.transition_to_phase(MirrorPhase::Failed(reason));
    }

    /// Takes what the source answered to `request`.
    ///
    /// An error of the source goes to the guest: the range is free again and the
    /// destination is not asked. When the mirror has failed, the request passes
    /// through (`Ok(None)`): the destination is not asked, nothing is tracked,
    /// and the range is free again. Otherwise the same request goes to the
    /// destination, whose answer [`Self::mirror_to_destination`] takes.
    pub fn mirror_request<E>(
        &self,
        state: &mut MirrorState,
        request: MirrorRequest,
        source: Result<(), E>,
    ) -> (result: Result<Option<AcceptedRequest>, E>)
        requires
            old(state).wf(),
        ensures
            final(state).wf(),
            match source {
                Ok(()) => if old(state)@.phase is Failed {
                    &&& result == Ok::<Option<AcceptedRequest>, E>(None)
                    &&& final(state)@ == old(state)@.release(request@.guard)
                } else {
                    &&& result matches Ok(Some(accepted))
                    &&& accepted@ == request@
                    &&& final(state)@ == old(state)@
                },
                Err(error) => {
                    &&& result == Err::<Option<AcceptedRequest>, E>(error)
                    &&& final(state)@ == old(state)@.release(request@.guard)
                },
            },
            result is Err <==> source is Err,
            result matches Ok(accepted) ==> (accepted is None <==> old(state)@.phase is Failed),
            final(state)@.phase == old(state)@.phase,
    {
        match source {
            Ok(()) => match state.phase() {
                MirrorPhase::Failed(_) => {
                    state.release(request.guard);
                    Ok(None)
                },
                _ => Ok(
                    Some(
                        AcceptedRequest {
                            op: request.op,
                            user_data: request.user_data,
                            guard: request.guard,
                        },
                    ),
                ),
            },
            Err(error) => {
                state.release(request.guard);
                Err(error)
            },
        }
    }

    /// Takes what the destination answered to `request`; an error comes as its
    /// debug output.
    ///
    /// An error fails the mirror and is hidden from the guest, since the source
    /// is the disk the guest sees: the request is not tracked, so that its
    /// completion by the source passes through to the guest, and its range is
    /// free again. Otherwise the request is tracked until both disks complete
    /// it, unless no completion is wanted.
    pub fn mirror_to_destination(
        &mut self,
        state: &mut MirrorState,
        request: AcceptedRequest,
        destination: Result<(), String>,
    )
        requires
            old(state).wf(),
        ensures
            final(state).wf(),
            match destination {
                Err(error) => {
                    &&& final(self)@ == old(self)@
                    &&& final(state)@ == old(state)@.attempt(
                        PhaseView::Failed(
                            reasons::submit_reason_text(
                                request@.op.label_text(),
                                request@.user_data,
                                error@,
                            ),
                        ),
                    ).release(request@.guard)
                },
                Ok(()) => match request@.user_data {
                    Some(id) => {
                        &&& final(self)@ == old(self)@.insert(id, inflight(request@.guard))
                        &&& final(state)@ == old(state)@.release(tracked_guard(old(self)@, id))
                    },
                    None => {
                        &&& final(self)@ == old(self)@
                        &&& final(state)@ == old(state)@.release(request@.guard)
                    },
                },
            },
            destination is Err ==> !(final(state)@.phase is Running) && !(
            final(state)@.phase is Ready),
            destination is Ok ==> final(state)@.phase == old(state)@.phase,
            destination is Ok && request@.user_data is Some ==> {
                let id = request@.user_data->0;
                &&& final(self)@.contains_key(id)
                &&& !final(self)@[id].done()
                &&& final(self)@[id].guard == request@.guard
            },
    {
        if let Err(error) = destination {
            let reason = reasons::submit_reason(
                request.op.label(),
                request.user_data,
                error.as_str(),
            );
            self.fail(state, reason);
            state.release(request.guard);
            return;
        }
        match request.user_data {
            Some(id) => {
                let replaced = self.inflight_requests.insert(
                    id,
                    InflightMutatingRequest::new(request.guard),
                );
                if let Some(replaced) = replaced {
                    state.release(replaced.guard);
                }
            },
            None => state.release(request.guard),
        }
    }

    /// Begins a write of `iovecs` from `offset` on. `Ok(None)` means that its
    /// range is held: the caller waits for a release and asks again.
    pub fn write_vectored(
        &self,
        state: &mut MirrorState,
        offset: i64,
        iovecs: &[IoVec],
        user_data: u64,
    ) -> (result: Result<Option<MirrorRequest>, AsyncIoError>)
        requires
            old(state).wf(),
        ensures
            final(state).wf(),
            request_answered(
                ranges::lock_iovecs_outcome(old(state)@.held, offset, iovecs@),
                |error: RangeError| AsyncIoError::WriteVectored(error),
                MirroredOp::WriteVectored { file_offset: offset },
                user_data,
                ranges::unsigned_offset(offset) as u64,
                ranges::total_len(iovecs@) as u64,
                old(state)@,
                final(state)@,
                result,
            ),
    {
        match state.lock_iovecs(offset, iovecs) {
            Ok(Some(guard)) => Ok(
                Some(
                    MirrorRequest {
                        op: MirroredOp::WriteVectored { file_offset: offset },
                        user_data: Some(user_data),
                        guard: Some(guard),
                    },
                ),
            ),
            Ok(None) => Ok(None),
            Err(error) => Err(AsyncIoError::WriteVectored(error)),
        }
    }

    /// Begins an fsync. It holds no range: `fsync()` is not ranged. Without
    /// `user_data` no completion is wanted.
    pub fn fsync(&self, user_data: Option<u64>) -> (request: MirrorRequest)
        ensures
            request@ == (RequestView { op: MirroredOp::Fsync, user_data, guard: None }),
    {
        MirrorRequest { op: MirroredOp::Fsync, user_data, guard: None }
    }

    /// Begins the deallocation of `[offset, offset + length)`. `Ok(None)` means
    /// that the range is held: the caller waits for a release and asks again.
    pub fn punch_hole(
        &self,
        state: &mut MirrorState,
        offset: u64,
        length: u64,
        user_data: u64,
    ) -> (result: Result<Option<MirrorRequest>, AsyncIoError>)
        requires
            old(state).wf(),
        ensures
            final(state).wf(),
            request_answered(
                ranges::lock_outcome(old(state)@.held, offset, length),
                |error: RangeError| AsyncIoError::PunchHole(error),
                MirroredOp::PunchHole { offset, length },
                user_data,
                offset,
                length,
                old(state)@,
                final(state)@,
                result,
            ),
    {
        match state.lock_range(offset, length) {
            Ok(Some(guard)) => Ok(
                Some(
                    MirrorRequest {
                        op: MirroredOp::PunchHole { offset, length },
                        user_data: Some(user_data),
                        guard: Some(guard),
                    },
                ),
            ),
            Ok(None) => Ok(None),
            Err(error) => Err(AsyncIoError::PunchHole(error)),
        }
    }

    /// Begins to fill `[offset, offset + length)` with zeros. `Ok(None)` means
    /// that the range is held: the caller waits for a release and asks again.
    pub fn write_zeroes(
        &self,
        state: &mut MirrorState,
        offset: u64,
        length: u64,
        user_data: u64,
    ) -> (result: Result<Option<MirrorRequest>, AsyncIoError>)
        requires
            old(state).wf(),
        ensures
            final(state).wf(),
            request_answered(
                ranges::lock_outcome(old(state)@.held, offset, length),
                |error: RangeError| AsyncIoError::WriteZeroes(error),
                MirroredOp::WriteZeroes { offset, length },
                user_data,
                offset,
                length,
                old(state)@,
                final(state)@,
                result,
            ),
    {
        match state.lock_range(offset, length) {
            Ok(Some(guard)) => Ok(
                Some(
                    MirrorRequest {
                        op: MirroredOp::WriteZeroes { offset, length },
                        user_data: Some(user_data),
                        guard: Some(guard),
                    },
                ),
            ),
            Ok(None) => Ok(None),
            Err(error) => Err(AsyncIoError::WriteZeroes(error)),
        }
    }

    /// Some request that both disks have completed, if there is one.
    fn find_done(&self) -> (found: Option<u64>)
        ensures
            match found {
                Some(id) => self@.contains_key(id) && self@[id].done(),
                None => forall|id: u64| #[trigger] self@.contains_key(id) ==> !self@[id].done(),
            },
    {
        for (id, request) in entries: self.inflight_requests.iter()
            invariant
                forall|i: int|
                    0 <= i < entries.index() ==> !(#[trigger] entries.seq()[i]).1.done(),
        {
            if request.is_done() {
                return Some(*id);
            }
        }
        None
    }

    /// Takes one answer of a disk and says what to do next, until the guest's
    /// next completion is found.
    ///
    /// Begin by asking the source. Completions of the source that belong to no
    /// tracked request go to the guest at once: they are reads, or writes that
    /// are not mirrored. When both disks have no more to report, a request that
    /// both have completed goes to the guest with the result of the source; it
    /// is open which one, where there are several. An error of the destination
    /// then fails the mirror, and the request's range is free again.
    pub fn next_completed_request(
        &mut self,
        state: &mut MirrorState,
        event: CompletionEvent,
    ) -> (action: CompletionAction)
        requires
            old(state).wf(),
        ensures
            final(state).wf(),
            !(event matches CompletionEvent::Destination(None)) ==> final(self)@ == recorded(
                old(self)@,
                event,
            ),
            match event {
                CompletionEvent::Source(Some((id, result))) => {
                    &&& final(state)@ == old(state)@
                    &&& if old(self)@.contains_key(id) {
                        &&& action == CompletionAction::PollSource
                        &&& final(self)@ == with_source_completion(old(self)@, id, result)
                    } else {
                        &&& action == CompletionAction::Return(Some((id, result)))
                        &&& final(self)@ == old(self)@
                    }
                },
                CompletionEvent::Source(None) => {
                    &&& action == CompletionAction::PollDestination
                    &&& final(self)@ == old(self)@
                    &&& final(state)@ == old(state)@
                },
                CompletionEvent::Destination(Some((id, result))) => {
                    &&& final(state)@ == old(state)@
                    &&& if old(self)@.contains_key(id) {
                        &&& action == CompletionAction::PollDestination
                        &&& final(self)@ == with_destination_completion(old(self)@, id, result)
                    } else {
                        &&& action == CompletionAction::UnexpectedDestination(id)
                        &&& final(self)@ == old(self)@
                    }
                },
                CompletionEvent::Destination(None) => match action {
                    CompletionAction::Return(Some((id, result))) => {
                        &&& old(self)@.contains_key(id)
                        &&& old(self)@[id].done()
                        &&& old(self)@[id].src_completion == Some(result)
                        &&& final(self)@ == old(self)@.remove(id)
                        &&& final(state)@ == after_completion(old(state)@, id, old(self)@[id])
                    },
                    CompletionAction::Return(None) => {
                        &&& forall|id: u64| #[trigger]
                            old(self)@.contains_key(id) ==> !old(self)@[id].done()
                        &&& final(self)@ == old(self)@
                        &&& final(state)@ == old(state)@
                    },
                    _ => false,
                },
            },
            action matches CompletionAction::Return(Some((id, result))) ==> event
                == CompletionEvent::Source(Some((id, result))) || (old(self)@.contains_key(id)
                && old(self)@[id].src_completion == Some(result)),
    {
        match event {
            CompletionEvent::Source(Some((id, result))) => {
                match self.inflight_requests.remove(&id) {
                    Some(mut request) => {
                        request.src_completion = Some(result);
                        self.inflight_requests.insert(id, request);
                        proof {
                            assert(self@ == with_source_completion(old(self)@, id, result));
                        }
                        CompletionAction::PollSource
                    },
                    None => {
                        assert(self@ == old(self)@);
                        CompletionAction::Return(Some((id, result)))
                    },
                }
            },
            CompletionEvent::Source(None) => CompletionAction::PollDestination,
            CompletionEvent::Destination(Some((id, result))) => {
                match self.inflight_requests.remove(&id) {
                    Some(mut request) => {
                        request.dest_completion = Some(result);
                        self.inflight_requests.insert(id, request);
                        proof {
                            assert(self@ == with_destination_completion(old(self)@, id, result));
                        }
                        CompletionAction::PollDestination
                    },
                    None => {
                        assert(self@ == old(self)@);
                        CompletionAction::UnexpectedDestination(id)
                    },
                }
            },
            CompletionEvent::Destination(None) => {
                let id = match self.find_done() {
                    Some(id) => id,
                    None => return CompletionAction::Return(None),
                };
                let request = self.inflight_requests.remove(&id).unwrap();
                if request.dest_completion.unwrap() < 0 {
                    self.fail(state, reasons::completion_reason(id));
                }
                state.release(request.guard);
                CompletionAction::Return(Some((id, request.src_completion.unwrap())))
            },
        }
    }

    /// Releases the ranges of every tracked request and forgets the requests.
    /// For a queue that is taken down.
    pub fn release_all(&mut self, state: &mut MirrorState)
        requires
            old(state).wf(),
        ensures
            final(state).wf(),
            final(self)@ == InflightTable::empty(),
            final(state)@ == (MirrorStateView {
                held: old(state)@.held.remove_keys(guarded_starts(old(self)@)),
                ..old(state)@
            }),
    {
        loop
            invariant
                state.wf(),
                self@.dom().finite(),
                state@ == (MirrorStateView { held: state@.held, ..old(state)@ }),
                state@.held.remove_keys(guarded_starts(self@)) == old(state)@.held.remove_keys(
                    guarded_starts(old(self)@),
                ),
            decreases self@.len(),
        {
            let id = match self.any_tracked() {
                Some(id) => id,
                None => {
                    proof {
                        assert(self@ =~= InflightTable::empty());
                        assert(state@.held.remove_keys(guarded_starts(self@)) =~= state@.held);
                    }
                    return ;
                },
            };
            let ghost table = self@;
            let ghost held = state@.held;
            let request = self.inflight_requests.remove(&id).unwrap();
            state.release(request.guard);
            proof {
                assert(self@ == table.remove(id));
                lemma_release_one(held, table, id);
            }
        }
    }

    /// The id of some tracked request, if there is one.
    fn any_tracked(&self) -> (found: Option<u64>)
        ensures
            match found {
                Some(id) => self@.contains_key(id),
                None => self@ == InflightTable::empty(),
            },
    {
        for id in ids: self.inflight_requests.keys()
            invariant
                ids.index() == 0,
        {
            return Some(*id);
        }
        None
    }

    /// Decides about the next request of a batch: `next` requests were
    /// submitted, and `previous` is what the last of them came to, `Ok` where
    /// there was none. Requests go out in order, and the first error ends the
    /// batch.
    pub fn submit_batch_requests<E>(
        &self,
        batch: &[RequestType],
        next: usize,
        previous: Result<(), E>,
    ) -> (action: BatchAction<E>)
        requires
            previous is Ok && next < batch@.len() ==> batch@[next as int] != RequestType::Other,
        ensures
            match previous {
                Err(error) => action == BatchAction::Return(Err::<(), E>(error)),
                Ok(()) => if next >= batch@.len() {
                    action == BatchAction::Return(Ok::<(), E>(()))
                } else if batch@[next as int] == RequestType::In {
                    action == BatchAction::<E>::Read(next)
                } else {
                    action == BatchAction::<E>::Write(next)
                },
            },
    {
        if let Err(error) = previous {
            return BatchAction::Return(Err(error));
        }
        if next >= batch.len() {
            return BatchAction::Return(Ok(()));
        }
        match batch[next] {
            RequestType::In => BatchAction::Read(next),
            _ => BatchAction::Write(next),
        }
    }

    /// Batches of requests are taken.
    pub fn batch_requests_enabled(&self) -> (enabled: bool)
        ensures
            enabled,
    {
        true
    }

    /// The stricter of the two disks' alignments: the same buffers go to both.
    pub fn alignment(source: u64, destination: u64) -> (alignment: u64)
        ensures
            alignment == (if source >= destination {
                source
            } else {
                destination
            }),
            alignment == source || alignment == destination,
            alignment >= source,
            alignment >= destination,
    {
        if source >= destination {
            source
        } else {
            destination
        }
    }

    /// Whether a mirrored request still waits for a completion.
    pub fn has_inflight_requests(&self) -> (waiting: bool)
        ensures
            waiting == (self@ != InflightTable::empty()),
    {
        let waiting = !self.inflight_requests.is_empty();
        proof {
            if !waiting {
                assert(self@ =~= InflightTable::empty());
            }
        }
        waiting
    }
}

/// Where the ranges begin that the tracked requests hold.
pub open spec fn guarded_starts(table: InflightTable) -> Set<u64> {
    Set::new(
        |start: u64|
            exists|id: u64| #[trigger]
                table.contains_key(id) && table[id].guard is Some && table[id].guard->0@ == start,
    )
}

/// Releasing the range of one request first changes nothing about what is left
/// when all are released.
proof fn lemma_release_one(held: Map<u64, u64>, table: InflightTable, id: u64)
    requires
        table.contains_key(id),
    ensures
        match table[id].guard {
            Some(guard) => held.remove(guard@),
            None => held,
        }.remove_keys(guarded_starts(table.remove(id))) == held.remove_keys(guarded_starts(table)),
{
    let rest = table.remove(id);
    assert forall|start: u64| guarded_starts(table).contains(start) implies guarded_starts(
        rest,
    ).contains(start) || (table[id].guard is Some && table[id].guard->0@ == start) by {
        let other = choose|other: u64| #[trigger]
            table.contains_key(other) && table[other].guard is Some && table[other].guard->0@
                == start;
        if other != id {
            assert(rest.contains_key(other));
        }
    }
    assert forall|start: u64| guarded_starts(rest).contains(start) implies guarded_starts(
        table,
    ).contains(start) by {
        let other = choose|other: u64| #[trigger]
            rest.contains_key(other) && rest[other].guard is Some && rest[other].guard->0@ == start;
        assert(table.contains_key(other));
    }
    let after = match table[id].guard {
        Some(guard) => held.remove(guard@),
        None => held,
    };
    assert(after.remove_keys(guarded_starts(rest)) =~= held.remove_keys(guarded_starts(table)));
}

/// How a request to do `op` on `[start, start + length)` is answered: the result
/// and the shared state before and after it agree with `outcome`. A refusal is
/// reported as `as_error` of its cause.
pub open spec fn request_answered(
    outcome: LockOutcome,
    as_error: spec_fn(RangeError) -> AsyncIoError,
    op: MirroredOp,
    user_data: u64,
    start: u64,
    length: u64,
    before: MirrorStateView,
    after: MirrorStateView,
    result: Result<Option<MirrorRequest>, AsyncIoError>,
) -> bool {
    match outcome {
        LockOutcome::Refused(error) => {
            &&& result == Err::<Option<MirrorRequest>, AsyncIoError>(as_error(error))
            &&& after == before
        },
        LockOutcome::Wait => {
            &&& result == Ok::<Option<MirrorRequest>, AsyncIoError>(None)
            &&& after == before
        },
        LockOutcome::Granted => {
            &&& after == before.lock(start, length)
            &&& result matches Ok(Some(request))
            &&& request@.op == op
            &&& request@.user_data == Some(user_data)
            &&& request@.guard matches Some(guard)
            &&& guard@ == start
        },
    }
}

/// The table after a disk gave this answer.
pub open spec fn recorded(table: InflightTable, event: CompletionEvent) -> InflightTable {
    match event {
        CompletionEvent::Source(Some((id, result))) if table.contains_key(id) =>
            with_source_completion(table, id, result),
        CompletionEvent::Destination(Some((id, result))) if table.contains_key(id) =>
            with_destination_completion(table, id, result),
        _ => table,
    }
}

/// The table after the disks gave these answers.
pub open spec fn recorded_all(table: InflightTable, events: Seq<CompletionEvent>) -> InflightTable
    decreases events.len(),
{
    if events.len() == 0 {
        table
    } else {
        recorded(recorded_all(table, events.drop_last()), events.last())
    }
}

/// The source completed `id` in one of these answers.
pub open spec fn source_completed(events: Seq<CompletionEvent>, id: u64) -> bool {
    exists|i: int|
        0 <= i < events.len() && (#[trigger] events[i] matches CompletionEvent::Source(
            Some((completed, _)),
        ) && completed == id)
}

/// The destination completed `id` in one of these answers.
pub open spec fn destination_completed(events: Seq<CompletionEvent>, id: u64) -> bool {
    exists|i: int|
        0 <= i < events.len() && (#[trigger] events[i] matches CompletionEvent::Destination(
            Some((completed, _)),
        ) && completed == id)
}

/// A request is tracked, with its range, until both disks complete it: after any
/// answers it is still in the table, and it is done exactly when the source and
/// the destination have both completed it.
pub proof fn lemma_tracked_until_both_complete(
    table: InflightTable,
    id: u64,
    guard: Option<RangeGuard>,
    events: Seq<CompletionEvent>,
)
    requires
        table.contains_key(id),
        table[id] == inflight(guard),
    ensures
        recorded_all(table, events).contains_key(id),
        recorded_all(table, events)[id].guard == guard,
        recorded_all(table, events)[id].src_completion is Some <==> source_completed(events, id),
        recorded_all(table, events)[id].dest_completion is Some <==> destination_completed(
            events,
            id,
        ),
        recorded_all(table, events)[id].done() <==> source_completed(events, id)
            && destination_completed(events, id),
    decreases events.len(),
{
    if events.len() > 0 {
        let before = events.drop_last();
        let last = events.len() - 1;
        lemma_tracked_until_both_complete(table, id, guard, before);
        assert(forall|i: int| #![trigger events[i]] 0 <= i < last ==> before[i] == events[i]);
        assert(events.last() == events[last]);
        if source_completed(before, id) {
            let i = choose|i: int|
                0 <= i < before.len() && (#[trigger] before[i] matches CompletionEvent::Source(
                    Some((completed, _)),
                ) && completed == id);
            assert(events[i] == before[i]);
        }
        if destination_completed(before, id) {
            let i = choose|i: int|
                0 <= i < before.len() && (#[trigger] before[i] matches CompletionEvent::Destination(
                    Some((completed, _)),
                ) && completed == id);
            assert(events[i] == before[i]);
        }
    }
}

/// Every tracked request that has a range holds it, and no two share one.
pub open spec fn guards_are_held(table: InflightTable, held: Map<u64, u64>) -> bool {
    &&& forall|id: u64| #[trigger]
        table.contains_key(id) && table[id].guard is Some ==> held.contains_key(
            table[id].guard->0@,
        )
    &&& forall|a: u64, b: u64| #[trigger]
        table.contains_key(a) && #[trigger] table.contains_key(b) && a != b
            && table[a].guard is Some && table[b].guard is Some ==> table[a].guard->0@
            != table[b].guard->0@
}

/// Tracking a request keeps the tracked ranges held, when the request comes with
/// a held range that no tracked request has, and the range of a request that it
/// replaces is released.
pub proof fn lemma_tracking_keeps_guards_held(
    table: InflightTable,
    state: MirrorStateView,
    id: u64,
    guard: Option<RangeGuard>,
)
    requires
        guards_are_held(table, state.held),
        guard is Some ==> state.held.contains_key(guard->0@) && !guarded_starts(table).contains(
            guard->0@,
        ),
    ensures
        guards_are_held(
            table.insert(id, inflight(guard)),
            state.release(tracked_guard(table, id)).held,
        ),
{
    let after = table.insert(id, inflight(guard));
    assert forall|other: u64| other != id && #[trigger] after.contains_key(other)
        && after[other].guard is Some implies guard is None || after[other].guard->0@
        != guard->0@ by {
        assert(table.contains_key(other));
        assert(guarded_starts(table).contains(table[other].guard->0@));
    }
    assert forall|other: u64| #[trigger] after.contains_key(other)
        && after[other].guard is Some implies state.release(
        tracked_guard(table, id),
    ).held.contains_key(after[other].guard->0@) by {
        if other != id {
            assert(table.contains_key(other));
        } else if tracked_guard(table, id) is Some {
            assert(guarded_starts(table).contains(table[id].guard->0@));
        }
    }
}

/// Recording the answers of the disks keeps the tracked ranges held.
pub proof fn lemma_recording_keeps_guards_held(
    table: InflightTable,
    held: Map<u64, u64>,
    event: CompletionEvent,
)
    requires
        guards_are_held(table, held),
    ensures
        guards_are_held(recorded(table, event), held),
{
    let after = recorded(table, event);
    assert forall|id: u64| #[trigger] after.contains_key(id) implies table.contains_key(id)
        && after[id].guard == table[id].guard by {}
}

/// Handing a completed request to the guest releases its range only: the ranges
/// of all other tracked requests stay held.
pub proof fn lemma_completion_keeps_guards_held(
    table: InflightTable,
    state: MirrorStateView,
    id: u64,
)
    requires
        guards_are_held(table, state.held),
        table.contains_key(id),
    ensures
        guards_are_held(table.remove(id), after_completion(state, id, table[id]).held),
{
    let after = table.remove(id);
    assert forall|other: u64| #[trigger] after.contains_key(other) implies table.contains_key(other)
        && other != id && after[other] == table[other] by {}
}

/// What others lock, or release of their own, leaves the tracked ranges held.
pub proof fn lemma_others_keep_guards_held(
    table: InflightTable,
    held: Map<u64, u64>,
    start: u64,
    end: u64,
)
    requires
        guards_are_held(table, held),
        !guarded_starts(table).contains(start),
    ensures
        guards_are_held(table, held.insert(start, end)),
        guards_are_held(table, held.remove(start)),
{
    assert forall|id: u64| #[trigger] table.contains_key(id)
        && table[id].guard is Some implies table[id].guard->0@ != start by {
        assert(guarded_starts(table).contains(table[id].guard->0@));
    }
}

/// While a mirrored request is tracked, nobody gets a range that shares a byte
/// with its own: neither the copy worker nor another request.
pub proof fn lemma_tracked_range_is_exclusive(
    table: InflightTable,
    held: Map<u64, u64>,
    id: u64,
    offset: u64,
    length: u64,
)
    requires
        guards_are_held(table, held),
        table.contains_key(id),
        table[id].guard is Some,
        length > 0,
        offset + length <= u64::MAX,
        table[id].guard->0@ < offset + length,
        offset < held[table[id].guard->0@],
    ensures
        ranges::lock_outcome(held, offset, length) is Wait,
{
    assert(held.contains_key(table[id].guard->0@));
}

/// The guest sees the source's result: a completion of the destination never
/// changes what the source completed.
pub proof fn lemma_destination_never_changes_the_result(
    table: InflightTable,
    id: u64,
    result: i32,
    other: u64,
)
    requires
        table.contains_key(id),
    ensures
        with_destination_completion(table, id, result)[other].src_completion
            == table[other].src_completion,
{
}

/// Taking a queue down leaves none of its ranges held and every other range as
/// it was.
pub proof fn lemma_release_all_frees_exactly_the_tracked_ranges(
    table: InflightTable,
    held: Map<u64, u64>,
    start: u64,
)
    ensures
        held.remove_keys(guarded_starts(table)).contains_key(start) <==> held.contains_key(start)
            && !guarded_starts(table).contains(start),
        held.remove_keys(guarded_starts(table)).contains_key(start) ==> held.remove_keys(
            guarded_starts(table),
        )[start] == held[start],
{
}

/// Operations of different kinds have different names, whatever they are applied
/// to.
pub proof fn lemma_labels_name_the_operation(op: MirroredOp)
    ensures
        op is WriteVectored <==> op.label_text() == "write_vectored"@,
        op is Fsync <==> op.label_text() == "fsync"@,
        op is PunchHole <==> op.label_text() == "punch_hole"@,
        op is WriteZeroes <==> op.label_text() == "write_zeroes"@,
{
    reveal_strlit("write_vectored");
    reveal_strlit("fsync");
    reveal_strlit("punch_hole");
    reveal_strlit("write_zeroes");
    assert("write_vectored"@.len() == 14);
    assert("fsync"@.len() == 5);
    assert("punch_hole"@.len() == 10);
    assert("write_zeroes"@.len() == 12);
}

/// A request begins with no completion and the range it came with, and it is
/// done once it has a completion of each disk.
pub proof fn lemma_new_request_waits_for_both(
    guard: Option<RangeGuard>,
    request: InflightMutatingRequest,
)
    ensures
        inflight(guard).src_completion is None,
        inflight(guard).dest_completion is None,
        inflight(guard).guard == guard,
        request.done() <==> !(request.src_completion is None) && !(request.dest_completion is None),
{
}

/// A disk's answer for a tracked request is stored with that request, as the
/// disk gave it. What the other disk answered, the range, and all other requests
/// stay as they were.
pub proof fn lemma_answer_is_stored_as_given(
    table: InflightTable,
    id: u64,
    result: i32,
    other: u64,
)
    requires
        table.contains_key(id),
    ensures
        ({
            let after = with_source_completion(table, id, result);
            &&& after[id].src_completion == Some(result)
            &&& after[id].dest_completion == table[id].dest_completion
            &&& after[id].guard == table[id].guard
            &&& after.contains_key(other) <==> table.contains_key(other)
            &&& other != id && table.contains_key(other) ==> after[other] == table[other]
        }),
        ({
            let after = with_destination_completion(table, id, result);
            &&& after[id].dest_completion == Some(result)
            &&& after[id].src_completion == table[id].src_completion
            &&& after[id].guard == table[id].guard
            &&& after.contains_key(other) <==> table.contains_key(other)
            &&& other != id && table.contains_key(other) ==> after[other] == table[other]
        }),
{
}

/// Answers for requests that are not tracked, and answers without a completion,
/// leave the table as it is.
pub proof fn lemma_other_answers_change_nothing(table: InflightTable, id: u64, result: i32)
    requires
        !table.contains_key(id),
    ensures
        recorded(table, CompletionEvent::Source(Some((id, result)))) == table,
        recorded(table, CompletionEvent::Destination(Some((id, result)))) == table,
        recorded(table, CompletionEvent::Source(None)) == table,
        recorded(table, CompletionEvent::Destination(None)) == table,
{
}

/// Answers are recorded one after the other: those of one list and then those of
/// another come to the same as those of both.
pub proof fn lemma_answers_follow_one_another(
    table: InflightTable,
    first: Seq<CompletionEvent>,
    later: Seq<CompletionEvent>,
    event: CompletionEvent,
)
    ensures
        recorded_all(table, Seq::empty()) == table,
        recorded_all(table, seq![event]) == recorded(table, event),
        recorded_all(table, first + later) == recorded_all(recorded_all(table, first), later),
    decreases later.len(),
{
    assert(seq![event].drop_last() =~= Seq::<CompletionEvent>::empty());
    assert(recorded_all(table, Seq::empty()) == table);
    if later.len() == 0 {
        assert(first + later =~= first);
    } else {
        lemma_answers_follow_one_another(table, first, later.drop_last(), event);
        assert((first + later).drop_last() =~= first + later.drop_last());
        assert((first + later).last() == later.last());
    }
}

/// A tracked request carries what the source answered for it last, unchanged.
pub proof fn lemma_last_answer_of_the_source_counts(
    table: InflightTable,
    id: u64,
    events: Seq<CompletionEvent>,
    i: int,
    result: i32,
)
    requires
        table.contains_key(id),
        0 <= i < events.len(),
        events[i] == CompletionEvent::Source(Some((id, result))),
        forall|j: int|
            i < j < events.len() ==> !(#[trigger] events[j] matches CompletionEvent::Source(
                Some((completed, _)),
            ) && completed == id),
    ensures
        recorded_all(table, events).contains_key(id),
        recorded_all(table, events)[id].src_completion == Some(result),
    decreases events.len(),
{
    let before = events.drop_last();
    let last = events.len() - 1;
    lemma_tracked_requests_stay(table, id, before);
    assert(events.last() == events[last]);
    if i < last {
        assert forall|j: int| i < j < before.len() implies !(
        #[trigger] before[j] matches CompletionEvent::Source(Some((completed, _))) && completed
            == id) by {
            assert(before[j] == events[j]);
        }
        lemma_last_answer_of_the_source_counts(table, id, before, i, result);
    }
}

/// A tracked request carries what the destination answered for it last,
/// unchanged.
pub proof fn lemma_last_answer_of_the_destination_counts(
    table: InflightTable,
    id: u64,
    events: Seq<CompletionEvent>,
    i: int,
    result: i32,
)
    requires
        table.contains_key(id),
        0 <= i < events.len(),
        events[i] == CompletionEvent::Destination(Some((id, result))),
        forall|j: int|
            i < j < events.len() ==> !(#[trigger] events[j] matches CompletionEvent::Destination(
                Some((completed, _)),
            ) && completed == id),
    ensures
        recorded_all(table, events).contains_key(id),
        recorded_all(table, events)[id].dest_completion == Some(result),
    decreases events.len(),
{
    let before = events.drop_last();
    let last = events.len() - 1;
    lemma_tracked_requests_stay(table, id, before);
    assert(events.last() == events[last]);
    if i < last {
        assert forall|j: int| i < j < before.len() implies !(
        #[trigger] before[j] matches CompletionEvent::Destination(Some((completed, _)))
            && completed == id) by {
            assert(before[j] == events[j]);
        }
        lemma_last_answer_of_the_destination_counts(table, id, before, i, result);
    }
}

/// No answer adds a request to the table or takes one out.
pub proof fn lemma_tracked_requests_stay(
    table: InflightTable,
    id: u64,
    events: Seq<CompletionEvent>,
)
    ensures
        recorded_all(table, events).contains_key(id) <==> table.contains_key(id),
        table.contains_key(id) ==> recorded_all(table, events)[id].guard == table[id].guard,
    decreases events.len(),
{
    if events.len() > 0 {
        lemma_tracked_requests_stay(table, id, events.drop_last());
    }
}

/// What the guest and the mirror are told was reported: a result that a request
/// carries came from the disk itself, under the id of the request. The guest's
/// completion is such a pair of the source, and the verdict on the mirror is
/// such a pair of the destination.
pub proof fn lemma_results_were_reported(
    table: InflightTable,
    id: u64,
    events: Seq<CompletionEvent>,
    result: i32,
)
    requires
        table.contains_key(id),
        table[id].src_completion is None,
        table[id].dest_completion is None,
    ensures
        recorded_all(table, events)[id].src_completion == Some(result) ==> exists|i: int|
            0 <= i < events.len() && #[trigger] events[i] == CompletionEvent::Source(
                Some((id, result)),
            ),
        recorded_all(table, events)[id].dest_completion == Some(result) ==> exists|i: int|
            0 <= i < events.len() && #[trigger] events[i] == CompletionEvent::Destination(
                Some((id, result)),
            ),
    decreases events.len(),
{
    if events.len() > 0 {
        let before = events.drop_last();
        let last = events.len() - 1;
        lemma_results_were_reported(table, id, before, result);
        lemma_tracked_requests_stay(table, id, before);
        assert(events.last() == events[last]);
        if recorded_all(table, before)[id].src_completion == Some(result) {
            let i = choose|i: int|
                0 <= i < before.len() && #[trigger] before[i] == CompletionEvent::Source(
                    Some((id, result)),
                );
            assert(events[i] == before[i]);
        }
        if recorded_all(table, before)[id].dest_completion == Some(result) {
            let i = choose|i: int|
                0 <= i < before.len() && #[trigger] before[i] == CompletionEvent::Destination(
                    Some((id, result)),
                );
            assert(events[i] == before[i]);
        }
    }
}

/// What a completion does to the shared state. The mirror fails exactly when the
/// destination answered with a negative number while the mirror was running or
/// ready, and then the reason names the request; a failure that comes too late is
/// noted for the log. The range of the request is free, every other range is held
/// as before, and no counter moves.
pub proof fn lemma_completion_by_the_destinations_answer(
    state: MirrorStateView,
    id: u64,
    request: InflightMutatingRequest,
    answer: i32,
    k: u64,
)
    requires
        request.dest_completion == Some(answer),
    ensures
        ({
            let after = after_completion(state, id, request);
            &&& answer <= -1 && (state.phase is Running || state.phase is Ready) ==> after.phase
                == PhaseView::Failed(reasons::completion_reason_text(id))
            &&& answer >= 0 || !(state.phase is Running || state.phase is Ready) ==> after.phase
                == state.phase
            &&& answer >= 0 || state.phase is Running || state.phase is Ready || state.phase is Failed
                ==> after.rejected == state.rejected
            &&& answer <= -1 && !(state.phase is Running || state.phase is Ready
                || state.phase is Failed) ==> after.rejected == state.rejected + seq![
                (state.phase, PhaseView::Failed(reasons::completion_reason_text(id))),
            ]
            &&& after.held.contains_key(k) <==> state.held.contains_key(k) && !(
            request.guard matches Some(guard) && guard@ == k)
            &&& after.held.contains_key(k) ==> after.held[k] == state.held[k]
            &&& after.copied_bytes == state.copied_bytes
            &&& after.total_bytes == state.total_bytes
        }),
{
}

/// The range that a tracked request stands for is that of the request under the
/// same id, and an id that is not tracked has none.
pub proof fn lemma_tracked_guard_is_of_its_request(table: InflightTable, id: u64)
    ensures
        !table.contains_key(id) ==> tracked_guard(table, id) is None,
        table.contains_key(id) ==> tracked_guard(table, id) == table[id].guard,
{
}

/// The ranges of a table are those of its requests: none for an empty table, and
/// one more request adds its own range and no other.
pub proof fn lemma_guarded_starts_add_up(
    table: InflightTable,
    id: u64,
    request: InflightMutatingRequest,
    start: u64,
)
    requires
        !table.contains_key(id),
    ensures
        !guarded_starts(InflightTable::empty()).contains(start),
        guarded_starts(table.insert(id, request)).contains(start) <==> guarded_starts(
            table,
        ).contains(start) || (request.guard matches Some(guard) && guard@ == start),
{
    let after = table.insert(id, request);
    if guarded_starts(table).contains(start) {
        let other = choose|other: u64| #[trigger]
            table.contains_key(other) && table[other].guard is Some && table[other].guard->0@
                == start;
        assert(after.contains_key(other) && after[other] == table[other]);
    }
    assert(after.contains_key(id) && after[id] == request);
    if guarded_starts(after).contains(start) {
        let other = choose|other: u64| #[trigger]
            after.contains_key(other) && after[other].guard is Some && after[other].guard->0@
                == start;
        if other != id {
            assert(table.contains_key(other));
        }
    }
}

/// What an answer to a ranged request says. Nothing is taken unless the range is
/// granted; then exactly the asked range is held besides the others, and the
/// request to the disks is the one that was asked for.
pub proof fn lemma_ranged_request_takes_its_range_only(
    outcome: LockOutcome,
    as_error: spec_fn(RangeError) -> AsyncIoError,
    op: MirroredOp,
    user_data: u64,
    start: u64,
    length: u64,
    before: MirrorStateView,
    after: MirrorStateView,
    result: Result<Option<MirrorRequest>, AsyncIoError>,
    k: u64,
)
    requires
        request_answered(
            outcome,
            as_error,
            op,
            user_data,
            start,
            length,
            before,
            after,
            result,
        ),
        start + length <= u64::MAX,
    ensures
        result is Err <==> outcome is Refused,
        result is Err ==> result->Err_0 == as_error(outcome->Refused_0),
        result is Ok && result->Ok_0 is None <==> outcome is Wait,
        outcome is Granted ==> result->Ok_0->0@.op == op && result->Ok_0->0@.user_data == Some(
            user_data,
        ) && result->Ok_0->0@.guard is Some && result->Ok_0->0@.guard->0@ == start,
        outcome is Granted ==> after.held.contains_key(start) && after.held[start] - start
            == length,
        !(outcome is Granted) || k != start ==> (after.held.contains_key(k)
            <==> before.held.contains_key(k)) && (before.held.contains_key(k) ==> after.held[k]
            == before.held[k]),
        after == (MirrorStateView { held: after.held, ..before }),
{
}

} // verus!
