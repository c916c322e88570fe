//! The copy worker: copies the existing bytes of the source to the destination,
//! block by block, while the mirrored writes go on.

use crate::phase::{MirrorPhase, PhaseView};
use crate::ranges;
use crate::ranges::{LockOutcome, RangeError, RangeGuard};
use crate::reasons;
use crate::state;
use crate::state::MirrorState;
use vstd::prelude::*;

verus! {

/// Block size for the copy worker, in which it copies data from
/// source to destination and holds the range lock.
pub const MIRROR_BLOCK_SIZE: usize = 512 * 1024;

/// A 64-bit position read as a signed file offset.
pub open spec fn signed_offset(offset: u64) -> int {
    if offset <= i64::MAX {
        offset as int
    } else {
        offset - 0x1_0000_0000_0000_0000
    }
}

/// A 64-bit position read as a signed file offset.
fn offset_to_i64(offset: u64) -> (signed: i64)
    ensures
        signed == signed_offset(offset),
{
    let signed = #[verifier::truncate]
    (offset as i64);
    assert(offset <= 0x7fff_ffff_ffff_ffff ==> signed == offset) by (bit_vector)
        requires
            signed == offset as i64,
    ;
    assert(offset > 0x7fff_ffff_ffff_ffff ==> signed == offset - 0x1_0000_0000_0000_0000)
        by (bit_vector)
        requires
            signed == offset as i64,
    ;
    signed
}

/// What came of a transfer: `S` is the error of a disk that does not take a
/// request, `W` the error of waiting for a completion.
pub enum TransferOutcome<S, W> {
    /// The disk did not take the request.
    NotSubmitted(S),
    /// The completion could not be waited for.
    WaitFailed(W),
    /// The disk completed the request; a negative result is an error number,
    /// negated.
    Completed(i32),
}

/// Why a block was not copied.
#[derive(Debug, PartialEq, Eq)]
pub enum CopyError<S, W> {
    /// The source did not take the read.
    ReadNotSubmitted(S),
    /// The destination did not take the write.
    WriteNotSubmitted(S),
    /// A completion could not be waited for.
    WaitFailed(W),
    /// A disk completed with this error number.
    Os(i32),
}

/// One block on its way: the transfer that the worker asks for.
pub struct TransferView {
    pub offset: u64,
    pub length: usize,
    pub user_data: u64,
    pub guard: RangeGuard,
}

/// A block to be read from the source into the worker's buffer.
pub struct BlockRead {
    offset: u64,
    length: usize,
    user_data: u64,
    guard: RangeGuard,
}

/// A block to be written from the worker's buffer to the destination.
pub struct BlockWrite {
    offset: u64,
    length: usize,
    user_data: u64,
    guard: RangeGuard,
}

impl View for BlockRead {
    type V = TransferView;

    closed spec fn view(&self) -> TransferView {
        TransferView {
            offset: self.offset,
            length: self.length,
            user_data: self.user_data,
            guard: self.guard,
        }
    }
}

impl View for BlockWrite {
    type V = TransferView;

    closed spec fn view(&self) -> TransferView {
        TransferView {
            offset: self.offset,
            length: self.length,
            user_data: self.user_data,
            guard: self.guard,
        }
    }
}

impl BlockRead {
    /// The end of the block fits in 64 bits.
    #[verifier::type_invariant]
    spec fn in_range(self) -> bool {
        self.offset + self.length <= u64::MAX
    }

    /// Where to read.
    pub fn file_offset(&self) -> (offset: i64)
        ensures
            offset == signed_offset(self@.offset),
            self@.offset <= i64::MAX ==> offset == self@.offset,
    {
        offset_to_i64(self.offset)
    }

    /// How many bytes to read.
    pub fn length(&self) -> (length: usize)
        ensures
            length == self@.length,
    {
        self.length
    }

    /// The id of the read.
    pub fn user_data(&self) -> (user_data: u64)
        ensures
            user_data == self@.user_data,
    {
        self.user_data
    }

    /// Gives the block up and frees its range.
    pub fn abandon(self, state: &mut MirrorState)
        requires
            old(state).wf(),
        ensures
            final(state).wf(),
            final(state)@ == old(state)@.release(Some(self@.guard)),
    {
        state.release(Some(self.guard));
    }
}

impl BlockWrite {
    /// The end of the block fits in 64 bits.
    #[verifier::type_invariant]
    spec fn in_range(self) -> bool {
        self.offset + self.length <= u64::MAX
    }

    /// Where to write.
    pub fn file_offset(&self) -> (offset: i64)
        ensures
            offset == signed_offset(self@.offset),
            self@.offset <= i64::MAX ==> offset == self@.offset,
    {
        offset_to_i64(self.offset)
    }

    /// How many bytes to write.
    pub fn length(&self) -> (length: usize)
        ensures
            length == self@.length,
    {
        self.length
    }

    /// The id of the write.
    pub fn user_data(&self) -> (user_data: u64)
        ensures
            user_data == self@.user_data,
    {
        self.user_data
    }

    /// Gives the block up and frees its range.
    pub fn abandon(self, state: &mut MirrorState)
        requires
            old(state).wf(),
        ensures
            final(state).wf(),
            final(state)@ == old(state)@.release(Some(self@.guard)),
    {
        state.release(Some(self.guard));
    }
}

/// What happened while the worker waits for a completion; `W` is an I/O error.
#[derive(Debug)]
pub enum WaitEvent<W> {
    /// The disk was asked for a completion.
    Polled(Option<(u64, i32)>),
    /// The disk's eventfd was waited for.
    Waited(Result<(), W>),
    /// The counter of the eventfd was read.
    Drained(Result<(), W>),
}

/// What to do next to get a completion.
#[derive(Debug, PartialEq, Eq)]
pub enum WaitAction<W> {
    /// Ask the disk for a completion.
    Poll,
    /// Wait for the disk's eventfd.
    Wait,
    /// Read the counter of the eventfd, so that the next wait does not end at
    /// once on a stale signal.
    Drain,
    /// The wait is over.
    Return(Result<(u64, i32), W>),
}

/// What waiting for an eventfd once came to.
#[derive(Debug)]
pub enum EpollEvent<W> {
    /// The eventfd is readable.
    Ready,
    /// A signal interrupted the wait.
    Interrupted,
    /// The wait failed.
    Failed(W),
}

/// What to do next to wait for an eventfd.
#[derive(Debug, PartialEq, Eq)]
pub enum EpollAction<W> {
    /// Wait again.
    Again,
    /// The wait is over.
    Return(Result<(), W>),
}

/// The rule for waiting for one eventfd.
pub struct EpollWaiter;

impl EpollWaiter {
    /// Waits until the eventfd is readable, again after an interruption.
    pub fn wait<W>(event: EpollEvent<W>) -> (action: EpollAction<W>)
        ensures
            match event {
                EpollEvent::Ready => action == EpollAction::<W>::Return(Ok(())),
                EpollEvent::Interrupted => action == EpollAction::<W>::Again,
                EpollEvent::Failed(error) => action == EpollAction::<W>::Return(Err(error)),
            },
    {
        match event {
            EpollEvent::Ready => EpollAction::Return(Ok(())),
            EpollEvent::Interrupted => EpollAction::Again,
            EpollEvent::Failed(error) => EpollAction::Return(Err(error)),
        }
    }
}

/// What the worker does next.
#[derive(Debug, Clone, Copy, PartialEq, Eq, Structural)]
pub enum RunAction {
    /// Copy this block.
    Copy { offset: u64, length: usize },
    /// Stop: everything is copied, or the mirror is no longer running.
    Stop,
}

/// Copies the source to the destination in blocks of fixed size.
pub struct CopyWorker {
    /// Once allocated, the buffer is reused for all blocks to avoid repeated allocations.
    buf: Vec<u8>,
    /// Tracks the next user_data for request and completion notifications.
    next_user_data: u64,
    /// Everything below is copied.
    offset: u64,
}

/// A [`CopyWorker`] as contracts speak of it.
#[verifier::ext_equal]
pub struct CopyWorkerView {
    pub buf: Seq<u8>,
    pub next_user_data: u64,
    pub offset: u64,
}

impl View for CopyWorker {
    type V = CopyWorkerView;

    closed spec fn view(&self) -> CopyWorkerView {
        CopyWorkerView {
            buf: self.buf@,
            next_user_data: self.next_user_data,
            offset: self.offset,
        }
    }
}

/// How many bytes the block at `offset` has, with blocks of up to `max_length`
/// bytes on a disk of `total` bytes.
pub open spec fn block_length(offset: int, total: int, max_length: int) -> int {
    if max_length <= total - offset {
        max_length
    } else {
        total - offset
    }
}

/// `buf` with its first `n` bytes zero.
pub open spec fn zeroed_prefix(buf: Seq<u8>, n: int) -> Seq<u8> {
    Seq::new(
        buf.len(),
        |i: int|
            if i < n {
                0u8
            } else {
                buf[i]
            },
    )
}

impl CopyWorker {
    /// A worker that has copied nothing yet and copies in blocks of
    /// `block_size_bytes`.
    pub fn new(block_size_bytes: usize) -> (worker: Self)
        ensures
            worker@ == (CopyWorkerView {
                buf: Seq::new(block_size_bytes as nat, |i: int| 0u8),
                next_user_data: 0,
                offset: 0,
            }),
    {
        let worker = Self { buf: vec![0; block_size_bytes], next_user_data: 0, offset: 0 };
        proof {
            assert(worker@.buf == Seq::new(block_size_bytes as nat, |i: int| 0u8));
        }
        worker
    }

    /// The buffer that every block passes through.
    pub fn buffer(&mut self) -> (buf: &mut [u8])
        ensures
            buf@ == old(self)@.buf,
            final(self)@ == (CopyWorkerView { buf: final(buf)@, ..old(self)@ }),
    {
        self.buf.as_mut_slice()
    }

    /// Decides what comes next: the block after the ones that are copied, as
    /// long as the mirror is running. When the whole disk is copied, the mirror
    /// becomes ready.
    pub fn run(&self, state: &mut MirrorState) -> (action: RunAction)
        requires
            old(state).wf(),
        ensures
            final(state).wf(),
            if self@.offset >= old(state)@.total_bytes {
                &&& action == RunAction::Stop
                &&& final(state)@ == old(state)@.attempt(PhaseView::Ready)
            } else if !(old(state)@.phase is Running) {
                &&& action == RunAction::Stop
                &&& final(state)@ == old(state)@
            } else {
                &&& action matches RunAction::Copy { offset, length }
                &&& offset == self@.offset
                &&& length == block_length(
                    self@.offset as int,
                    old(state)@.total_bytes as int,
                    self@.buf.len() as int,
                )
                &&& final(state)@ == old(state)@
            },
            action matches RunAction::Copy { offset, length } ==> {
                &&& length <= self@.buf.len()
                &&& offset + length <= old(state)@.total_bytes
                &&& length == self@.buf.len() || offset + length == old(state)@.total_bytes
            },
    {
        let total_size = state.total_bytes();
        let max_length = self.buf.len() as u64;
        if self.offset >= total_size {
            state.transition_to_phase(MirrorPhase::Ready);
            return RunAction::Stop;
        }
        match state.phase() {
            MirrorPhase::Running => {},
            _ => return RunAction::Stop,
        }
        let left = total_size - self.offset;
        let length = if max_length <= left {
            max_length as usize
        } else {
            left as usize
        };
        RunAction::Copy { offset: self.offset, length }
    }

    /// Begins to copy `length` bytes at `offset`: locks their range, so that
    /// mirrored writes cannot race the copy, and clears the part of the buffer
    /// that the read will fill.
    ///
    /// `Ok(None)` means that the range is held: the caller waits for a release
    /// and asks again. A block whose range is granted has to fit in the buffer.
    pub fn copy_block(&mut self, state: &mut MirrorState, offset: u64, length: usize) -> (result:
        Result<Option<BlockRead>, RangeError>)
        requires
            old(state).wf(),
            ranges::lock_outcome(old(state)@.held, offset, length as u64) is Granted ==> length
                <= old(self)@.buf.len(),
        ensures
            final(state).wf(),
            match ranges::lock_outcome(old(state)@.held, offset, length as u64) {
                LockOutcome::Refused(error) => {
                    &&& result == Err::<Option<BlockRead>, RangeError>(error)
                    &&& final(self)@ == old(self)@
                    &&& final(state)@ == old(state)@
                },
                LockOutcome::Wait => {
                    &&& result == Ok::<Option<BlockRead>, RangeError>(None)
                    &&& final(self)@ == old(self)@
                    &&& final(state)@ == old(state)@
                },
                LockOutcome::Granted => {
                    &&& result matches Ok(Some(read))
                    &&& read@.offset == offset
                    &&& read@.length == length
                    &&& read@.user_data == old(self)@.next_user_data
                    &&& read@.guard@ == offset
                    &&& final(self)@ == (CopyWorkerView {
                        buf: zeroed_prefix(old(self)@.buf, length as int),
                        next_user_data: state::wrapping_sum(old(self)@.next_user_data, 1),
                        ..old(self)@
                    })
                    &&& final(state)@ == old(state)@.lock(offset, length as u64)
                },
            },
            result matches Ok(Some(_)) ==> {
                &&& final(state)@.held.contains_key(offset)
                &&& final(state)@.held[offset] - offset == length
                &&& forall|i: int| 0 <= i < length ==> #[trigger] final(self)@.buf[i] == 0
            },
    {
        match state.lock_range(offset, length as u64) {
            Ok(Some(guard)) => {
                self.clear_buffer(length);
                let user_data = self.generate_user_data();
                Ok(Some(BlockRead { offset, length, user_data, guard }))
            },
            Ok(None) => Ok(None),
            Err(error) => Err(error),
        }
    }

    /// Fills the first `length` bytes of the buffer with zeros.
    fn clear_buffer(&mut self, length: usize)
        requires
            length <= old(self)@.buf.len(),
        ensures
            final(self)@ == (CopyWorkerView {
                buf: zeroed_prefix(old(self)@.buf, length as int),
                ..old(self)@
            }),
    {
        let mut i: usize = 0;
        while i < length
            invariant
                i <= length <= old(self)@.buf.len(),
                self@ == (CopyWorkerView {
                    buf: zeroed_prefix(old(self)@.buf, i as int),
                    ..old(self)@
                }),
            decreases length - i,
        {
            let ghost before = self@.buf;
            self.buf[i] = 0;
            proof {
                assert(self@.buf == before.update(i as int, 0u8));
                assert(self@.buf == zeroed_prefix(old(self)@.buf, i + 1));
            }
            i = i + 1;
        }
        proof {
            assert(self@.buf == zeroed_prefix(old(self)@.buf, length as int));
        }
    }

    /// Returns the next user_data and increments it, wrapping on overflow.
    fn generate_user_data(&mut self) -> (user_data: u64)
        ensures
            user_data == old(self)@.next_user_data,
            final(self)@ == (CopyWorkerView {
                next_user_data: state::wrapping_sum(old(self)@.next_user_data, 1),
                ..old(self)@
            }),
    {
        let user_data = self.next_user_data;
        self.next_user_data = self.next_user_data.wrapping_add(1);
        user_data
    }

    /// Takes what came of reading a block. A block that was read goes on to the
    /// destination, its range still locked. An error frees the range and ends
    /// the copy.
    pub fn read_done<S, W>(
        &mut self,
        state: &mut MirrorState,
        read: BlockRead,
        outcome: TransferOutcome<S, W>,
    ) -> (result: Result<BlockWrite, CopyError<S, W>>)
        requires
            old(state).wf(),
            outcome != TransferOutcome::<S, W>::Completed(i32::MIN),
        ensures
            final(state).wf(),
            match transfer_error(outcome, |error: S| CopyError::ReadNotSubmitted(error)) {
                Some(error) => {
                    &&& result == Err::<BlockWrite, CopyError<S, W>>(error)
                    &&& final(self)@ == old(self)@
                    &&& final(state)@ == old(state)@.release(Some(read@.guard))
                },
                None => {
                    &&& result matches Ok(write)
                    &&& write@ == (TransferView {
                        user_data: old(self)@.next_user_data,
                        ..read@
                    })
                    &&& final(self)@ == (CopyWorkerView {
                        next_user_data: state::wrapping_sum(old(self)@.next_user_data, 1),
                        ..old(self)@
                    })
                    &&& final(state)@ == old(state)@
                },
            },
            result is Ok <==> (outcome matches TransferOutcome::Completed(n) && n >= 0),
    {
        proof {
            use_type_invariant(&read);
        }
        let error = match outcome {
            TransferOutcome::NotSubmitted(error) => CopyError::ReadNotSubmitted(error),
            TransferOutcome::WaitFailed(error) => CopyError::WaitFailed(error),
            TransferOutcome::Completed(result) => if result < 0 {
                CopyError::Os(-result)
            } else {
                let user_data = self.generate_user_data();
                return Ok(
                    BlockWrite {
                        offset: read.offset,
                        length: read.length,
                        user_data,
                        guard: read.guard,
                    },
                );
            },
        };
        state.release(Some(read.guard));
        Err(error)
    }

    /// Takes what came of writing a block. A block that was written counts as
    /// copied, and the worker moves past it. Either way the range is free again.
    pub fn write_done<S, W>(
        &mut self,
        state: &mut MirrorState,
        write: BlockWrite,
        outcome: TransferOutcome<S, W>,
    ) -> (result: Result<(), CopyError<S, W>>)
        requires
            old(state).wf(),
            outcome != TransferOutcome::<S, W>::Completed(i32::MIN),
        ensures
            final(state).wf(),
            match transfer_error(outcome, |error: S| CopyError::WriteNotSubmitted(error)) {
                Some(error) => {
                    &&& result == Err::<(), CopyError<S, W>>(error)
                    &&& final(self)@ == old(self)@
                    &&& final(state)@ == old(state)@.release(Some(write@.guard))
                },
                None => {
                    &&& result == Ok::<(), CopyError<S, W>>(())
                    &&& write@.offset + write@.length <= u64::MAX
                    &&& final(self)@ == (CopyWorkerView {
                        offset: (write@.offset + write@.length) as u64,
                        ..old(self)@
                    })
                    &&& final(state)@ == old(state)@.count_copied(write@.length as u64).release(
                        Some(write@.guard),
                    )
                },
            },
            result is Ok && old(state)@.copied_bytes + write@.length <= u64::MAX
                ==> final(state)@.copied_bytes - old(state)@.copied_bytes == write@.length,
            result is Err ==> final(state)@.copied_bytes == old(state)@.copied_bytes,
            result is Ok <==> (outcome matches TransferOutcome::Completed(n) && n >= 0),
    {
        proof {
            use_type_invariant(&write);
        }
        let error = match outcome {
            TransferOutcome::NotSubmitted(error) => CopyError::WriteNotSubmitted(error),
            TransferOutcome::WaitFailed(error) => CopyError::WaitFailed(error),
            TransferOutcome::Completed(result) => if result < 0 {
                CopyError::Os(-result)
            } else {
                state.add_copied_bytes(write.length as u64);
                state.release(Some(write.guard));
                self.offset = write.offset + write.length as u64;
                return Ok(());
            },
        };
        state.release(Some(write.guard));
        Err(error)
    }

    /// Takes what happened while a completion is awaited and says what to do
    /// next, until there is one. Begin by asking the disk.
    pub fn wait_for_completion<W>(event: WaitEvent<W>) -> (action: WaitAction<W>)
        ensures
            match event {
                WaitEvent::Polled(Some(completion)) => action == WaitAction::<W>::Return(
                    Ok(completion),
                ),
                WaitEvent::Polled(None) => action == WaitAction::<W>::Wait,
                WaitEvent::Waited(Ok(())) => action == WaitAction::<W>::Drain,
                WaitEvent::Drained(Ok(())) => action == WaitAction::<W>::Poll,
                WaitEvent::Waited(Err(error)) => action == WaitAction::<W>::Return(Err(error)),
                WaitEvent::Drained(Err(error)) => action == WaitAction::<W>::Return(Err(error)),
            },
    {
        match event {
            WaitEvent::Polled(Some(completion)) => WaitAction::Return(Ok(completion)),
            WaitEvent::Polled(None) => WaitAction::Wait,
            WaitEvent::Waited(Ok(())) => WaitAction::Drain,
            WaitEvent::Drained(Ok(())) => WaitAction::Poll,
            WaitEvent::Waited(Err(error)) => WaitAction::Return(Err(error)),
            WaitEvent::Drained(Err(error)) => WaitAction::Return(Err(error)),
        }
    }

    /// Takes how the worker ended; an error comes as its debug output and fails
    /// the mirror.
    pub fn finish(state: &mut MirrorState, outcome: Result<(), String>)
        requires
            old(state).wf(),
        ensures
            final(state).wf(),
            match outcome {
                Ok(()) => final(state)@ == old(state)@,
                Err(error) => final(state)@ == old(state)@.attempt(
                    PhaseView::Failed(reasons::copy_reason_text(error@)),
                ),
            },
            outcome is Err ==> !(final(state)@.phase is Running) && !(
            final(state)@.phase is Ready),
    {
        if let Err(error) = outcome {
            state.transition_to_phase(MirrorPhase::Failed(reasons::copy_reason(error.as_str())));
        }
    }
}

/// The error that a transfer ends with, where it does. A disk that does not take
/// the request is reported as `not_submitted` of its error.
pub open spec fn transfer_error<S, W>(
    outcome: TransferOutcome<S, W>,
    not_submitted: spec_fn(S) -> CopyError<S, W>,
) -> Option<CopyError<S, W>> {
    match outcome {
        TransferOutcome::NotSubmitted(error) => Some(not_submitted(error)),
        TransferOutcome::WaitFailed(error) => Some(CopyError::WaitFailed(error)),
        TransferOutcome::Completed(result) => if result < 0 {
            Some(CopyError::Os((-result) as i32))
        } else {
            None
        },
    }
}

/// Where the worker stands after `n` blocks of up to `max_length` bytes.
pub open spec fn block_start(n: nat, total: int, max_length: int) -> int
    decreases n,
{
    if n == 0 {
        0
    } else {
        let before = block_start((n - 1) as nat, total, max_length);
        if before < total {
            before + block_length(before, total, max_length)
        } else {
            before
        }
    }
}

/// Byte `p` lies in one of the blocks.
pub open spec fn in_some_block(p: int, total: int, max_length: int) -> bool {
    exists|n: nat|
        {
            let start = #[trigger] block_start(n, total, max_length);
            start <= p < start + block_length(start, total, max_length)
        }
}

/// After `n` blocks the worker has copied `n` full blocks or the whole disk.
pub proof fn lemma_block_start_is(n: nat, total: int, max_length: int)
    requires
        0 <= total,
        0 < max_length,
    ensures
        block_start(n, total, max_length) == if n * max_length <= total {
            n * max_length
        } else {
            total
        },
    decreases n,
{
    if n > 0 {
        lemma_block_start_is((n - 1) as nat, total, max_length);
        assert(n * max_length == (n - 1) * max_length + max_length) by (nonlinear_arith);
    } else {
        assert(0 * max_length == 0);
    }
}

/// The blocks cover the disk without gaps: each begins where the one before it
/// ends, every byte of the disk lies in one of them, and after finitely many
/// blocks the worker stands at the end of the disk and stays there.
pub proof fn lemma_blocks_cover_the_disk(total: int, max_length: int)
    requires
        0 <= total,
        0 < max_length,
    ensures
        block_start(0, total, max_length) == 0,
        forall|n: nat|
            #![trigger block_start(n, total, max_length)]
            block_start(n, total, max_length) < total ==> block_start(n + 1, total, max_length)
                == block_start(n, total, max_length) + block_length(
                block_start(n, total, max_length),
                total,
                max_length,
            ) && block_start(n, total, max_length) < block_start(n + 1, total, max_length) <= total,
        forall|p: int| 0 <= p < total ==> #[trigger] in_some_block(p, total, max_length),
        forall|n: nat| n >= total ==> #[trigger] block_start(n, total, max_length) == total,
{
    assert forall|n: nat|
        #![trigger block_start(n, total, max_length)]
        block_start(n, total, max_length) < total implies block_start(n + 1, total, max_length)
        == block_start(n, total, max_length) + block_length(
        block_start(n, total, max_length),
        total,
        max_length,
    ) && block_start(n, total, max_length) < block_start(n + 1, total, max_length) <= total by {
        assert((n + 1 - 1) as nat == n);
    }
    assert forall|p: int| 0 <= p < total implies #[trigger] in_some_block(
        p,
        total,
        max_length,
    ) by {
        let n = (p / max_length) as nat;
        assert(n * max_length <= p < n * max_length + max_length && p / max_length >= 0)
            by (nonlinear_arith)
            requires
                0 <= p,
                0 < max_length,
                n == p / max_length,
        ;
        lemma_block_start_is(n, total, max_length);
    }
    assert forall|n: nat| n >= total implies #[trigger] block_start(n, total, max_length)
        == total by {
        assert(n * max_length >= n) by (nonlinear_arith)
            requires
                0 < max_length,
        ;
        lemma_block_start_is(n, total, max_length);
    }
}

/// When the copied bytes agree with the place where the worker stands, they
/// still do after the next block, and never exceed the size of the disk.
pub proof fn lemma_progress_follows_the_worker(
    copied_bytes: u64,
    offset: u64,
    total: u64,
    max_length: usize,
)
    requires
        copied_bytes == offset,
        offset < total,
    ensures
        ({
            let length = block_length(offset as int, total as int, max_length as int);
            &&& state::wrapping_sum(copied_bytes, length as u64) == offset + length
            &&& offset + length <= total
        }),
{
}

/// Consecutive requests of the worker have different ids.
pub proof fn lemma_consecutive_ids_differ(user_data: u64)
    ensures
        state::wrapping_sum(user_data, 1) != user_data,
{
}

/// File offsets stand for positions: a position that a signed offset can hold is
/// its own file offset, any other one wraps around, different positions have
/// different file offsets, and a file offset read as a position again is the
/// position it came from.
pub proof fn lemma_file_offsets_stand_for_positions(position: u64, other: u64, offset: i64)
    ensures
        position <= i64::MAX ==> signed_offset(position) == position,
        i64::MIN <= signed_offset(position) <= i64::MAX,
        (position - signed_offset(position)) % 0x1_0000_0000_0000_0000 == 0,
        signed_offset(position) == signed_offset(other) ==> position == other,
        signed_offset(position) == offset ==> ranges::unsigned_offset(offset) == position,
{
}

/// A block is neither larger than the buffer nor reaching past the disk, and
/// smaller than the buffer only where the disk ends. It is empty for an empty
/// buffer alone.
pub proof fn lemma_block_fills_the_buffer_or_ends_the_disk(
    offset: int,
    total: int,
    max_length: int,
)
    requires
        offset < total,
        0 <= max_length,
    ensures
        0 <= block_length(offset, total, max_length) <= max_length,
        0 < max_length ==> 0 < block_length(offset, total, max_length),
        offset + block_length(offset, total, max_length) <= total,
        block_length(offset, total, max_length) == max_length || offset + block_length(
            offset,
            total,
            max_length,
        ) == total,
{
}

/// Clearing the buffer zeroes the bytes that the next read fills, and leaves the
/// other bytes and the size of the buffer as they are.
pub proof fn lemma_only_the_block_is_cleared(buf: Seq<u8>, n: int, i: int)
    requires
        0 <= i < buf.len(),
    ensures
        zeroed_prefix(buf, n).len() == buf.len(),
        i < n ==> zeroed_prefix(buf, n)[i] == 0,
        n <= i ==> zeroed_prefix(buf, n)[i] == buf[i],
{
}

/// A transfer goes well exactly when the disk completes it with a number that is
/// not negative. A negative number is reported as the error number it stands
/// for, and other errors as they came.
pub proof fn lemma_transfer_errors_are_reported_as_they_came<S, W>(
    outcome: TransferOutcome<S, W>,
    not_submitted: spec_fn(S) -> CopyError<S, W>,
)
    requires
        outcome != TransferOutcome::<S, W>::Completed(i32::MIN),
    ensures
        transfer_error(outcome, not_submitted) is None <==> outcome is Completed
            && outcome->Completed_0 >= 0,
        outcome is Completed && outcome->Completed_0 <= -1 ==> {
            &&& transfer_error(outcome, not_submitted)->0 is Os
            &&& transfer_error(outcome, not_submitted)->0->Os_0 + outcome->Completed_0 == 0
        },
        outcome is WaitFailed ==> transfer_error(outcome, not_submitted)->0
            == CopyError::<S, W>::WaitFailed(outcome->WaitFailed_0),
        outcome is NotSubmitted ==> transfer_error(outcome, not_submitted)->0 == not_submitted(
            outcome->NotSubmitted_0,
        ),
{
}

} // verus!
