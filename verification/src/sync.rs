//! Why the two disks agree once a mirror is ready.
//!
//! The copy worker and the writes of the guest are followed step by step on the
//! bytes of both disks. Every step is bound by the rules of the other modules:
//! a range is only taken where it is free, it is held until its transfer is
//! over, and the phase moves as they allow.
//!
//! What is said here rests on the disks: one that takes a write stores all of
//! its data, unless it is the destination and reports an error, and a read of
//! the source that completes without an error fills the whole block. It leaves
//! out a source that accepts a write and then loses it, transfers that end short
//! without an error, and ranges that are released while their write is under
//! way: that of a request whose id is used again, that of a request abandoned
//! after the source took it, and those of a queue that is taken down. In such a
//! run the disks can be apart, and no phase tells.

use crate::phase::PhaseView;
use crate::queue;
use crate::queue::{
    AsyncIoError, InflightMutatingRequest, MirrorRequest, MirroredOp, RequestView,
};
use crate::ranges;
use crate::ranges::{IoVec, RangeError};
use crate::reasons;
use crate::state::MirrorStateView;
use crate::worker;
use crate::worker::TransferView;
use vstd::prelude::*;

verus! {

/// `bytes` with `data` written from `start` on, as far as it fits.
pub open spec fn write_at(bytes: Seq<u8>, start: int, data: Seq<u8>) -> Seq<u8> {
    Seq::new(
        bytes.len(),
        |p: int|
            if start <= p < start + data.len() {
                data[p - start]
            } else {
                bytes[p]
            },
    )
}

/// A mirrored write that holds its range. A punched hole or a request for zeros
/// is a write of zeros.
pub struct GuestWrite {
    pub data: Seq<u8>,
    /// The source has the data.
    pub on_source: bool,
    /// The destination has the data.
    pub on_destination: bool,
}

/// A block that the worker copies; it holds its range.
pub struct BlockCopy {
    pub length: nat,
    /// What was read from the source.
    pub data: Option<Seq<u8>>,
    /// The destination has the data.
    pub written: bool,
}

/// A mirror with the contents of its disks.
#[verifier::ext_equal]
pub struct MirrorModel {
    pub source: Seq<u8>,
    pub destination: Seq<u8>,
    pub state: MirrorStateView,
    /// Where the worker stands.
    pub offset: u64,
    pub block: Option<BlockCopy>,
    /// The writes that hold a range, by where it begins.
    pub writes: Map<u64, GuestWrite>,
}

/// One step of a mirror.
pub enum MirrorStep {
    /// A mirrored write takes its range.
    BeginWrite { start: u64, data: Seq<u8> },
    /// The source refuses a write: the guest sees the error.
    RefuseWrite { start: u64 },
    /// The data of a write reaches the source.
    WriteSource { start: u64 },
    /// The data of a write reaches the destination.
    WriteDestination { start: u64 },
    /// Both disks have the data: the write completes.
    EndWrite { start: u64 },
    /// The mirror has failed: the write goes to the source alone, without its
    /// range.
    PassWrite { start: u64 },
    /// The destination refuses a write or completes it with an error.
    FailWrite { start: u64, reason: Seq<char>, destination: Seq<u8> },
    /// The worker takes the range of its next block.
    BeginBlock { max_length: nat },
    /// The block is read from the source.
    ReadBlock,
    /// The block is written to the destination.
    WriteBlock,
    /// The worker moves past the block.
    EndBlock,
    /// The worker gives up a block that may be written in part.
    AbortBlock { destination: Seq<u8> },
    /// The worker reports that it gave up.
    FailCopy { reason: Seq<char> },
    /// The worker has nothing left to copy.
    EndCopy,
    /// Somebody asks for a phase that is not the worker's to report.
    Attempt { target: PhaseView },
    /// The rejected moves are taken out for the log.
    TakeRejected,
    /// After a failure, a cancellation or the switch-over, the disks change
    /// without further promises.
    Drift { source: Seq<u8>, destination: Seq<u8> },
}

/// Byte `p` belongs to a write that has reached one of the disks only.
pub open spec fn half_written(writes: Map<u64, GuestWrite>, p: int) -> bool {
    exists|start: u64| #[trigger]
        writes.contains_key(start) && start <= p < start + writes[start].data.len()
            && writes[start].on_source != writes[start].on_destination
}

/// The mirror is not failed, cancelled or switching over.
pub open spec fn syncing(phase: PhaseView) -> bool {
    phase is Running || phase is Ready
}

/// `after` differs from `before` at most in `[start, end)`.
pub open spec fn same_outside(before: Seq<u8>, after: Seq<u8>, start: int, end: int) -> bool {
    &&& after.len() == before.len()
    &&& forall|p: int|
        0 <= p < before.len() && !(start <= p < end) ==> #[trigger] after[p] == before[p]
}

impl MirrorModel {
    /// A mirror at its start, whatever the disks hold.
    pub open spec fn starts(self) -> bool {
        &&& self.state.phase is Running
        &&& self.state.held == Map::<u64, u64>::empty()
        &&& self.offset == 0
        &&& self.block is None
        &&& self.writes == Map::<u64, GuestWrite>::empty()
        &&& self.source.len() >= self.state.total_bytes
        &&& self.destination.len() >= self.state.total_bytes
    }

    /// `step` leads from `self` to `next`.
    pub open spec fn steps_to(self, step: MirrorStep, next: MirrorModel) -> bool {
        match step {
            MirrorStep::BeginWrite { start, data } => {
                &&& ranges::lock_outcome(self.state.held, start, data.len() as u64) is Granted
                &&& data.len() <= u64::MAX
                &&& next == (MirrorModel {
                    state: self.state.lock(start, data.len() as u64),
                    writes: self.writes.insert(
                        start,
                        GuestWrite { data, on_source: false, on_destination: false },
                    ),
                    ..self
                })
            },
            MirrorStep::RefuseWrite { start } => {
                &&& self.writes.contains_key(start)
                &&& !self.writes[start].on_source
                &&& !self.writes[start].on_destination
                &&& next == self.without_write(start)
            },
            MirrorStep::WriteSource { start } => {
                &&& self.writes.contains_key(start)
                &&& next == (MirrorModel {
                    source: write_at(self.source, start as int, self.writes[start].data),
                    writes: self.writes.insert(
                        start,
                        GuestWrite { on_source: true, ..self.writes[start] },
                    ),
                    ..self
                })
            },
            MirrorStep::WriteDestination { start } => {
                &&& self.writes.contains_key(start)
                &&& next == (MirrorModel {
                    destination: write_at(self.destination, start as int, self.writes[start].data),
                    writes: self.writes.insert(
                        start,
                        GuestWrite { on_destination: true, ..self.writes[start] },
                    ),
                    ..self
                })
            },
            MirrorStep::EndWrite { start } => {
                &&& self.writes.contains_key(start)
                &&& self.writes[start].on_source
                &&& self.writes[start].on_destination
                &&& next == self.without_write(start)
            },
            MirrorStep::PassWrite { start } => {
                &&& self.writes.contains_key(start)
                &&& self.state.phase is Failed
                &&& next == self.without_write(start)
            },
            MirrorStep::FailWrite { start, reason, destination } => {
                &&& self.writes.contains_key(start)
                &&& destination.len() == self.destination.len()
                &&& next == (MirrorModel {
                    destination,
                    state: self.state.attempt(PhaseView::Failed(reason)),
                    ..self
                }).without_write(start)
            },
            MirrorStep::BeginBlock { max_length } => {
                let length = worker::block_length(
                    self.offset as int,
                    self.state.total_bytes as int,
                    max_length as int,
                );
                &&& self.block is None
                &&& self.offset < self.state.total_bytes
                &&& ranges::lock_outcome(self.state.held, self.offset, length as u64) is Granted
                &&& next == (MirrorModel {
                    state: self.state.lock(self.offset, length as u64),
                    block: Some(BlockCopy { length: length as nat, data: None, written: false }),
                    ..self
                })
            },
            MirrorStep::ReadBlock => {
                &&& self.block is Some
                &&& next == (MirrorModel {
                    block: Some(
                        BlockCopy {
                            data: Some(
                                self.source.subrange(
                                    self.offset as int,
                                    self.offset + self.block->0.length,
                                ),
                            ),
                            written: false,
                            ..self.block->0
                        },
                    ),
                    ..self
                })
            },
            MirrorStep::WriteBlock => {
                &&& self.block is Some
                &&& self.block->0.data is Some
                &&& next == (MirrorModel {
                    destination: write_at(
                        self.destination,
                        self.offset as int,
                        self.block->0.data->0,
                    ),
                    block: Some(BlockCopy { written: true, ..self.block->0 }),
                    ..self
                })
            },
            MirrorStep::EndBlock => {
                &&& self.block is Some
                &&& self.block->0.written
                &&& next == (MirrorModel {
                    state: self.state.count_copied(self.block->0.length as u64).unlock(
                        self.offset,
                    ),
                    offset: (self.offset + self.block->0.length) as u64,
                    block: None,
                    ..self
                })
            },
            MirrorStep::AbortBlock { destination } => {
                &&& self.block is Some
                &&& same_outside(
                    self.destination,
                    destination,
                    self.offset as int,
                    self.offset + self.block->0.length,
                )
                &&& next == (MirrorModel {
                    destination,
                    state: self.state.unlock(self.offset),
                    block: None,
                    ..self
                })
            },
            MirrorStep::FailCopy { reason } => next == (MirrorModel {
                state: self.state.attempt(PhaseView::Failed(reason)),
                ..self
            }),
            MirrorStep::EndCopy => {
                &&& self.block is None
                &&& self.offset >= self.state.total_bytes
                &&& next == (MirrorModel { state: self.state.attempt(PhaseView::Ready), ..self })
            },
            MirrorStep::Attempt { target } => {
                &&& !(target is Ready)
                &&& next == (MirrorModel { state: self.state.attempt(target), ..self })
            },
            MirrorStep::TakeRejected => next == (MirrorModel {
                state: self.state.without_rejected(),
                ..self
            }),
            MirrorStep::Drift { source, destination } => {
                &&& !syncing(self.state.phase)
                &&& source.len() == self.source.len()
                &&& destination.len() == self.destination.len()
                &&& next == (MirrorModel { source, destination, ..self })
            },
        }
    }

    /// The write that begins at `start` is over and its range is free.
    pub open spec fn without_write(self, start: u64) -> MirrorModel {
        MirrorModel {
            state: self.state.unlock(start),
            writes: self.writes.remove(start),
            ..self
        }
    }

    /// Who holds which range.
    pub open spec fn ranges_are_owned(self) -> bool {
        &&& ranges::disjoint_ranges(self.state.held)
        &&& forall|start: u64| #[trigger]
            self.writes.contains_key(start) ==> self.state.held.contains_key(start)
                && self.state.held[start] == start + self.writes[start].data.len()
        &&& match self.block {
            Some(block) => {
                &&& self.state.held.contains_key(self.offset)
                &&& self.state.held[self.offset] == self.offset + block.length
                &&& !self.writes.contains_key(self.offset)
                &&& self.offset + block.length <= self.state.total_bytes
            },
            None => true,
        }
    }

    /// What the disks hold as long as the mirror is syncing: the bytes that the
    /// worker has passed are equal, but for those of writes that have reached
    /// one of the disks only.
    pub open spec fn bytes_agree(self) -> bool {
        &&& forall|p: int|
            0 <= p < self.offset && !half_written(self.writes, p) ==> #[trigger] self.source[p]
                == self.destination[p]
        &&& forall|start: u64, p: int|
            #![trigger self.writes.contains_key(start), self.source[p]]
            self.writes.contains_key(start) && self.writes[start].on_source && start <= p < start
                + self.writes[start].data.len() && p < self.source.len() ==> self.source[p]
                == self.writes[start].data[p - start]
        &&& forall|start: u64, p: int|
            #![trigger self.writes.contains_key(start), self.destination[p]]
            self.writes.contains_key(start) && self.writes[start].on_destination && start <= p
                < start + self.writes[start].data.len() && p < self.destination.len()
                ==> self.destination[p] == self.writes[start].data[p - start]
        &&& match self.block {
            Some(block) => match block.data {
                Some(data) => {
                    &&& data == self.source.subrange(
                        self.offset as int,
                        self.offset + block.length,
                    )
                    &&& block.written ==> data == self.destination.subrange(
                        self.offset as int,
                        self.offset + block.length,
                    )
                },
                None => !block.written,
            },
            None => true,
        }
    }

    /// What every step keeps.
    pub open spec fn consistent(self) -> bool {
        &&& self.source.len() >= self.state.total_bytes
        &&& self.destination.len() >= self.state.total_bytes
        &&& self.offset <= self.state.total_bytes
        &&& self.state.phase is Ready ==> self.offset == self.state.total_bytes
        &&& self.ranges_are_owned()
        &&& syncing(self.state.phase) ==> self.bytes_agree()
    }
}

/// A mirror is consistent when it starts.
pub proof fn lemma_start_is_consistent(mirror: MirrorModel)
    requires
        mirror.starts(),
    ensures
        mirror.consistent(),
{
}

/// Every step of a mirror keeps it consistent.
pub proof fn lemma_step_keeps_consistent(
    mirror: MirrorModel,
    step: MirrorStep,
    next: MirrorModel,
)
    requires
        mirror.consistent(),
        mirror.steps_to(step, next),
    ensures
        next.consistent(),
{
    if syncing(next.state.phase) {
        match step {
            MirrorStep::BeginWrite { start, data } => {
                assert(!mirror.state.held.contains_key(start));
                assert(next.writes.remove(start) =~= mirror.writes.remove(start));
                lemma_write_flags(mirror, next, start);
            },
            MirrorStep::RefuseWrite { start } => {
                assert(next.writes.remove(start) =~= mirror.writes.remove(start));
                lemma_write_flags(mirror, next, start);
            },
            MirrorStep::WriteSource { start } => {
                lemma_source_written(mirror, next, start);
            },
            MirrorStep::WriteDestination { start } => {
                lemma_destination_written(mirror, next, start);
            },
            MirrorStep::EndWrite { start } => {
                lemma_write_ends(mirror, next, start);
            },
            MirrorStep::WriteBlock => {
                lemma_block_written(mirror, next);
            },
            MirrorStep::EndBlock => {
                lemma_block_ends(mirror, next);
            },
            MirrorStep::AbortBlock { destination } => {
                lemma_block_aborted(mirror, next, destination);
            },
            _ => {},
        }
    }
}

/// Bytes of two different held ranges are different.
proof fn lemma_held_ranges_are_apart(held: Map<u64, u64>, a: u64, b: u64, p: int)
    requires
        ranges::disjoint_ranges(held),
        held.contains_key(a),
        held.contains_key(b),
        a <= p < held[a],
        b <= p < held[b],
    ensures
        a == b,
{
}

/// A byte stays half written as long as the write it belongs to does not change.
proof fn lemma_half_written_stays(
    before: Map<u64, GuestWrite>,
    after: Map<u64, GuestWrite>,
    changed: u64,
    p: int,
)
    requires
        half_written(before, p),
        forall|other: u64| #[trigger]
            before.contains_key(other) && other != changed ==> after.contains_key(other)
                && after[other] == before[other],
        before.contains_key(changed) && changed <= p < changed + before[changed].data.len()
            ==> before[changed].on_source == before[changed].on_destination,
    ensures
        half_written(after, p),
{
    let start = choose|start: u64| #[trigger]
        before.contains_key(start) && start <= p < start + before[start].data.len()
            && before[start].on_source != before[start].on_destination;
    assert(after.contains_key(start));
}

/// A write comes or goes that has reached neither disk: the bytes agree as before.
proof fn lemma_write_flags(mirror: MirrorModel, next: MirrorModel, start: u64)
    requires
        mirror.bytes_agree(),
        next.source == mirror.source,
        next.destination == mirror.destination,
        next.offset == mirror.offset,
        next.block == mirror.block,
        next.writes.remove(start) == mirror.writes.remove(start),
        next.writes.contains_key(start) ==> !next.writes[start].on_source
            && !next.writes[start].on_destination,
        mirror.writes.contains_key(start) ==> !mirror.writes[start].on_source
            && !mirror.writes[start].on_destination,
    ensures
        next.bytes_agree(),
{
    assert forall|other: u64| other != start implies #[trigger] next.writes.contains_key(other)
        == mirror.writes.contains_key(other) && (next.writes.contains_key(other)
        ==> next.writes[other] == mirror.writes[other]) by {
        assert(next.writes.remove(start).contains_key(other) == next.writes.contains_key(other));
        assert(mirror.writes.remove(start).contains_key(other) == mirror.writes.contains_key(
            other,
        ));
        if next.writes.contains_key(other) {
            assert(next.writes.remove(start)[other] == next.writes[other]);
            assert(mirror.writes.remove(start)[other] == mirror.writes[other]);
        }
    }
    assert forall|p: int| half_written(mirror.writes, p) implies half_written(next.writes, p) by {
        lemma_half_written_stays(mirror.writes, next.writes, start, p);
    }
}

/// The data of a write reaches the source.
proof fn lemma_source_written(mirror: MirrorModel, next: MirrorModel, start: u64)
    requires
        mirror.consistent(),
        syncing(mirror.state.phase),
        mirror.steps_to(MirrorStep::WriteSource { start }, next),
    ensures
        next.bytes_agree(),
{
    let held = mirror.state.held;
    let write = mirror.writes[start];
    assert forall|p: int|
        0 <= p < next.offset && !half_written(next.writes, p) implies #[trigger] next.source[p]
        == next.destination[p] by {
        if start <= p < start + write.data.len() {
            assert(next.writes.contains_key(start));
            assert(next.destination[p] == mirror.destination[p]);
        } else {
            if half_written(mirror.writes, p) {
                lemma_half_written_stays(mirror.writes, next.writes, start, p);
            }
            assert(next.source[p] == mirror.source[p]);
        }
    }
    assert forall|other: u64, p: int|
        #![trigger next.writes.contains_key(other), next.source[p]]
        next.writes.contains_key(other) && next.writes[other].on_source && other <= p < other
            + next.writes[other].data.len() && p < next.source.len() implies next.source[p]
        == next.writes[other].data[p - other] by {
        if other != start {
            assert(mirror.writes.contains_key(other));
            if start <= p < start + write.data.len() {
                lemma_held_ranges_are_apart(held, start, other, p);
            }
            assert(next.source[p] == mirror.source[p]);
        }
    }
    assert forall|other: u64, p: int|
        #![trigger next.writes.contains_key(other), next.destination[p]]
        next.writes.contains_key(other) && next.writes[other].on_destination && other <= p < other
            + next.writes[other].data.len() && p < next.destination.len() implies next.destination[p]
        == next.writes[other].data[p - other] by {
        assert(mirror.writes.contains_key(other));
    }
    if let Some(block) = mirror.block {
        if block.data is Some {
            let end = mirror.offset + block.length;
            assert forall|p: int| mirror.offset <= p < end implies next.source[p]
                == mirror.source[p] by {
                if start <= p < start + write.data.len() {
                    lemma_held_ranges_are_apart(held, start, mirror.offset, p);
                }
            }
            assert(next.source.subrange(mirror.offset as int, end) =~= mirror.source.subrange(
                mirror.offset as int,
                end,
            ));
        }
    }
}

/// The data of a write reaches the destination.
proof fn lemma_destination_written(mirror: MirrorModel, next: MirrorModel, start: u64)
    requires
        mirror.consistent(),
        syncing(mirror.state.phase),
        mirror.steps_to(MirrorStep::WriteDestination { start }, next),
    ensures
        next.bytes_agree(),
{
    let held = mirror.state.held;
    let write = mirror.writes[start];
    assert forall|p: int|
        0 <= p < next.offset && !half_written(next.writes, p) implies #[trigger] next.source[p]
        == next.destination[p] by {
        if start <= p < start + write.data.len() {
            assert(next.writes.contains_key(start));
            assert(mirror.source[p] == next.source[p]);
        } else {
            if half_written(mirror.writes, p) {
                lemma_half_written_stays(mirror.writes, next.writes, start, p);
            }
            assert(mirror.source[p] == mirror.destination[p]);
            assert(next.destination[p] == mirror.destination[p]);
        }
    }
    assert forall|other: u64, p: int|
        #![trigger next.writes.contains_key(other), next.source[p]]
        next.writes.contains_key(other) && next.writes[other].on_source && other <= p < other
            + next.writes[other].data.len() && p < next.source.len() implies next.source[p]
        == next.writes[other].data[p - other] by {
        assert(mirror.writes.contains_key(other));
    }
    assert forall|other: u64, p: int|
        #![trigger next.writes.contains_key(other), next.destination[p]]
        next.writes.contains_key(other) && next.writes[other].on_destination && other <= p < other
            + next.writes[other].data.len() && p < next.destination.len() implies next.destination[p]
        == next.writes[other].data[p - other] by {
        if other != start {
            assert(mirror.writes.contains_key(other));
            if start <= p < start + write.data.len() {
                lemma_held_ranges_are_apart(held, start, other, p);
            }
            assert(next.destination[p] == mirror.destination[p]);
        }
    }
    if let Some(block) = mirror.block {
        if block.data is Some {
            let end = mirror.offset + block.length;
            assert forall|p: int| mirror.offset <= p < end implies next.destination[p]
                == mirror.destination[p] by {
                if start <= p < start + write.data.len() {
                    lemma_held_ranges_are_apart(held, start, mirror.offset, p);
                }
            }
            assert(next.destination.subrange(mirror.offset as int, end)
                =~= mirror.destination.subrange(mirror.offset as int, end));
        }
    }
}

/// A write that both disks have is over.
proof fn lemma_write_ends(mirror: MirrorModel, next: MirrorModel, start: u64)
    requires
        mirror.consistent(),
        syncing(mirror.state.phase),
        mirror.steps_to(MirrorStep::EndWrite { start }, next),
    ensures
        next.bytes_agree(),
{
    assert forall|p: int|
        0 <= p < next.offset && !half_written(next.writes, p) implies #[trigger] next.source[p]
        == next.destination[p] by {
        if half_written(mirror.writes, p) {
            lemma_half_written_stays(mirror.writes, next.writes, start, p);
        }
        assert(mirror.source[p] == mirror.destination[p]);
    }
    assert forall|other: u64| #[trigger] next.writes.contains_key(other) implies next.writes[other]
        == mirror.writes[other] && mirror.writes.contains_key(other) by {}
}

/// The worker writes its block to the destination.
proof fn lemma_block_written(mirror: MirrorModel, next: MirrorModel)
    requires
        mirror.consistent(),
        syncing(mirror.state.phase),
        mirror.steps_to(MirrorStep::WriteBlock, next),
    ensures
        next.bytes_agree(),
{
    let held = mirror.state.held;
    let block = mirror.block->0;
    let data = block.data->0;
    let end = mirror.offset + block.length;
    assert(data.len() == block.length);
    assert forall|p: int|
        0 <= p < next.offset && !half_written(next.writes, p) implies #[trigger] next.source[p]
        == next.destination[p] by {
        assert(mirror.source[p] == mirror.destination[p]);
        assert(next.destination[p] == mirror.destination[p]);
    }
    assert forall|other: u64, p: int|
        #![trigger next.writes.contains_key(other), next.destination[p]]
        next.writes.contains_key(other) && next.writes[other].on_destination && other <= p < other
            + next.writes[other].data.len() && p < next.destination.len() implies next.destination[p]
        == next.writes[other].data[p - other] by {
        if mirror.offset <= p < end {
            lemma_held_ranges_are_apart(held, mirror.offset, other, p);
        }
        assert(next.destination[p] == mirror.destination[p]);
    }
    assert(next.destination.subrange(mirror.offset as int, end) =~= data);
}

/// The worker moves past a block that the destination has.
proof fn lemma_block_ends(mirror: MirrorModel, next: MirrorModel)
    requires
        mirror.consistent(),
        syncing(mirror.state.phase),
        mirror.steps_to(MirrorStep::EndBlock, next),
    ensures
        next.bytes_agree(),
{
    let block = mirror.block->0;
    let data = block.data->0;
    assert forall|p: int|
        0 <= p < next.offset && !half_written(next.writes, p) implies #[trigger] next.source[p]
        == next.destination[p] by {
        if p < mirror.offset {
            assert(mirror.source[p] == mirror.destination[p]);
        } else {
            let i = p - mirror.offset;
            let end = mirror.offset + block.length;
            assert(mirror.source.subrange(mirror.offset as int, end)[i] == mirror.source[p]);
            assert(mirror.destination.subrange(mirror.offset as int, end)[i]
                == mirror.destination[p]);
        }
    }
}

/// The worker gives up a block.
proof fn lemma_block_aborted(mirror: MirrorModel, next: MirrorModel, destination: Seq<u8>)
    requires
        mirror.consistent(),
        syncing(mirror.state.phase),
        mirror.steps_to(MirrorStep::AbortBlock { destination }, next),
    ensures
        next.bytes_agree(),
{
    let held = mirror.state.held;
    let end = mirror.offset + mirror.block->0.length;
    assert forall|p: int|
        0 <= p < next.offset && !half_written(next.writes, p) implies #[trigger] next.source[p]
        == next.destination[p] by {
        assert(mirror.source[p] == mirror.destination[p]);
        assert(destination[p] == mirror.destination[p]);
    }
    assert forall|other: u64, p: int|
        #![trigger next.writes.contains_key(other), next.destination[p]]
        next.writes.contains_key(other) && next.writes[other].on_destination && other <= p < other
            + next.writes[other].data.len() && p < next.destination.len() implies next.destination[p]
        == next.writes[other].data[p - other] by {
        if mirror.offset <= p < end {
            lemma_held_ranges_are_apart(held, mirror.offset, other, p);
        }
        assert(destination[p] == mirror.destination[p]);
    }
}

/// Whatever steps a mirror takes from its start, it stays consistent.
pub proof fn lemma_every_run_is_consistent(run: Seq<MirrorModel>, steps: Seq<MirrorStep>)
    requires
        run.len() == steps.len() + 1,
        run[0].starts(),
        forall|i: int| 0 <= i < steps.len() ==> (#[trigger] run[i]).steps_to(steps[i], run[i + 1]),
    ensures
        run.last().consistent(),
    decreases steps.len(),
{
    if steps.len() == 0 {
        lemma_start_is_consistent(run[0]);
    } else {
        let n = steps.len() - 1;
        assert forall|i: int| 0 <= i < n implies (#[trigger] run.drop_last()[i]).steps_to(
            steps.drop_last()[i],
            run.drop_last()[i + 1],
        ) by {
            assert(run[i].steps_to(steps[i], run[i + 1]));
        }
        lemma_every_run_is_consistent(run.drop_last(), steps.drop_last());
        assert(run[n].steps_to(steps[n], run[n + 1]));
        lemma_step_keeps_consistent(run[n], steps[n], run[n + 1]);
    }
}

/// When a mirror is ready, source and destination hold the same bytes, but for
/// writes that have reached one of them only.
pub proof fn lemma_ready_mirror_is_in_sync(mirror: MirrorModel)
    requires
        mirror.consistent(),
        mirror.state.phase is Ready,
    ensures
        forall|p: int|
            0 <= p < mirror.state.total_bytes && !half_written(mirror.writes, p)
                ==> #[trigger] mirror.source[p] == mirror.destination[p],
        mirror.writes == Map::<u64, GuestWrite>::empty() ==> mirror.source.take(
            mirror.state.total_bytes as int,
        ) == mirror.destination.take(mirror.state.total_bytes as int),
{
    if mirror.writes == Map::<u64, GuestWrite>::empty() {
        assert forall|p: int| 0 <= p < mirror.state.total_bytes implies mirror.source[p]
            == mirror.destination[p] by {
            assert(!half_written(mirror.writes, p));
        }
        assert(mirror.source.take(mirror.state.total_bytes as int) =~= mirror.destination.take(
            mirror.state.total_bytes as int,
        ));
    }
}

/// Once a mirror is ready, whatever steps led there, source and destination hold
/// the same bytes when no write is under way.
pub proof fn lemma_ready_means_in_sync(run: Seq<MirrorModel>, steps: Seq<MirrorStep>)
    requires
        run.len() == steps.len() + 1,
        run[0].starts(),
        forall|i: int| 0 <= i < steps.len() ==> (#[trigger] run[i]).steps_to(steps[i], run[i + 1]),
        run.last().state.phase is Ready,
        run.last().writes == Map::<u64, GuestWrite>::empty(),
    ensures
        run.last().source.take(run.last().state.total_bytes as int)
            == run.last().destination.take(run.last().state.total_bytes as int),
{
    lemma_every_run_is_consistent(run, steps);
    lemma_ready_mirror_is_in_sync(run.last());
}

/// Handing a done request to the guest is a step of the mirror: the end of its
/// write where the destination has the data too, else its failure.
pub proof fn lemma_completion_is_a_step(
    mirror: MirrorModel,
    start: u64,
    id: u64,
    request: InflightMutatingRequest,
)
    requires
        mirror.writes.contains_key(start),
        request.done(),
        request.guard matches Some(guard) && guard@ == start,
        request.dest_completion->0 >= 0 ==> mirror.writes[start].on_source
            && mirror.writes[start].on_destination,
    ensures
        ({
            let next = MirrorModel {
                state: queue::after_completion(mirror.state, id, request),
                writes: mirror.writes.remove(start),
                ..mirror
            };
            if request.dest_completion->0 >= 0 {
                mirror.steps_to(MirrorStep::EndWrite { start }, next)
            } else {
                mirror.steps_to(
                    MirrorStep::FailWrite {
                        start,
                        reason: reasons::completion_reason_text(id),
                        destination: mirror.destination,
                    },
                    next,
                )
            }
        }),
{
}

/// Taking the range of the next block, and moving past a block that was written,
/// are steps of the mirror.
pub proof fn lemma_copied_block_is_a_step(mirror: MirrorModel, max_length: usize)
    requires
        mirror.offset < mirror.state.total_bytes,
    ensures
        ({
            let length = worker::block_length(
                mirror.offset as int,
                mirror.state.total_bytes as int,
                max_length as int,
            ) as u64;
            let begun = MirrorModel {
                state: mirror.state.lock(mirror.offset, length),
                block: Some(BlockCopy { length: length as nat, data: None, written: false }),
                ..mirror
            };
            let ended = MirrorModel {
                state: mirror.state.count_copied(length).unlock(mirror.offset),
                offset: (mirror.offset + length) as u64,
                block: None,
                ..mirror
            };
            &&& mirror.block is None && ranges::lock_outcome(
                mirror.state.held,
                mirror.offset,
                length,
            ) is Granted ==> mirror.steps_to(
                MirrorStep::BeginBlock { max_length: max_length as nat },
                begun,
            )
            &&& mirror.block is Some && mirror.block->0.written && mirror.block->0.length == length
                ==> mirror.steps_to(MirrorStep::EndBlock, ended)
        }),
{
}

/// A range granted to a write is a step of the mirror, whichever request the
/// range is granted to.
pub proof fn lemma_granted_write_is_a_step(mirror: MirrorModel, start: u64, data: Seq<u8>)
    requires
        data.len() <= u64::MAX,
        ranges::lock_outcome(mirror.state.held, start, data.len() as u64) is Granted,
    ensures
        mirror.steps_to(
            MirrorStep::BeginWrite { start, data },
            MirrorModel {
                state: mirror.state.lock(start, data.len() as u64),
                writes: mirror.writes.insert(
                    start,
                    GuestWrite { data, on_source: false, on_destination: false },
                ),
                ..mirror
            },
        ),
{
}

/// What becomes of a request that does not reach the destination is a step of
/// the mirror: the source refuses it, or the mirror has failed and the request
/// passes through.
pub proof fn lemma_request_kept_from_the_destination_is_a_step(
    mirror: MirrorModel,
    start: u64,
    request: RequestView,
)
    requires
        mirror.writes.contains_key(start),
        request.guard matches Some(guard) && guard@ == start,
    ensures
        ({
            let next = MirrorModel {
                state: mirror.state.release(request.guard),
                writes: mirror.writes.remove(start),
                ..mirror
            };
            &&& !mirror.writes[start].on_source && !mirror.writes[start].on_destination
                ==> mirror.steps_to(MirrorStep::RefuseWrite { start }, next)
            &&& mirror.state.phase is Failed ==> mirror.steps_to(
                MirrorStep::PassWrite { start },
                next,
            )
        }),
{
}

/// A request that the destination refuses is a step of the mirror.
pub proof fn lemma_refused_by_the_destination_is_a_step(
    mirror: MirrorModel,
    start: u64,
    request: RequestView,
    error: Seq<char>,
)
    requires
        mirror.writes.contains_key(start),
        request.guard matches Some(guard) && guard@ == start,
    ensures
        ({
            let reason = reasons::submit_reason_text(
                request.op.label_text(),
                request.user_data,
                error,
            );
            mirror.steps_to(
                MirrorStep::FailWrite { start, reason, destination: mirror.destination },
                MirrorModel {
                    state: mirror.state.attempt(PhaseView::Failed(reason)).release(request.guard),
                    writes: mirror.writes.remove(start),
                    ..mirror
                },
            )
        }),
{
}

/// A transfer that fails is a step of the mirror, whatever it left of its block
/// on the destination.
pub proof fn lemma_failed_transfer_is_a_step(
    mirror: MirrorModel,
    transfer: TransferView,
    destination: Seq<u8>,
)
    requires
        mirror.block is Some,
        transfer.guard@ == mirror.offset,
        same_outside(
            mirror.destination,
            destination,
            mirror.offset as int,
            mirror.offset + mirror.block->0.length,
        ),
    ensures
        mirror.steps_to(
            MirrorStep::AbortBlock { destination },
            MirrorModel {
                destination,
                state: mirror.state.release(Some(transfer.guard)),
                block: None,
                ..mirror
            },
        ),
{
}

/// The end of the copy is a step of the mirror: the worker has covered the disk,
/// or it gave up with an error.
pub proof fn lemma_end_of_the_copy_is_a_step(mirror: MirrorModel, error: Seq<char>)
    ensures
        mirror.block is None && mirror.offset >= mirror.state.total_bytes ==> mirror.steps_to(
            MirrorStep::EndCopy,
            MirrorModel { state: mirror.state.attempt(PhaseView::Ready), ..mirror },
        ),
        mirror.steps_to(
            MirrorStep::FailCopy { reason: reasons::copy_reason_text(error) },
            MirrorModel {
                state: mirror.state.attempt(
                    PhaseView::Failed(reasons::copy_reason_text(error)),
                ),
                ..mirror
            },
        ),
{
}

/// Taking out the rejected moves for the log is a step of the mirror.
pub proof fn lemma_logging_is_a_step(mirror: MirrorModel)
    ensures
        mirror.steps_to(
            MirrorStep::TakeRejected,
            MirrorModel { state: mirror.state.without_rejected(), ..mirror },
        ),
{
}

/// A request without a range leaves the mirror as it is, unless the destination
/// refuses it or completes it with an error: then its failure is attempted.
pub proof fn lemma_unranged_request_is_a_step(
    mirror: MirrorModel,
    id: u64,
    request: InflightMutatingRequest,
    submitted: RequestView,
    error: Seq<char>,
)
    requires
        request.done(),
        request.guard is None,
        submitted.guard is None,
    ensures
        ({
            let state = queue::after_completion(mirror.state, id, request);
            let reason = reasons::completion_reason_text(id);
            if request.dest_completion->0 >= 0 {
                state == mirror.state
            } else {
                mirror.steps_to(
                    MirrorStep::Attempt { target: PhaseView::Failed(reason) },
                    MirrorModel { state, ..mirror },
                )
            }
        }),
        ({
            let reason = reasons::submit_reason_text(
                submitted.op.label_text(),
                submitted.user_data,
                error,
            );
            mirror.steps_to(
                MirrorStep::Attempt { target: PhaseView::Failed(reason) },
                MirrorModel {
                    state: mirror.state.attempt(PhaseView::Failed(reason)).release(
                        submitted.guard,
                    ),
                    ..mirror
                },
            )
        }),
{
}

/// When the worker moves past a block of a mirror that is syncing, both disks
/// hold the same bytes in it.
pub proof fn lemma_copied_block_is_equal(mirror: MirrorModel, next: MirrorModel)
    requires
        mirror.consistent(),
        syncing(mirror.state.phase),
        mirror.steps_to(MirrorStep::EndBlock, next),
    ensures
        next.offset == mirror.offset + mirror.block->0.length,
        next.source.subrange(mirror.offset as int, next.offset as int)
            == next.destination.subrange(mirror.offset as int, next.offset as int),
{
}

/// A read that ends short leaves zeros in the rest of its block, and nothing of
/// the blocks before it.
pub proof fn lemma_short_read_is_filled_with_zeros(buf: Seq<u8>, length: nat, data: Seq<u8>)
    requires
        data.len() <= length <= buf.len(),
    ensures
        write_at(worker::zeroed_prefix(buf, length as int), 0, data).take(length as int) == data
            + Seq::new((length - data.len()) as nat, |i: int| 0u8),
{
    assert(write_at(worker::zeroed_prefix(buf, length as int), 0, data).take(length as int) =~= data
        + Seq::new((length - data.len()) as nat, |i: int| 0u8));
}

/// Reading back what was written gives the data, and every other byte is as it
/// was.
pub proof fn lemma_written_data_is_read_back(bytes: Seq<u8>, start: int, data: Seq<u8>, p: int)
    requires
        0 <= start,
        start + data.len() <= bytes.len(),
    ensures
        write_at(bytes, start, data).len() == bytes.len(),
        write_at(bytes, start, data).subrange(start, start + data.len()) == data,
        0 <= p < bytes.len() && (p < start || start + data.len() <= p) ==> write_at(
            bytes,
            start,
            data,
        )[p] == bytes[p],
{
    assert(write_at(bytes, start, data).subrange(start, start + data.len()) =~= data);
}

/// A vectored write that is granted its range is a step of the mirror with the
/// data of its buffers, one buffer after the other: the range that it holds has
/// as many bytes as the buffers carry, from the offset of the write on.
pub proof fn lemma_vectored_write_holds_its_data(
    mirror: MirrorModel,
    after: MirrorStateView,
    as_error: spec_fn(RangeError) -> AsyncIoError,
    op: MirroredOp,
    offset: i64,
    iovecs: Seq<IoVec>,
    buffers: Seq<Seq<u8>>,
    user_data: u64,
    result: Result<Option<MirrorRequest>, AsyncIoError>,
)
    requires
        offset >= 0,
        buffers.len() == iovecs.len(),
        forall|i: int| 0 <= i < iovecs.len() ==> #[trigger] buffers[i].len() == iovecs[i].iov_len,
        queue::request_answered(
            ranges::lock_iovecs_outcome(mirror.state.held, offset, iovecs),
            as_error,
            op,
            user_data,
            ranges::unsigned_offset(offset) as u64,
            ranges::total_len(iovecs) as u64,
            mirror.state,
            after,
            result,
        ),
        result is Ok,
        result->Ok_0 is Some,
    ensures
        after.held.contains_key(offset as u64),
        after.held[offset as u64] - offset == buffers.flatten().len(),
        mirror.steps_to(
            MirrorStep::BeginWrite { start: offset as u64, data: buffers.flatten() },
            MirrorModel {
                state: after,
                writes: mirror.writes.insert(
                    offset as u64,
                    GuestWrite {
                        data: buffers.flatten(),
                        on_source: false,
                        on_destination: false,
                    },
                ),
                ..mirror
            },
        ),
{
    ranges::lemma_span_is_the_length_of_the_data(iovecs, buffers);
}

/// A step keeps the counter of copied bytes where the worker stands.
pub proof fn lemma_step_counts_what_it_copies(
    mirror: MirrorModel,
    step: MirrorStep,
    next: MirrorModel,
)
    requires
        mirror.consistent(),
        mirror.state.copied_bytes == mirror.offset,
        mirror.steps_to(step, next),
    ensures
        next.state.copied_bytes == next.offset,
        step is EndBlock ==> next.state.copied_bytes - mirror.state.copied_bytes
            == mirror.block->0.length,
        !(step is EndBlock) ==> next.state.copied_bytes == mirror.state.copied_bytes,
        next.state.total_bytes == mirror.state.total_bytes,
{
}

/// The progress that a mirror reports is what was copied: whatever steps it takes
/// from a start with nothing counted, the counter says where the worker stands,
/// and once the mirror is ready it says the size of the disk.
pub proof fn lemma_every_run_counts_what_it_copied(run: Seq<MirrorModel>, steps: Seq<MirrorStep>)
    requires
        run.len() == steps.len() + 1,
        run[0].starts(),
        run[0].state.copied_bytes == 0,
        forall|i: int| 0 <= i < steps.len() ==> (#[trigger] run[i]).steps_to(steps[i], run[i + 1]),
    ensures
        run.last().state.copied_bytes == run.last().offset,
        run.last().state.total_bytes == run[0].state.total_bytes,
        run.last().state.copied_bytes <= run.last().state.total_bytes,
        run.last().state.phase is Ready ==> run.last().state.copied_bytes
            == run.last().state.total_bytes,
    decreases steps.len(),
{
    lemma_every_run_is_consistent(run, steps);
    if steps.len() > 0 {
        let n = steps.len() - 1;
        assert forall|i: int| 0 <= i < n implies (#[trigger] run.drop_last()[i]).steps_to(
            steps.drop_last()[i],
            run.drop_last()[i + 1],
        ) by {
            assert(run[i].steps_to(steps[i], run[i + 1]));
        }
        lemma_every_run_counts_what_it_copied(run.drop_last(), steps.drop_last());
        lemma_every_run_is_consistent(run.drop_last(), steps.drop_last());
        assert(run[n].steps_to(steps[n], run[n + 1]));
        lemma_step_counts_what_it_copies(run[n], steps[n], run[n + 1]);
    }
}

} // verus!
