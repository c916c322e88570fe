//! The state that the copy worker and the queues of a mirror share.

use crate::phase;
use crate::phase::{MirrorPhase, PhaseView, Transition};
use crate::ranges;
use crate::ranges::{IoVec, RangeError, RangeGuard, RangeLockManager};
use vstd::prelude::*;

verus! {

/// State shared by the copy worker and the mirroring queues: the phase, the
/// held ranges and the progress counters. Its owner keeps it behind one lock,
/// so that every method acts on it alone.
pub struct MirrorState {
    /// Current phase of the mirror.
    phase: MirrorPhase,
    range_locks: RangeLockManager,
    copied_bytes: u64,
    total_bytes: u64,
    /// Attempted moves that were not allowed and are not in the log yet, each
    /// with the phase it was attempted in.
    rejected: Vec<(MirrorPhase, MirrorPhase)>,
}

/// A [`MirrorState`] as contracts speak of it.
#[verifier::ext_equal]
pub struct MirrorStateView {
    pub phase: PhaseView,
    /// Held ranges as `start -> end_exclusive`.
    pub held: Map<u64, u64>,
    pub copied_bytes: u64,
    pub total_bytes: u64,
    /// Rejected moves that are still to be logged: from which phase to which.
    pub rejected: Seq<(PhaseView, PhaseView)>,
}

/// Attempted moves as contracts speak of them.
pub open spec fn moves_view(moves: Seq<(MirrorPhase, MirrorPhase)>) -> Seq<(PhaseView, PhaseView)> {
    moves.map_values(|m: (MirrorPhase, MirrorPhase)| (m.0@, m.1@))
}

impl View for MirrorState {
    type V = MirrorStateView;

    closed spec fn view(&self) -> MirrorStateView {
        MirrorStateView {
            phase: self.phase@,
            held: self.range_locks@,
            copied_bytes: self.copied_bytes,
            total_bytes: self.total_bytes,
            rejected: moves_view(self.rejected@),
        }
    }
}

/// A snapshot of a mirror's phase and progress.
pub struct MirrorStatus {
    pub phase: MirrorPhase,
    pub copied_bytes: u64,
    pub total_bytes: u64,
}

impl MirrorStateView {
    /// The state after an attempt to move to phase `target`. An attempt that is
    /// not allowed leaves the phase and is noted for the log.
    pub open spec fn attempt(self, target: PhaseView) -> MirrorStateView {
        MirrorStateView {
            phase: self.phase.attempt(target),
            rejected: if phase::transition_kind(self.phase, target) == Transition::Rejected {
                self.rejected.push((self.phase, target))
            } else {
                self.rejected
            },
            ..self
        }
    }

    /// The state after `[start, start + length)` was locked.
    pub open spec fn lock(self, start: u64, length: u64) -> MirrorStateView {
        MirrorStateView { held: self.held.insert(start, (start + length) as u64), ..self }
    }

    /// The state after the range that begins at `start` was released.
    pub open spec fn unlock(self, start: u64) -> MirrorStateView {
        MirrorStateView { held: self.held.remove(start), ..self }
    }

    /// The state after the range of `guard` was released, where there is one.
    pub open spec fn release(self, guard: Option<RangeGuard>) -> MirrorStateView {
        match guard {
            Some(guard) => self.unlock(guard@),
            None => self,
        }
    }

    /// The state after the rejected moves were taken out for the log.
    pub open spec fn without_rejected(self) -> MirrorStateView {
        MirrorStateView { rejected: Seq::empty(), ..self }
    }

    /// The state after `length` more bytes were copied. The counter wraps around.
    pub open spec fn count_copied(self, length: u64) -> MirrorStateView {
        MirrorStateView { copied_bytes: wrapping_sum(self.copied_bytes, length), ..self }
    }
}

impl MirrorState {
    /// What every method keeps: no two held ranges share a byte.
    pub open spec fn wf(&self) -> bool {
        ranges::disjoint_ranges(self@.held)
    }

    /// The state of a mirror that starts: running, with nothing copied yet.
    pub fn new(logical_disk_size: u64) -> (state: Self)
        ensures
            state.wf(),
            state@ == (MirrorStateView {
                phase: PhaseView::Running,
                held: Map::empty(),
                copied_bytes: 0,
                total_bytes: logical_disk_size,
                rejected: Seq::empty(),
            }),
    {
        let state = Self {
            phase: MirrorPhase::Running,
            range_locks: RangeLockManager::new(),
            copied_bytes: 0,
            total_bytes: logical_disk_size,
            rejected: Vec::new(),
        };
        proof {
            assert(state@.rejected =~= Seq::empty());
        }
        state
    }

    /// Returns a snapshot of the current phase.
    pub fn phase(&self) -> (phase: MirrorPhase)
        ensures
            phase@ == self@.phase,
    {
        self.phase.clone()
    }

    /// Attempts a phase transition. Only the documented transitions are
    /// applied. Any other attempt is ignored and logged: it is noted until
    /// [`Self::take_rejected`] hands it to whoever writes the log.
    ///
    /// Allowed transitions:
    /// ```text
    /// Running    -> Ready | Cancelling | Failed(_)
    /// Ready      -> Completing | Cancelling | Failed(_)
    /// Completing -> Completed
    /// Failed(_)  -> Cancelling
    /// ```
    /// Plus idempotent self-transitions. `Completed` and `Cancelling` are
    /// terminal.
    pub fn transition_to_phase(&mut self, target: MirrorPhase)
        requires
            old(self).wf(),
        ensures
            final(self).wf(),
            final(self)@ == old(self)@.attempt(target@),
    {
        match self.phase.transition(&target) {
            Transition::Unchanged => {},
            Transition::Applied => self.phase = target,
            Transition::Rejected => {
                let current = self.phase();
                self.rejected.push((current, target));
                proof {
                    assert(self@.rejected =~= old(self)@.rejected.push(
                        (old(self)@.phase, target@),
                    ));
                }
            },
        }
    }

    /// Hands out the rejected moves that are not in the log yet, oldest first:
    /// each as the phase it was attempted in and the phase that was asked for.
    pub fn take_rejected(&mut self) -> (rejected: Vec<(MirrorPhase, MirrorPhase)>)
        requires
            old(self).wf(),
        ensures
            final(self).wf(),
            moves_view(rejected@) == old(self)@.rejected,
            final(self)@ == old(self)@.without_rejected(),
    {
        let mut rejected: Vec<(MirrorPhase, MirrorPhase)> = Vec::new();
        std::mem::swap(&mut rejected, &mut self.rejected);
        proof {
            assert(self@.rejected =~= Seq::empty());
        }
        rejected
    }

    /// The phase and the progress counters.
    pub fn status(&self) -> (status: MirrorStatus)
        ensures
            status.phase@ == self@.phase,
            status.copied_bytes == self@.copied_bytes,
            status.total_bytes == self@.total_bytes,
    {
        MirrorStatus {
            phase: self.phase(),
            copied_bytes: self.copied_bytes,
            total_bytes: self.total_bytes,
        }
    }

    /// Asks for the range `[offset, offset + length)`, as
    /// [`RangeLockManager::lock_range`] does.
    pub(crate) fn lock_range(&mut self, offset: u64, length: u64) -> (result: Result<
        Option<RangeGuard>,
        RangeError,
    >)
        requires
            old(self).wf(),
        ensures
            final(self).wf(),
            final(self)@ == (MirrorStateView { held: final(self)@.held, ..old(self)@ }),
            ranges::lock_answered(
                ranges::lock_outcome(old(self)@.held, offset, length),
                offset,
                length,
                old(self)@.held,
                final(self)@.held,
                result,
            ),
    {
        self.range_locks.lock_range(offset, length)
    }

    /// Asks for the bytes of `iovecs` from `offset` on, as
    /// [`RangeLockManager::lock_iovecs`] does.
    pub(crate) fn lock_iovecs(&mut self, offset: i64, iovecs: &[IoVec]) -> (result: Result<
        Option<RangeGuard>,
        RangeError,
    >)
        requires
            old(self).wf(),
        ensures
            final(self).wf(),
            final(self)@ == (MirrorStateView { held: final(self)@.held, ..old(self)@ }),
            ranges::lock_answered(
                ranges::lock_iovecs_outcome(old(self)@.held, offset, iovecs@),
                ranges::unsigned_offset(offset) as u64,
                ranges::total_len(iovecs@) as u64,
                old(self)@.held,
                final(self)@.held,
                result,
            ),
    {
        self.range_locks.lock_iovecs(offset, iovecs)
    }

    /// Releases the range of `guard`, where there is one.
    pub(crate) fn release(&mut self, guard: Option<RangeGuard>)
        requires
            old(self).wf(),
        ensures
            final(self).wf(),
            final(self)@ == old(self)@.release(guard),
    {
        if let Some(guard) = guard {
            self.range_locks.release(guard);
        }
    }

    /// The bytes that the copy worker has to cover.
    pub(crate) fn total_bytes(&self) -> (total: u64)
        ensures
            total == self@.total_bytes,
    {
        self.total_bytes
    }

    /// Counts `length` more bytes as copied. The counter wraps around.
    pub(crate) fn add_copied_bytes(&mut self, length: u64)
        requires
            old(self).wf(),
        ensures
            final(self).wf(),
            final(self)@ == old(self)@.count_copied(length),
    {
        self.copied_bytes = self.copied_bytes.wrapping_add(length);
    }
}

/// `a + b` modulo the range of 64 bits.
pub open spec fn wrapping_sum(a: u64, b: u64) -> u64 {
    if a + b <= u64::MAX {
        (a + b) as u64
    } else {
        (a + b - 0x1_0000_0000_0000_0000) as u64
    }
}

/// `a + b` without its part beyond 64 bits: the sum itself where it fits, and
/// always the one number that differs from it by a multiple of 2 to the 64th.
pub proof fn lemma_wrapping_sum_is_the_sum(a: u64, b: u64)
    ensures
        (a + b - wrapping_sum(a, b)) % 0x1_0000_0000_0000_0000 == 0,
        a + b <= 0xffff_ffff_ffff_ffff ==> wrapping_sum(a, b) == a + b,
{
}

/// What an attempt does to the shared state, whatever the size of the disk, the
/// progress and the held ranges: the phase becomes the target exactly where the
/// documented moves lead there, and stays what it was otherwise. Nothing but the
/// phase and the notes for the log changes.
pub proof fn lemma_attempt_moves_the_shared_phase(state: MirrorStateView, target: PhaseView)
    ensures
        ({
            let after = state.attempt(target);
            let allowed = match target {
                PhaseView::Running => false,
                PhaseView::Ready => state.phase is Running,
                PhaseView::Completing => state.phase is Ready,
                PhaseView::Completed => state.phase is Completing,
                PhaseView::Cancelling => state.phase is Running || state.phase is Ready
                    || state.phase is Failed,
                PhaseView::Failed(_) => state.phase is Running || state.phase is Ready,
            };
            &&& allowed ==> after.phase == target
            &&& !allowed ==> after.phase == state.phase
            &&& after.held == state.held
            &&& after.copied_bytes == state.copied_bytes
            &&& after.total_bytes == state.total_bytes
        }),
{
}

/// Two states in the same phase are in the same phase after the same attempt.
pub proof fn lemma_attempt_depends_on_the_phase_only(
    state: MirrorStateView,
    other: MirrorStateView,
    target: PhaseView,
)
    requires
        state.phase == other.phase,
    ensures
        state.attempt(target).phase == other.attempt(target).phase,
{
}

/// A mirror that is running can be taken to its end: ready, completing,
/// completed, whatever else its state holds.
pub proof fn lemma_every_mirror_can_be_completed(state: MirrorStateView)
    requires
        state.phase is Running,
    ensures
        state.attempt(PhaseView::Ready).phase is Ready,
        state.attempt(PhaseView::Ready).attempt(PhaseView::Completing).phase is Completing,
        state.attempt(PhaseView::Ready).attempt(PhaseView::Completing).attempt(
            PhaseView::Completed,
        ).phase is Completed,
{
}

/// An attempt is noted for the log, behind the earlier ones, exactly when it was
/// neither carried out nor to a phase of the kind that the mirror is in.
pub proof fn lemma_only_rejected_attempts_are_noted(state: MirrorStateView, target: PhaseView)
    ensures
        ({
            let after = state.attempt(target);
            let same_kind = (state.phase is Running && target is Running) || (state.phase is Ready
                && target is Ready) || (state.phase is Completing && target is Completing) || (
            state.phase is Completed && target is Completed) || (state.phase is Cancelling
                && target is Cancelling) || (state.phase is Failed && target is Failed);
            if after.phase == target || same_kind {
                after.rejected == state.rejected
            } else {
                &&& after.rejected.len() == state.rejected.len() + 1
                &&& after.rejected.last() == (state.phase, target)
                &&& after.rejected.drop_last() == state.rejected
            }
        }),
{
    let after = state.attempt(target);
    if after.rejected.len() > state.rejected.len() {
        assert(after.rejected.drop_last() =~= state.rejected);
    }
}

/// The moves handed out for the log are the noted ones, one for one.
pub proof fn lemma_moves_are_viewed_one_for_one(moves: Seq<(MirrorPhase, MirrorPhase)>, i: int)
    requires
        0 <= i < moves.len(),
    ensures
        moves_view(moves).len() == moves.len(),
        moves_view(moves)[i].0 == moves[i].0@,
        moves_view(moves)[i].1 == moves[i].1@,
{
}

/// Locking a range adds it under its start, with its end, and changes nothing
/// else; releasing it takes it away again and changes nothing else.
pub proof fn lemma_lock_and_unlock_touch_one_range(
    state: MirrorStateView,
    start: u64,
    length: u64,
    k: u64,
)
    requires
        start + length <= u64::MAX,
    ensures
        state.lock(start, length).held.contains_key(start),
        state.lock(start, length).held[start] - start == length,
        !state.unlock(start).held.contains_key(start),
        k != start ==> (state.lock(start, length).held.contains_key(k) <==> state.held.contains_key(
            k,
        )) && (state.unlock(start).held.contains_key(k) <==> state.held.contains_key(k)),
        k != start && state.held.contains_key(k) ==> state.lock(start, length).held[k]
            == state.held[k] && state.unlock(start).held[k] == state.held[k],
        !state.held.contains_key(start) ==> state.lock(start, length).unlock(start) == state,
        state.lock(start, length) == (MirrorStateView {
            held: state.lock(start, length).held,
            ..state
        }),
        state.unlock(start) == (MirrorStateView { held: state.unlock(start).held, ..state }),
{
    if !state.held.contains_key(start) {
        assert(state.lock(start, length).unlock(start).held =~= state.held);
    }
}

/// Giving a guard back releases the range that begins where it says; without a
/// guard nothing happens.
pub proof fn lemma_release_is_of_the_guards_range(state: MirrorStateView, guard: RangeGuard, k: u64)
    ensures
        state.release(None) == state,
        state.release(Some(guard)).held.contains_key(k) <==> state.held.contains_key(k) && k
            != guard@,
        state.release(Some(guard)).held.contains_key(k) ==> state.release(Some(guard)).held[k]
            == state.held[k],
        state.release(Some(guard)) == (MirrorStateView {
            held: state.release(Some(guard)).held,
            ..state
        }),
{
}

/// Counting a block adds its full length to the counter of the state, modulo its
/// 64 bits, and changes nothing else; blocks counted one after the other add up.
pub proof fn lemma_counted_bytes_add_up(state: MirrorStateView, first: u64, second: u64)
    ensures
        (state.copied_bytes + first - state.count_copied(first).copied_bytes)
            % 0x1_0000_0000_0000_0000 == 0,
        state.copied_bytes + first <= 0xffff_ffff_ffff_ffff ==> state.count_copied(
            first,
        ).copied_bytes - state.copied_bytes == first,
        state.copied_bytes + first + second <= 0xffff_ffff_ffff_ffff ==> state.count_copied(
            first,
        ).count_copied(second).copied_bytes - state.copied_bytes == first + second,
        state.count_copied(first) == (MirrorStateView {
            copied_bytes: state.count_copied(first).copied_bytes,
            ..state
        }),
{
}

/// Taking out the notes for the log leaves none and changes nothing else.
pub proof fn lemma_log_is_emptied(state: MirrorStateView)
    ensures
        state.without_rejected().rejected.len() == 0,
        state.without_rejected().phase == state.phase,
        state.without_rejected().held == state.held,
        state.without_rejected().copied_bytes == state.copied_bytes,
        state.without_rejected().total_bytes == state.total_bytes,
{
}

} // verus!
