//! The phases of a mirror and the moves between them.

use vstd::prelude::*;

verus! {

/// Phase of a mirror.
#[derive(Debug, PartialEq, Eq)]
pub enum MirrorPhase {
    /// Background copy is in progress.
    Running,
    /// All blocks copied. Source and destination are in sync.
    Ready,
    /// Switch-over to the destination is in progress.
    Completing,
    /// All virtqueues switched to the destination.
    Completed,
    /// Mirror cancellation is in progress.
    Cancelling,
    /// The mirror has failed.
    Failed(String),
}

/// A [`MirrorPhase`] as contracts speak of it: a failure by the characters of
/// its reason.
pub enum PhaseView {
    Running,
    Ready,
    Completing,
    Completed,
    Cancelling,
    Failed(Seq<char>),
}

impl View for MirrorPhase {
    type V = PhaseView;

    open spec fn view(&self) -> PhaseView {
        match self {
            MirrorPhase::Running => PhaseView::Running,
            MirrorPhase::Ready => PhaseView::Ready,
            MirrorPhase::Completing => PhaseView::Completing,
            MirrorPhase::Completed => PhaseView::Completed,
            MirrorPhase::Cancelling => PhaseView::Cancelling,
            MirrorPhase::Failed(reason) => PhaseView::Failed(reason@),
        }
    }
}

impl Clone for MirrorPhase {
    fn clone(&self) -> (copy: Self)
        ensures
            copy == *self,
    {
        match self {
            MirrorPhase::Running => MirrorPhase::Running,
            MirrorPhase::Ready => MirrorPhase::Ready,
            MirrorPhase::Completing => MirrorPhase::Completing,
            MirrorPhase::Completed => MirrorPhase::Completed,
            MirrorPhase::Cancelling => MirrorPhase::Cancelling,
            MirrorPhase::Failed(reason) => MirrorPhase::Failed(reason.clone()),
        }
    }
}

/// What an attempted move to a phase comes to.
#[derive(Debug, Clone, Copy, PartialEq, Eq, Structural)]
pub enum Transition {
    /// The mirror is in a phase of that kind already.
    Unchanged,
    /// The move is allowed.
    Applied,
    /// The move is not allowed.
    Rejected,
}

impl PhaseView {
    /// Both phases are of one kind. Two failures are, whatever their reasons.
    pub open spec fn same_kind(self, other: PhaseView) -> bool {
        match self {
            PhaseView::Running => other is Running,
            PhaseView::Ready => other is Ready,
            PhaseView::Completing => other is Completing,
            PhaseView::Completed => other is Completed,
            PhaseView::Cancelling => other is Cancelling,
            PhaseView::Failed(_) => other is Failed,
        }
    }

    /// The moves that a mirror makes from one kind of phase to another:
    ///
    /// ```text
    /// Running    -> Ready | Cancelling | Failed(_)
    /// Ready      -> Completing | Cancelling | Failed(_)
    /// Completing -> Completed
    /// Failed(_)  -> Cancelling
    /// ```
    pub open spec fn may_become(self, target: PhaseView) -> bool {
        match self {
            PhaseView::Running => target is Ready || target is Cancelling || target is Failed,
            PhaseView::Ready => target is Completing || target is Cancelling || target is Failed,
            PhaseView::Completing => target is Completed,
            PhaseView::Failed(_) => target is Cancelling,
            PhaseView::Completed => false,
            PhaseView::Cancelling => false,
        }
    }

    /// The phase after an attempt to move to `target`.
    pub open spec fn attempt(self, target: PhaseView) -> PhaseView {
        if self.may_become(target) {
            target
        } else {
            self
        }
    }

    /// The phase after the attempts to move to each of `targets` in turn.
    pub open spec fn attempt_all(self, targets: Seq<PhaseView>) -> PhaseView
        decreases targets.len(),
    {
        if targets.len() == 0 {
            self
        } else {
            self.attempt_all(targets.drop_last()).attempt(targets.last())
        }
    }
}

/// What the attempt to move from `current` to `target` comes to.
pub open spec fn transition_kind(current: PhaseView, target: PhaseView) -> Transition {
    if current.same_kind(target) {
        Transition::Unchanged
    } else if current.may_become(target) {
        Transition::Applied
    } else {
        Transition::Rejected
    }
}

impl MirrorPhase {
    /// What an attempt to move to `target` comes to. A rejected attempt is
    /// worth a line in the log.
    pub fn transition(&self, target: &MirrorPhase) -> (kind: Transition)
        ensures
            kind == transition_kind(self@, target@),
    {
        match (self, target) {
            (MirrorPhase::Running, MirrorPhase::Running)
            | (MirrorPhase::Ready, MirrorPhase::Ready)
            | (MirrorPhase::Completing, MirrorPhase::Completing)
            | (MirrorPhase::Completed, MirrorPhase::Completed)
            | (MirrorPhase::Cancelling, MirrorPhase::Cancelling)
            | (MirrorPhase::Failed(_), MirrorPhase::Failed(_)) => Transition::Unchanged,
            (MirrorPhase::Running, MirrorPhase::Ready)
            | (MirrorPhase::Running, MirrorPhase::Cancelling)
            | (MirrorPhase::Running, MirrorPhase::Failed(_))
            | (MirrorPhase::Ready, MirrorPhase::Completing)
            | (MirrorPhase::Ready, MirrorPhase::Cancelling)
            | (MirrorPhase::Ready, MirrorPhase::Failed(_))
            | (MirrorPhase::Completing, MirrorPhase::Completed)
            | (MirrorPhase::Failed(_), MirrorPhase::Cancelling) => Transition::Applied,
            _ => Transition::Rejected,
        }
    }
}

/// `Completed` and `Cancelling` are terminal: no attempts lead out of them.
pub proof fn lemma_terminal_phases_stay(phase: PhaseView, targets: Seq<PhaseView>)
    requires
        phase is Completed || phase is Cancelling,
    ensures
        phase.attempt_all(targets) == phase,
    decreases targets.len(),
{
    if targets.len() > 0 {
        lemma_terminal_phases_stay(phase, targets.drop_last());
    }
}

/// Attempting the same move twice comes to the same as attempting it once.
pub proof fn lemma_attempt_is_idempotent(phase: PhaseView, target: PhaseView)
    ensures
        phase.attempt(target).attempt(target) == phase.attempt(target),
{
}

/// A failed mirror keeps its first reason until it is cancelled, and it never
/// becomes ready, completing or completed.
pub proof fn lemma_failure_is_kept(reason: Seq<char>, targets: Seq<PhaseView>)
    ensures
        PhaseView::Failed(reason).attempt_all(targets) == PhaseView::Failed(reason)
            || PhaseView::Failed(reason).attempt_all(targets) == PhaseView::Cancelling,
    decreases targets.len(),
{
    if targets.len() > 0 {
        lemma_failure_is_kept(reason, targets.drop_last());
    }
}

/// Once the switch-over has begun it can only run to its end: no failure and no
/// cancellation takes effect any more.
pub proof fn lemma_switch_over_runs_to_its_end(targets: Seq<PhaseView>)
    ensures
        PhaseView::Completing.attempt_all(targets) is Completing
            || PhaseView::Completing.attempt_all(targets) is Completed,
    decreases targets.len(),
{
    if targets.len() > 0 {
        lemma_switch_over_runs_to_its_end(targets.drop_last());
    }
}

/// A mirror that started out running and is completed was ready first, then
/// completing, then completed, in this order.
pub proof fn lemma_completed_only_through_ready(targets: Seq<PhaseView>)
    requires
        PhaseView::Running.attempt_all(targets) is Completed,
    ensures
        exists|i: int, j: int, k: int|
            0 <= i < j < k < targets.len() && #[trigger] targets[i] is Ready
                && #[trigger] targets[j] is Completing && #[trigger] targets[k] is Completed
                && PhaseView::Running.attempt_all(targets.take(i + 1)) is Ready
                && PhaseView::Running.attempt_all(targets.take(j + 1)) is Completing
                && PhaseView::Running.attempt_all(targets.take(k + 1)) is Completed,
{
    let k = lemma_entered_by_attempt(targets, PhaseView::Completed);
    let before_k = targets.take(k);
    let j = lemma_entered_by_attempt(before_k, PhaseView::Completing);
    let before_j = before_k.take(j);
    let i = lemma_entered_by_attempt(before_j, PhaseView::Ready);
    assert(before_j == targets.take(j));
    assert(before_k.take(j + 1) == targets.take(j + 1));
    assert(before_j.take(i + 1) == targets.take(i + 1));
    assert(targets[i] == before_j[i]);
    assert(targets[j] == before_k[j]);
}

/// Where the attempt stands that took a mirror into `phase` when it is still
/// there after all of `targets`.
proof fn lemma_entered_by_attempt(targets: Seq<PhaseView>, phase: PhaseView) -> (i: int)
    requires
        !(phase is Running),
        !(phase is Failed),
        PhaseView::Running.attempt_all(targets) == phase,
    ensures
        0 <= i < targets.len(),
        targets[i] == phase,
        PhaseView::Running.attempt_all(targets.take(i)).may_become(phase),
        PhaseView::Running.attempt_all(targets.take(i + 1)) == phase,
    decreases targets.len(),
{
    let before = targets.drop_last();
    if PhaseView::Running.attempt_all(before) == phase {
        let i = lemma_entered_by_attempt(before, phase);
        assert(before.take(i) == targets.take(i));
        assert(before.take(i + 1) == targets.take(i + 1));
        i
    } else {
        let i = targets.len() - 1;
        assert(targets.take(i) == before);
        assert(targets.take(i + 1) == targets);
        i
    }
}

/// The view tells the phases apart and keeps the reason of a failure.
pub proof fn lemma_view_tells_phases_apart(phase: MirrorPhase)
    ensures
        phase is Running <==> phase@ is Running,
        phase is Ready <==> phase@ is Ready,
        phase is Completing <==> phase@ is Completing,
        phase is Completed <==> phase@ is Completed,
        phase is Cancelling <==> phase@ is Cancelling,
        phase is Failed <==> phase@ is Failed,
        phase is Failed ==> phase@->Failed_0 == phase->Failed_0@,
{
}

/// The table of moves, in words of the phases alone: the copy leads from
/// `Running` to `Ready`, the switch-over from `Ready` over `Completing` to
/// `Completed`; a mirror that is running or ready can fail, and one that is
/// running, ready or failed can be cancelled. Nothing else is a move.
pub proof fn lemma_moves_are_the_documented_ones(phase: PhaseView, target: PhaseView)
    ensures
        target is Running ==> !phase.may_become(target),
        target is Ready ==> (phase.may_become(target) <==> phase is Running),
        target is Completing ==> (phase.may_become(target) <==> phase is Ready),
        target is Completed ==> (phase.may_become(target) <==> phase is Completing),
        target is Cancelling ==> (phase.may_become(target) <==> phase is Running || phase is Ready
            || phase is Failed),
        target is Failed ==> (phase.may_become(target) <==> phase is Running || phase is Ready),
        phase.attempt(target) == target || phase.attempt(target) == phase,
        phase.may_become(target) ==> phase.attempt(target) == target,
        !phase.may_become(target) ==> phase.attempt(target) == phase,
{
}

/// A move is rejected when it is neither allowed nor to a phase of the same
/// kind; a phase of the same kind is no move, whatever the reasons of failures.
pub proof fn lemma_transition_kinds(phase: PhaseView, target: PhaseView)
    ensures
        transition_kind(phase, target) == Transition::Unchanged <==> (phase is Running
            && target is Running) || (phase is Ready && target is Ready) || (phase is Completing
            && target is Completing) || (phase is Completed && target is Completed) || (
        phase is Cancelling && target is Cancelling) || (phase is Failed && target is Failed),
        transition_kind(phase, target) == Transition::Applied <==> phase.may_become(target),
{
}

/// Attempts follow one another: those of one list and then those of another come
/// to the same as those of both.
pub proof fn lemma_attempts_follow_one_another(
    phase: PhaseView,
    first: Seq<PhaseView>,
    later: Seq<PhaseView>,
    target: PhaseView,
)
    ensures
        phase.attempt_all(Seq::empty()) == phase,
        phase.attempt_all(seq![target]) == phase.attempt(target),
        phase.attempt_all(first + later) == phase.attempt_all(first).attempt_all(later),
    decreases later.len(),
{
    assert(seq![target].drop_last() =~= Seq::<PhaseView>::empty());
    assert(phase.attempt_all(Seq::empty()) == phase);
    if later.len() == 0 {
        assert(first + later =~= first);
    } else {
        lemma_attempts_follow_one_another(phase, first, later.drop_last(), target);
        assert((first + later).drop_last() =~= first + later.drop_last());
        assert((first + later).last() == later.last());
    }
}

} // verus!
