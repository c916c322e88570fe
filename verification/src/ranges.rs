//! Exclusive byte ranges, shared by the copy worker and the mirrored writes.

use std::collections::btree_map::Range;
use std::collections::BTreeMap;
use vstd::prelude::*;

verus! {

broadcast use {vstd::std_specs::btree::group_btree_axioms, vstd::laws_cmp::group_laws_cmp};

/// Whether some range of `held` (start to exclusive end) begins before `end`
/// and reaches past `start`.
pub open spec fn overlaps(held: Map<u64, u64>, start: int, end: int) -> bool {
    exists|k: u64| #[trigger] held.contains_key(k) && k < end && start < held[k]
}

/// The held ranges are non-empty and no two of them share a byte.
pub open spec fn disjoint_ranges(held: Map<u64, u64>) -> bool {
    &&& forall|k: u64| #[trigger] held.contains_key(k) ==> k < held[k]
    &&& forall|a: u64, b: u64| #[trigger]
        held.contains_key(a) && #[trigger] held.contains_key(b) && a < b ==> held[a] <= b
}

/// The iterator that `BTreeMap::range` hands out.
#[verifier::external_type_specification]
#[verifier::external_body]
#[verifier::reject_recursive_types(K)]
#[verifier::reject_recursive_types(V)]
pub struct ExRange<'a, K, V>(Range<'a, K, V>);

/// The entries that a range iterator has yet to hand out.
pub uninterp spec fn range_entries(range: Range<'_, u64, u64>) -> Map<u64, u64>;

/// Calls `BTreeMap::range` with the bound `..end`: the iterator covers the
/// entries of the map whose key is below `end`.
#[verifier::external_body]
fn entries_below<'a>(map: &'a BTreeMap<u64, u64>, end: u64) -> (entries: Range<'a, u64, u64>)
    ensures
        range_entries(entries) == map@.restrict(Set::new(|k: u64| k < end)),
{
    map.range(..end)
}

/// Calls `Range::next_back`: takes the entry with the greatest key, or gives
/// `None` where no entry is left.
#[verifier::external_body]
fn take_last(entries: &mut Range<'_, u64, u64>) -> (last: Option<(u64, u64)>)
    ensures
        match last {
            Some((key, value)) => {
                &&& range_entries(*old(entries)).contains_key(key)
                &&& range_entries(*old(entries))[key] == value
                &&& forall|k: u64| #[trigger]
                    range_entries(*old(entries)).contains_key(k) ==> k <= key
                &&& range_entries(*final(entries)) == range_entries(*old(entries)).remove(key)
            },
            None => {
                &&& range_entries(*old(entries)) == Map::<u64, u64>::empty()
                &&& range_entries(*final(entries)) == range_entries(*old(entries))
            },
        },
{
    match entries.next_back() {
        Some((key, value)) => Some((*key, *value)),
        None => None,
    }
}

/// Why a range cannot be locked at all.
#[derive(Debug, Clone, Copy, PartialEq, Eq, Structural)]
pub enum RangeError {
    /// The range has no bytes.
    ZeroLength,
    /// The end of the range does not fit in 64 bits.
    Overflow,
    /// The lengths of the buffers add up to more than 64 bits hold.
    IovecLengthOverflow,
}

impl RangeError {
    /// The text of the error.
    pub open spec fn text(self) -> Seq<char> {
        match self {
            RangeError::ZeroLength => "Range length is zero"@,
            RangeError::Overflow => "Range overflow"@,
            RangeError::IovecLengthOverflow => "iovec length overflow"@,
        }
    }

    /// The text of the error.
    pub fn message(&self) -> (message: &'static str)
        ensures
            message@ == self.text(),
    {
        match self {
            RangeError::ZeroLength => "Range length is zero",
            RangeError::Overflow => "Range overflow",
            RangeError::IovecLengthOverflow => "iovec length overflow",
        }
    }
}

/// One buffer of a vectored request. Only its length matters for locking.
#[derive(Debug, Clone, Copy, PartialEq, Eq, Structural)]
pub struct IoVec {
    pub iov_len: usize,
}

/// The bytes that `iovecs` span together.
pub open spec fn total_len(iovecs: Seq<IoVec>) -> nat
    decreases iovecs.len(),
{
    if iovecs.len() == 0 {
        0
    } else {
        total_len(iovecs.drop_last()) + iovecs.last().iov_len as nat
    }
}

/// A prefix of the buffers spans no more than all of them.
proof fn lemma_total_len_prefix(iovecs: Seq<IoVec>, n: int)
    requires
        0 <= n <= iovecs.len(),
    ensures
        total_len(iovecs.take(n)) <= total_len(iovecs),
    decreases iovecs.len(),
{
    if n == iovecs.len() {
        assert(iovecs.take(n) == iovecs);
    } else {
        lemma_total_len_prefix(iovecs.drop_last(), n);
        assert(iovecs.drop_last().take(n) == iovecs.take(n));
    }
}

/// The bytes that `iovecs` span together, or `None` where 64 bits cannot hold
/// the sum.
fn iovec_length(iovecs: &[IoVec]) -> (length: Option<u64>)
    ensures
        length == (if total_len(iovecs@) <= u64::MAX {
            Some(total_len(iovecs@) as u64)
        } else {
            None
        }),
{
    let mut acc: u64 = 0;
    for i in 0..iovecs.len()
        invariant
            acc == total_len(iovecs@.take(i as int)),
    {
        proof {
            assert(iovecs@.take(i + 1).drop_last() == iovecs@.take(i as int));
            lemma_total_len_prefix(iovecs@, i + 1);
        }
        match acc.checked_add(iovecs[i].iov_len as u64) {
            Some(sum) => acc = sum,
            None => return None,
        }
    }
    proof {
        assert(iovecs@.take(iovecs@.len() as int) == iovecs@);
    }
    Some(acc)
}

/// A signed file offset read as an unsigned 64-bit number.
pub open spec fn unsigned_offset(offset: i64) -> int {
    if offset >= 0 {
        offset as int
    } else {
        offset + 0x1_0000_0000_0000_0000
    }
}

/// A signed file offset read as an unsigned 64-bit number.
fn offset_to_u64(offset: i64) -> (unsigned: u64)
    ensures
        unsigned == unsigned_offset(offset),
{
    let unsigned = #[verifier::truncate]
    (offset as u64);
    assert(offset >= 0 ==> unsigned == offset) by (bit_vector)
        requires
            unsigned == offset as u64,
    ;
    assert(offset < 0 ==> unsigned == offset + 0x1_0000_0000_0000_0000) by (bit_vector)
        requires
            unsigned == offset as u64,
    ;
    unsigned
}

/// A range held in a [`RangeLockManager`]. Giving it back with
/// [`RangeLockManager::release`] frees the range.
#[derive(Debug, PartialEq, Eq)]
pub struct RangeGuard {
    start: u64,
}

impl View for RangeGuard {
    type V = u64;

    /// Where the held range begins.
    closed spec fn view(&self) -> u64 {
        self.start
    }
}

/// What asking for `[offset, offset + length)` leads to.
pub enum LockOutcome {
    /// The range cannot be asked for.
    Refused(RangeError),
    /// A held range overlaps.
    Wait,
    /// The range is free.
    Granted,
}

/// What asking for `[offset, offset + length)` leads to while `held` is held.
pub open spec fn lock_outcome(held: Map<u64, u64>, offset: u64, length: u64) -> LockOutcome {
    if length == 0 {
        LockOutcome::Refused(RangeError::ZeroLength)
    } else if offset + length > u64::MAX {
        LockOutcome::Refused(RangeError::Overflow)
    } else if overlaps(held, offset as int, offset + length) {
        LockOutcome::Wait
    } else {
        LockOutcome::Granted
    }
}

/// What asking for the bytes of `iovecs` from `offset` on leads to while `held`
/// is held.
pub open spec fn lock_iovecs_outcome(
    held: Map<u64, u64>,
    offset: i64,
    iovecs: Seq<IoVec>,
) -> LockOutcome {
    if total_len(iovecs) > u64::MAX {
        LockOutcome::Refused(RangeError::IovecLengthOverflow)
    } else {
        lock_outcome(held, unsigned_offset(offset) as u64, total_len(iovecs) as u64)
    }
}

/// How a request for `[offset, offset + length)` is answered: the result and
/// the held ranges before and after it agree with `outcome`.
pub open spec fn lock_answered(
    outcome: LockOutcome,
    offset: u64,
    length: u64,
    before: Map<u64, u64>,
    after: Map<u64, u64>,
    result: Result<Option<RangeGuard>, RangeError>,
) -> bool {
    match outcome {
        LockOutcome::Refused(error) => result == Err::<Option<RangeGuard>, RangeError>(error)
            && after == before,
        LockOutcome::Wait => result == Ok::<Option<RangeGuard>, RangeError>(None) && after
            == before,
        LockOutcome::Granted => {
            &&& result matches Ok(Some(guard))
            &&& guard@ == offset
            &&& after == before.insert(offset, (offset + length) as u64)
        },
    }
}

/// Serializes overlapping byte ranges between the copy worker and the mirrored
/// writes of every queue.
pub struct RangeLockManager {
    /// Held ranges as `start -> end_exclusive`.
    ranges: BTreeMap<u64, u64>,
}

impl View for RangeLockManager {
    type V = Map<u64, u64>;

    closed spec fn view(&self) -> Map<u64, u64> {
        self.ranges@
    }
}

impl RangeLockManager {
    /// What every sequence of locks and releases keeps.
    pub open spec fn wf(&self) -> bool {
        disjoint_ranges(self@)
    }

    /// No range is held.
    pub fn new() -> (manager: Self)
        ensures
            manager.wf(),
            manager@ == Map::<u64, u64>::empty(),
    {
        Self { ranges: BTreeMap::new() }
    }

    /// Returns true if `[start, end)` overlaps any range in `ranges`. Where `end` is exclusive.
    pub fn overlaps_any(ranges: &BTreeMap<u64, u64>, start: u64, end: u64) -> (found: bool)
        ensures
            found == overlaps(ranges@, start as int, end as int),
    {
        let mut entries = entries_below(ranges, end);
        assert(range_entries(entries).dom() =~= ranges@.dom().intersect(
            Set::new(|k: u64| k < end),
        ));
        loop
            invariant
                range_entries(entries).dom().finite(),
                forall|k: u64| #[trigger]
                    range_entries(entries).contains_key(k) ==> ranges@.contains_key(k) && k < end
                        && range_entries(entries)[k] == ranges@[k],
                forall|k: u64| #[trigger]
                    ranges@.contains_key(k) && k < end && start < ranges@[k]
                        ==> range_entries(entries).contains_key(k),
            decreases range_entries(entries).dom().len(),
        {
            match take_last(&mut entries) {
                Some((key, reached)) => {
                    assert(ranges@.contains_key(key) && ranges@[key] == reached);
                    if reached > start {
                        return true;
                    }
                },
                None => return false,
            }
        }
    }

    /// Returns true if `[start, end)` overlaps a held range. Held ranges are
    /// disjoint, so that the last one before `end` decides.
    fn overlaps_held(&self, start: u64, end: u64) -> (found: bool)
        requires
            self.wf(),
        ensures
            found == overlaps(self@, start as int, end as int),
    {
        let mut entries = entries_below(&self.ranges, end);
        let ghost below = range_entries(entries);
        assert(forall|k: u64|
            #![trigger below.contains_key(k)]
            #![trigger self@.contains_key(k)]
            below.contains_key(k) <==> self@.contains_key(k) && k < end);
        match take_last(&mut entries) {
            Some((last, last_end)) => {
                assert(self@.contains_key(last) && self@[last] == last_end);
                last_end > start
            },
            None => {
                assert(forall|k: u64| !below.contains_key(k));
                false
            },
        }
    }

    /// Asks for an exclusive lock on `[offset, offset + length)`.
    ///
    /// `Ok(None)` means that a held range overlaps: the caller waits until a
    /// range is released and asks again. A range without bytes, or one whose
    /// end does not fit in 64 bits, is an error.
    pub fn lock_range(&mut self, offset: u64, length: u64) -> (result: Result<
        Option<RangeGuard>,
        RangeError,
    >)
        requires
            old(self).wf(),
        ensures
            final(self).wf(),
            lock_answered(
                lock_outcome(old(self)@, offset, length),
                offset,
                length,
                old(self)@,
                final(self)@,
                result,
            ),
    {
        if length == 0 {
            return Err(RangeError::ZeroLength);
        }
        let end = match offset.checked_add(length) {
            Some(end) => end,
            None => return Err(RangeError::Overflow),
        };
        if self.overlaps_held(offset, end) {
            return Ok(None);
        }
        self.ranges.insert(offset, end);
        Ok(Some(RangeGuard { start: offset }))
    }

    /// Asks for the contiguous bytes from `offset` through the end of
    /// `iovecs`, as [`Self::lock_range`] does.
    pub fn lock_iovecs(&mut self, offset: i64, iovecs: &[IoVec]) -> (result: Result<
        Option<RangeGuard>,
        RangeError,
    >)
        requires
            old(self).wf(),
        ensures
            final(self).wf(),
            lock_answered(
                lock_iovecs_outcome(old(self)@, offset, iovecs@),
                unsigned_offset(offset) as u64,
                total_len(iovecs@) as u64,
                old(self)@,
                final(self)@,
                result,
            ),
    {
        match iovec_length(iovecs) {
            Some(length) => self.lock_range(offset_to_u64(offset), length),
            None => Err(RangeError::IovecLengthOverflow),
        }
    }

    /// Frees the range that `guard` stands for. Whoever waits for a range asks
    /// again afterwards.
    pub fn release(&mut self, guard: RangeGuard)
        requires
            old(self).wf(),
        ensures
            final(self).wf(),
            final(self)@ == old(self)@.remove(guard@),
    {
        self.ranges.remove(&guard.start);
    }
}

/// Whether byte `p` belongs to a held range.
pub open spec fn covered(held: Map<u64, u64>, p: int) -> bool {
    exists|k: u64| #[trigger] held.contains_key(k) && k <= p < held[k]
}

/// A non-empty range overlaps the held ranges exactly when it shares a byte
/// with one of them. Ranges that only touch do not overlap.
pub proof fn lemma_overlap_is_a_shared_byte(held: Map<u64, u64>, start: int, end: int)
    requires
        disjoint_ranges(held),
        start < end,
    ensures
        overlaps(held, start, end) <==> exists|p: int|
            start <= p < end && #[trigger] covered(held, p),
{
    if overlaps(held, start, end) {
        let k = choose|k: u64| #[trigger] held.contains_key(k) && k < end && start < held[k];
        let p = if start < k {
            k as int
        } else {
            start
        };
        assert(covered(held, p));
    }
}

/// While a granted range is held, every request that shares a byte with it has
/// to wait.
pub proof fn lemma_granted_range_excludes_others(
    held: Map<u64, u64>,
    offset: u64,
    length: u64,
    other_offset: u64,
    other_length: u64,
)
    requires
        disjoint_ranges(held),
        lock_outcome(held, offset, length) is Granted,
        other_length > 0,
        other_offset + other_length <= u64::MAX,
        other_offset < offset + length,
        offset < other_offset + other_length,
    ensures
        lock_outcome(
            held.insert(offset, (offset + length) as u64),
            other_offset,
            other_length,
        ) is Wait,
{
    let after = held.insert(offset, (offset + length) as u64);
    assert(after.contains_key(offset));
}

/// A grant takes the bytes of the new range and leaves every other byte as it was.
pub proof fn lemma_grant_covers_exactly_its_range(
    held: Map<u64, u64>,
    offset: u64,
    length: u64,
    p: int,
)
    requires
        disjoint_ranges(held),
        lock_outcome(held, offset, length) is Granted,
    ensures
        covered(held.insert(offset, (offset + length) as u64), p) <==> (covered(held, p) || offset
            <= p < offset + length),
{
    let after = held.insert(offset, (offset + length) as u64);
    assert(!held.contains_key(offset));
    if covered(held, p) {
        let k = choose|k: u64| #[trigger] held.contains_key(k) && k <= p < held[k];
        assert(after.contains_key(k));
    }
    if offset <= p < offset + length {
        assert(after.contains_key(offset));
    }
}

/// Releasing a range just granted leaves the ranges that were held before.
pub proof fn lemma_release_undoes_lock(held: Map<u64, u64>, offset: u64, length: u64)
    requires
        disjoint_ranges(held),
        lock_outcome(held, offset, length) is Granted,
    ensures
        held.insert(offset, (offset + length) as u64).remove(offset) == held,
{
    assert(!held.contains_key(offset));
    assert(held.insert(offset, (offset + length) as u64).remove(offset) =~= held);
}

/// Releasing a range frees its bytes and no others.
pub proof fn lemma_release_frees_exactly_its_range(held: Map<u64, u64>, start: u64, p: int)
    requires
        disjoint_ranges(held),
        held.contains_key(start),
    ensures
        covered(held.remove(start), p) <==> (covered(held, p) && !(start <= p < held[start])),
{
    let after = held.remove(start);
    if covered(held, p) && !(start <= p < held[start]) {
        let k = choose|k: u64| #[trigger] held.contains_key(k) && k <= p < held[k];
        assert(after.contains_key(k));
    }
    if covered(after, p) {
        let k = choose|k: u64| #[trigger] after.contains_key(k) && k <= p < after[k];
        assert(held.contains_key(k));
    }
}

/// A request that waits for one held range only is granted once that range is
/// released.
pub proof fn lemma_release_admits_the_waiter(
    held: Map<u64, u64>,
    start: u64,
    offset: u64,
    length: u64,
)
    requires
        lock_outcome(held, offset, length) is Wait,
        forall|k: u64| #[trigger]
            held.contains_key(k) && k < offset + length && offset < held[k] ==> k == start,
    ensures
        lock_outcome(held.remove(start), offset, length) is Granted,
{
    let after = held.remove(start);
    assert forall|k: u64| #[trigger] after.contains_key(k) implies !(k < offset + length && offset
        < after[k]) by {
        assert(held.contains_key(k));
    }
}

/// A release never turns a request away that would have been granted before it.
pub proof fn lemma_release_turns_nobody_away(
    held: Map<u64, u64>,
    start: u64,
    offset: u64,
    length: u64,
)
    requires
        lock_outcome(held, offset, length) is Granted,
    ensures
        lock_outcome(held.remove(start), offset, length) is Granted,
{
    let after = held.remove(start);
    assert forall|k: u64| #[trigger] after.contains_key(k) implies !(k < offset + length && offset
        < after[k]) by {
        assert(held.contains_key(k));
    }
}

/// The bytes of a request are those of its buffers, each counted once with its
/// own length: no buffers span nothing, one spans its length, and the span of
/// some buffers followed by others is the sum of both spans.
pub proof fn lemma_spans_add_up(a: Seq<IoVec>, b: Seq<IoVec>, one: IoVec)
    ensures
        total_len(Seq::<IoVec>::empty()) == 0,
        total_len(seq![one]) == one.iov_len,
        total_len(a + b) == total_len(a) + total_len(b),
    decreases b.len(),
{
    assert(seq![one].drop_last() =~= Seq::<IoVec>::empty());
    if b.len() == 0 {
        assert(a + b =~= a);
    } else {
        lemma_spans_add_up(a, b.drop_last(), one);
        assert((a + b).drop_last() =~= a + b.drop_last());
        assert((a + b).last() == b.last());
    }
}

/// The buffers of a request span exactly as many bytes as they carry.
pub proof fn lemma_span_is_the_length_of_the_data(iovecs: Seq<IoVec>, buffers: Seq<Seq<u8>>)
    requires
        buffers.len() == iovecs.len(),
        forall|i: int| 0 <= i < iovecs.len() ==> #[trigger] buffers[i].len() == iovecs[i].iov_len,
    ensures
        total_len(iovecs) == buffers.flatten().len(),
    decreases iovecs.len(),
{
    if iovecs.len() > 0 {
        let n = iovecs.len() - 1;
        lemma_span_is_the_length_of_the_data(iovecs.drop_last(), buffers.drop_last());
        buffers.drop_last().lemma_flatten_push(buffers.last());
        assert(buffers.drop_last().push(buffers.last()) =~= buffers);
        assert(buffers[n].len() == iovecs[n].iov_len);
        lemma_spans_add_up(iovecs.drop_last(), seq![iovecs.last()], iovecs.last());
        assert(iovecs.drop_last() + seq![iovecs.last()] =~= iovecs);
    }
}

/// An offset that is not negative stays as it is; any other one wraps around: it
/// is the one 64-bit number that differs by a multiple of 2 to the 64th. Two
/// offsets never become the same number.
pub proof fn lemma_unsigned_offset_wraps_around(offset: i64, other: i64)
    ensures
        0 <= unsigned_offset(offset) <= 0xffff_ffff_ffff_ffff,
        (unsigned_offset(offset) - offset) % 0x1_0000_0000_0000_0000 == 0,
        offset >= 0 ==> unsigned_offset(offset) == offset,
        unsigned_offset(offset) == unsigned_offset(other) ==> offset == other,
{
}

/// A byte is covered when it is not below the start of some range and below its
/// end.
pub proof fn lemma_covered_bytes_lie_in_a_range(held: Map<u64, u64>, p: int)
    ensures
        covered(held, p) <==> exists|k: u64| #[trigger]
            held.contains_key(k) && k <= p && p + 1 <= held[k],
{
}

/// A range overlaps a single other one when each begins before the other ends.
pub proof fn lemma_overlap_of_two_ranges(first: u64, first_end: u64, start: int, end: int)
    ensures
        overlaps(Map::<u64, u64>::empty().insert(first, first_end), start, end) <==> first + 1
            <= end && start + 1 <= first_end,
{
    let held = Map::<u64, u64>::empty().insert(first, first_end);
    assert(held.contains_key(first));
}

/// A range overlaps one of several ranges: nothing in none, and one more range
/// only adds what it overlaps itself.
pub proof fn lemma_overlap_looks_at_every_range(
    held: Map<u64, u64>,
    first: u64,
    first_end: u64,
    start: int,
    end: int,
)
    requires
        !held.contains_key(first),
    ensures
        !overlaps(Map::<u64, u64>::empty(), start, end),
        overlaps(held.insert(first, first_end), start, end) <==> (overlaps(held, start, end)
            || overlaps(Map::<u64, u64>::empty().insert(first, first_end), start, end)),
{
    let more = held.insert(first, first_end);
    let one = Map::<u64, u64>::empty().insert(first, first_end);
    if overlaps(held, start, end) {
        let k = choose|k: u64| #[trigger] held.contains_key(k) && k < end && start < held[k];
        assert(more.contains_key(k));
    }
    if overlaps(one, start, end) {
        assert(one.contains_key(first));
        assert(more.contains_key(first));
    }
    if overlaps(more, start, end) {
        let k = choose|k: u64| #[trigger] more.contains_key(k) && k < end && start < more[k];
        if k == first {
            assert(one.contains_key(k));
        } else {
            assert(held.contains_key(k));
        }
    }
}

/// Ranges are disjoint exactly when each has a byte and no byte lies in two of
/// them.
pub proof fn lemma_disjoint_ranges_share_no_byte(held: Map<u64, u64>)
    ensures
        disjoint_ranges(held) <==> (forall|k: u64| #[trigger]
            held.contains_key(k) ==> held[k] >= k + 1) && (forall|a: u64, b: u64, p: int|
            #![trigger held.contains_key(a), held.contains_key(b), covered(held, p)]
            held.contains_key(a) && held.contains_key(b) && a <= p < held[a] && b <= p < held[b]
                ==> a == b),
{
    if !disjoint_ranges(held) && (forall|k: u64| #[trigger]
        held.contains_key(k) ==> held[k] >= k + 1) {
        let (a, b) = choose|a: u64, b: u64| #[trigger]
            held.contains_key(a) && #[trigger] held.contains_key(b) && a < b && held[a] > b;
        assert(covered(held, b as int));
    }
}

/// A range is refused when it has no bytes or its end does not fit in 64 bits.
/// Any other range has to wait exactly while one of its bytes is held, and is
/// granted exactly when all of its bytes are free.
pub proof fn lemma_lock_goes_by_the_bytes(held: Map<u64, u64>, offset: u64, length: u64)
    requires
        forall|k: u64| #[trigger] held.contains_key(k) ==> held[k] >= k + 1,
    ensures
        lock_outcome(held, offset, length) == LockOutcome::Refused(RangeError::ZeroLength) <==> length
            == 0,
        lock_outcome(held, offset, length) == LockOutcome::Refused(RangeError::Overflow) <==> length
            >= 1 && offset + length > 0xffff_ffff_ffff_ffff,
        lock_outcome(held, offset, length) is Wait <==> length >= 1 && offset + length
            <= 0xffff_ffff_ffff_ffff && (exists|k: u64, p: int|
            #![trigger held.contains_key(k), covered(held, p)]
            held.contains_key(k) && k <= p < held[k] && offset <= p < offset + length),
        lock_outcome(held, offset, length) is Granted <==> length >= 1 && offset + length
            <= 0xffff_ffff_ffff_ffff && (forall|k: u64, p: int|
            #![trigger held.contains_key(k), covered(held, p)]
            held.contains_key(k) && offset <= p < offset + length ==> p < k || held[k] <= p),
{
    if overlaps(held, offset as int, offset + length) && length >= 1 {
        let k = choose|k: u64| #[trigger]
            held.contains_key(k) && k < offset + length && offset < held[k];
        let p = if offset < k {
            k as int
        } else {
            offset as int
        };
        assert(covered(held, p));
        assert(held.contains_key(k) && k <= p < held[k] && offset <= p < offset + length);
    }
}

/// A vectored request asks for the bytes of its buffers from its offset on: it
/// is answered as one plain request of that many bytes is.
pub proof fn lemma_vectored_lock_is_a_plain_lock(
    held: Map<u64, u64>,
    offset: i64,
    iovecs: Seq<IoVec>,
    start: u64,
    length: u64,
)
    requires
        start == offset || start == offset + 0x1_0000_0000_0000_0000,
    ensures
        length == total_len(iovecs) ==> lock_iovecs_outcome(held, offset, iovecs) == lock_outcome(
            held,
            start,
            length,
        ),
        total_len(iovecs) > 0xffff_ffff_ffff_ffff ==> lock_iovecs_outcome(held, offset, iovecs)
            == LockOutcome::Refused(RangeError::IovecLengthOverflow),
{
}

/// What an answer to a request says: a refusal or a wait leaves the held ranges,
/// a grant adds the asked range and nothing else, and the guard stands for it.
pub proof fn lemma_answer_adds_the_asked_range_only(
    outcome: LockOutcome,
    offset: u64,
    length: u64,
    before: Map<u64, u64>,
    after: Map<u64, u64>,
    result: Result<Option<RangeGuard>, RangeError>,
    k: u64,
)
    requires
        lock_answered(outcome, offset, length, before, after, result),
        offset + length <= u64::MAX,
    ensures
        result is Err <==> outcome is Refused,
        result is Err ==> result->Err_0 == outcome->Refused_0,
        result is Ok && result->Ok_0 is None <==> outcome is Wait,
        result is Ok && result->Ok_0 is Some ==> result->Ok_0->0@ == offset
            && after.contains_key(offset) && after[offset] - offset == length,
        !(result is Ok && result->Ok_0 is Some) || k != offset ==> (after.contains_key(k)
            <==> before.contains_key(k)) && (after.contains_key(k) ==> after[k] == before[k]),
{
}

/// Errors of different kinds have different texts.
pub proof fn lemma_error_texts_differ(a: RangeError, b: RangeError)
    ensures
        a.text() == b.text() ==> a == b,
        RangeError::ZeroLength.text() == "Range length is zero"@,
        RangeError::Overflow.text() == "Range overflow"@,
        RangeError::IovecLengthOverflow.text() == "iovec length overflow"@,
{
    reveal_strlit("Range length is zero");
    reveal_strlit("Range overflow");
    reveal_strlit("iovec length overflow");
    assert(RangeError::ZeroLength.text().len() == 20);
    assert(RangeError::Overflow.text().len() == 14);
    assert(RangeError::IovecLengthOverflow.text().len() == 21);
}

} // verus!
