//! Reading the entries of a time index track whose timestamps fall in a window,
//! by binary search over the sorted track, without loading the whole track.
//!
//! The reader is a state machine: it asks for byte ranges of the track, and the caller
//! reads them (from a file, say) and feeds them back. Each request is answered with the
//! bytes found at that place of the track, fewer where the track ends early.
use crate::codec::{read_i64_le, read_u64_le};
use crate::entry::{entry_leq, TimeIndexEntry};
use crate::track::{
    declared_count, entry_at, entry_pos, has_descent, header_outcome, read_header, stored_entries, track_outcome,
    whole_entries, TimeIndexError, ENTRY_LEN, HEADER_LEN,
};
use vstd::prelude::*;

verus! {

/// The timestamp of entry `i` of the track `t`.
pub open spec fn timestamp_at(t: Seq<u8>, i: int) -> i64 {
    entry_at(t, i).timestamp
}

/// The timestamp of entry `i` of `t` can be read.
pub open spec fn timestamp_present(t: Seq<u8>, i: int) -> bool {
    entry_pos(i) + 8 <= t.len()
}

/// Binary search for the first index in `[lo, hi)` whose timestamp is at least `s`,
/// probing the middle index each time; `None` when a probe runs past the end of `t`.
pub open spec fn search_lower(t: Seq<u8>, s: i64, lo: int, hi: int) -> Option<int>
    decreases hi - lo,
{
    if lo >= hi {
        Some(lo)
    } else {
        let mid = lo + (hi - lo) / 2;
        if !timestamp_present(t, mid) {
            None
        } else if timestamp_at(t, mid) < s {
            search_lower(t, s, mid + 1, hi)
        } else {
            search_lower(t, s, lo, mid)
        }
    }
}

/// Binary search for the first index in `[lo, hi)` whose timestamp is greater than `e`,
/// probing the middle index each time; `None` when a probe runs past the end of `t`.
pub open spec fn search_upper(t: Seq<u8>, e: i64, lo: int, hi: int) -> Option<int>
    decreases hi - lo,
{
    if lo >= hi {
        Some(lo)
    } else {
        let mid = lo + (hi - lo) / 2;
        if !timestamp_present(t, mid) {
            None
        } else if timestamp_at(t, mid) <= e {
            search_upper(t, e, mid + 1, hi)
        } else {
            search_upper(t, e, lo, mid)
        }
    }
}

/// The number of binary digits of `n` (none for zero).
pub open spec fn bit_length(n: nat) -> nat
    decreases n,
{
    if n == 0 {
        0
    } else {
        1 + bit_length(n / 2)
    }
}

/// A larger number has at least as many binary digits.
proof fn lemma_bit_length_monotonic(a: nat, b: nat)
    requires
        a <= b,
    ensures
        bit_length(a) <= bit_length(b),
    decreases b,
{
    if a > 0 {
        lemma_bit_length_monotonic(a / 2, b / 2);
    }
}

/// Halving a positive number, rounding down, removes one binary digit.
proof fn lemma_bit_length_half(s: nat, t: nat)
    requires
        s > 0,
        t <= s / 2,
    ensures
        bit_length(t) < bit_length(s),
{
    lemma_bit_length_monotonic(t, s / 2);
}

/// The window `[start, end]` is empty because its bounds are inverted.
pub open spec fn window_inverted(start: Option<i64>, end: Option<i64>) -> bool {
    match (start, end) {
        (Some(s), Some(e)) => s > e,
        _ => false,
    }
}

/// `ts` lies in the window `[start, end]`, a missing bound leaving that side open.
pub open spec fn in_window(ts: i64, start: Option<i64>, end: Option<i64>) -> bool {
    &&& match start {
        Some(s) => s <= ts,
        None => true,
    }
    &&& match end {
        Some(e) => ts <= e,
        None => true,
    }
}

/// The first index of the span: where the lower search ends (0 when unbounded).
pub open spec fn span_lower(t: Seq<u8>, count: int, start: Option<i64>) -> Option<int> {
    match start {
        None => Some(0),
        Some(s) => search_lower(t, s, 0, count),
    }
}

/// One past the last index of the span: where the upper search, started at `lower`,
/// ends (`count` when unbounded).
pub open spec fn span_upper(t: Seq<u8>, count: int, lower: int, end: Option<i64>) -> Option<int> {
    match end {
        None => Some(count),
        Some(e) => search_upper(t, e, lower, count),
    }
}

/// The outcome of reading the entries of the track `t`, whose declared length is `length`,
/// with timestamps in `[start, end]`. The header is checked first, so a malformed track is
/// refused whatever the window; a well-formed one with an inverted window has no entries in it.
pub open spec fn range_outcome(t: Seq<u8>, length: u64, start: Option<i64>, end: Option<i64>) -> Result<
    Seq<TimeIndexEntry>,
    TimeIndexError,
> {
    match header_outcome(t, length) {
        Err(err) => Err(err),
        Ok(count) => if window_inverted(start, end) || count == 0 {
            Ok(Seq::empty())
        } else {
            match span_lower(t, count as int, start) {
                None => Err(TimeIndexError::UnexpectedEof),
                Some(lower) => match span_upper(t, count as int, lower, end) {
                    None => Err(TimeIndexError::UnexpectedEof),
                    Some(upper) => if upper <= lower {
                        Ok(Seq::empty())
                    } else if entry_pos(upper) > t.len() {
                        Err(TimeIndexError::UnexpectedEof)
                    } else {
                        Ok(stored_entries(t, upper).subrange(lower, upper))
                    },
                },
            }
        },
    }
}

/// The bytes of `t` in `[from, from + len)`, cut short where `t` ends.
pub open spec fn window(t: Seq<u8>, from: int, len: int) -> Seq<u8> {
    let a = if from <= t.len() { from } else { t.len() as int };
    let b = if from + len <= t.len() { from + len } else { t.len() as int };
    t.subrange(a, b)
}

/// What the reader is waiting for.
#[derive(Debug, Clone, Copy, PartialEq, Eq, Structural)]
pub enum RangePhase {
    /// The header of the track.
    Header,
    /// The timestamp probed by the search for the first entry in the window.
    Lower,
    /// The timestamp probed by the search for the first entry after the window.
    Upper,
    /// The entries of the span found.
    Span,
    /// Nothing: the reader has answered.
    Finished,
}

/// What the reader asks for next, or its answer.
#[derive(Debug)]
pub enum RangeStep {
    /// Read the track bytes `[from, from + len)` (positions relative to the track's start,
    /// fewer bytes where the track ends) and feed them to the reader.
    Read { from: u64, len: u64 },
    /// The entries in the window, in track order.
    Done(Vec<TimeIndexEntry>),
    /// The track was refused.
    Failed(TimeIndexError),
}

/// A read of the entries of a track whose timestamps fall in a window.
pub struct RangeReader {
    length: u64,
    start: Option<i64>,
    end: Option<i64>,
    phase: RangePhase,
    count: u64,
    lo: u64,
    hi: u64,
    lower: u64,
    from: u64,
    len: u64,
}

impl RangeReader {
    /// The declared length of the track.
    pub closed spec fn spec_length(&self) -> u64 {
        self.length
    }

    /// The lower bound of the window.
    pub closed spec fn spec_start(&self) -> Option<i64> {
        self.start
    }

    /// The upper bound of the window.
    pub closed spec fn spec_end(&self) -> Option<i64> {
        self.end
    }

    /// The reader waits for the bytes of a request.
    pub closed spec fn waiting(&self) -> bool {
        self.phase != RangePhase::Finished
    }

    /// Start of the pending request.
    pub closed spec fn pending_from(&self) -> u64 {
        self.from
    }

    /// Length of the pending request.
    pub closed spec fn pending_len(&self) -> u64 {
        self.len
    }

    /// A bound on the number of requests still to come: each search takes at most as many
    /// probes as its range has binary digits, and the span takes one read.
    pub closed spec fn requests_left(&self) -> nat {
        match self.phase {
            RangePhase::Header => 2 * bit_length(0xffff_ffff_ffff_ffff) + 2,
            RangePhase::Lower => bit_length((self.hi - self.lo) as nat) + bit_length(self.count as nat) + 1,
            RangePhase::Upper => bit_length((self.hi - self.lo) as nat) + 1,
            RangePhase::Span => 1,
            RangePhase::Finished => 0,
        }
    }

    /// The bytes requested in the pending request.
    pub open spec fn expected(&self, t: Seq<u8>) -> Seq<u8> {
        window(t, self.pending_from() as int, self.pending_len() as int)
    }

    /// The index probed next by a search over `[lo, hi)`.
    spec fn mid(&self) -> int {
        self.lo + (self.hi - self.lo) / 2
    }

    /// Everything the reader has learned so far agrees with the track `t`: the bytes fed
    /// to it so far are those of `t`, and its search state is that of the searches over `t`.
    pub closed spec fn agrees_with(&self, t: Seq<u8>) -> bool {
        match self.phase {
            RangePhase::Header => self.from == 0 && self.len == HEADER_LEN,
            RangePhase::Lower => {
                &&& !window_inverted(self.start, self.end)
                &&& header_outcome(t, self.length) == Ok::<u64, TimeIndexError>(self.count)
                &&& self.start is Some
                &&& 0 <= self.lo < self.hi <= self.count
                &&& search_lower(t, self.start->0, self.lo as int, self.hi as int) == span_lower(
                    t,
                    self.count as int,
                    self.start,
                )
                &&& self.from == entry_pos(self.mid())
                &&& self.len == 8
            },
            RangePhase::Upper => {
                &&& !window_inverted(self.start, self.end)
                &&& header_outcome(t, self.length) == Ok::<u64, TimeIndexError>(self.count)
                &&& self.count > 0
                &&& span_lower(t, self.count as int, self.start) == Some(self.lower as int)
                &&& self.end is Some
                &&& self.lower <= self.lo < self.hi <= self.count
                &&& search_upper(t, self.end->0, self.lo as int, self.hi as int) == span_upper(
                    t,
                    self.count as int,
                    self.lower as int,
                    self.end,
                )
                &&& self.from == entry_pos(self.mid())
                &&& self.len == 8
            },
            RangePhase::Span => {
                &&& !window_inverted(self.start, self.end)
                &&& header_outcome(t, self.length) == Ok::<u64, TimeIndexError>(self.count)
                &&& self.count > 0
                &&& span_lower(t, self.count as int, self.start) == Some(self.lower as int)
                &&& span_upper(t, self.count as int, self.lower as int, self.end) == Some(
                    self.hi as int,
                )
                &&& self.lower < self.hi
                &&& self.from == entry_pos(self.lower as int)
                &&& self.len == 16 * (self.hi - self.lower)
            },
            RangePhase::Finished => false,
        }
    }

    /// The reader's own bookkeeping is consistent.
    pub closed spec fn wf(&self) -> bool {
        &&& self.lo <= self.hi <= self.count
        &&& self.lower <= self.hi
        &&& 12 + 16 * self.count <= u64::MAX
        &&& (self.phase == RangePhase::Lower || self.phase == RangePhase::Upper || self.phase
            == RangePhase::Span) ==> !window_inverted(self.start, self.end)
        &&& self.phase != RangePhase::Header ==> self.requests_left() <= 2 * bit_length(self.count as nat) + 1
        &&& self.phase == RangePhase::Header ==> self.from == 0 && self.len == HEADER_LEN
        &&& self.phase == RangePhase::Lower ==> self.start is Some && self.lower == 0 && self.lo < self.hi && self.from
            == entry_pos(self.mid()) && self.len == 8
        &&& self.phase == RangePhase::Upper ==> self.end is Some && self.lower <= self.lo < self.hi
            && self.from == entry_pos(self.mid()) && self.len == 8
        &&& self.phase == RangePhase::Span ==> self.lower < self.hi && self.from == entry_pos(
            self.lower as int,
        ) && self.len == 16 * (self.hi - self.lower)
    }
}

impl RangeReader {
    /// The answer or request `step` is right for the track `t`: a request comes with a
    /// reader that agrees with `t`, an answer is the outcome of the read on `t`.
    pub open spec fn sound_for(&self, step: RangeStep, t: Seq<u8>) -> bool {
        match step {
            RangeStep::Read { .. } => self.agrees_with(t),
            RangeStep::Done(v) => range_outcome(t, self.spec_length(), self.spec_start(), self.spec_end())
                == Ok::<_, TimeIndexError>(v@),
            RangeStep::Failed(e) => range_outcome(t, self.spec_length(), self.spec_start(), self.spec_end())
                == Err::<Seq<TimeIndexEntry>, _>(e),
        }
    }

    /// `step` is a request exactly when the reader waits, and it is the pending request.
    pub open spec fn issued(&self, step: RangeStep) -> bool {
        match step {
            RangeStep::Read { from, len } => self.waiting() && self.pending_from() == from
                && self.pending_len() == len,
            _ => !self.waiting(),
        }
    }

    /// The pending request is the read of the span of matching entries.
    pub closed spec fn awaiting_span(&self) -> bool {
        self.phase == RangePhase::Span
    }

    /// Feeding `bytes` moved the reader from `old` to `self` with answer or request `step`,
    /// soundly for every track that `old` agreed with and that holds `bytes` where asked.
    /// Past the header, every request is an 8-byte timestamp probe, except one last read of
    /// the span, 16 bytes for each entry it answers with: a range read never reads more than
    /// the header, its probes and the entries it returns.
    pub open spec fn moved_from(&self, old: &RangeReader, bytes: Seq<u8>, step: RangeStep) -> bool {
        &&& self.wf()
        &&& self.issued(step)
        &&& self.requests_left() < old.requests_left()
        &&& self.waiting() && !self.awaiting_span() ==> self.pending_len() == 8
        &&& self.awaiting_span() ==> self.pending_len() > 0 && self.pending_len() % 16 == 0
        &&& old.awaiting_span() ==> !self.waiting() && (step matches RangeStep::Done(v) ==> 16 * v@.len()
            == old.pending_len())
        &&& self.spec_length() == old.spec_length()
        &&& self.spec_start() == old.spec_start()
        &&& self.spec_end() == old.spec_end()
        &&& forall|t: Seq<u8>| #[trigger] old.agrees_with(t) && bytes == old.expected(t)
            ==> self.sound_for(step, t)
    }
}

/// The header outcome depends only on the first twelve bytes of the track.
proof fn lemma_header_window(t: Seq<u8>, length: u64)
    ensures
        header_outcome(window(t, 0, 12), length) == header_outcome(t, length),
{
    let w = window(t, 0, 12);
    if t.len() >= 12 {
        assert(w.subrange(0, 4) =~= t.subrange(0, 4));
        assert(w.subrange(4, 12) =~= t.subrange(4, 12));
    } else {
        assert(w =~= t);
    }
}

/// The entry stored at `16 * k` of a run of entries.
pub open spec fn run_entry(b: Seq<u8>, k: int) -> TimeIndexEntry {
    TimeIndexEntry {
        timestamp: crate::codec::i64_from_le(b.subrange(16 * k, 16 * k + 8)),
        frame_id: vstd::bytes::spec_u64_from_le_bytes(b.subrange(16 * k + 8, 16 * k + 16)),
    }
}

/// Reads `n` consecutive entries from the start of `bytes`.
fn read_run(bytes: &[u8], n: u64) -> (v: Vec<TimeIndexEntry>)
    requires
        16 * n <= bytes@.len(),
    ensures
        v@ == Seq::new(n as nat, |k: int| run_entry(bytes@, k)),
{
    let total = bytes.len();
    let mut v: Vec<TimeIndexEntry> = Vec::new();
    let mut k: u64 = 0;
    while k < n
        invariant
            k <= n,
            16 * n <= total,
            total == bytes@.len(),
            v@ == Seq::new(k as nat, |j: int| run_entry(bytes@, j)),
        decreases n - k,
    {
        let pos = (k * ENTRY_LEN) as usize;
        let timestamp = read_i64_le(bytes, pos);
        let frame_id = read_u64_le(bytes, pos + 8);
        v.push(TimeIndexEntry { timestamp, frame_id });
        k = k + 1;
        assert(v@ =~= Seq::new(k as nat, |j: int| run_entry(bytes@, j)));
    }
    v
}

/// Entries read from a run of the track starting at entry `lower` are the track's entries.
proof fn lemma_run_entries(t: Seq<u8>, lower: int, upper: int)
    requires
        0 <= lower < upper,
        entry_pos(upper) <= t.len(),
    ensures
        Seq::new((upper - lower) as nat, |k: int| run_entry(window(t, entry_pos(lower), 16 * (upper - lower)), k))
            == stored_entries(t, upper).subrange(lower, upper),
{
    let b = window(t, entry_pos(lower), 16 * (upper - lower));
    assert(b == t.subrange(entry_pos(lower), entry_pos(upper)));
    assert forall|k: int| 0 <= k < upper - lower implies #[trigger] run_entry(b, k) == entry_at(t, lower + k) by {
        assert(b.subrange(16 * k, 16 * k + 8) =~= t.subrange(entry_pos(lower + k), entry_pos(lower + k) + 8));
        assert(b.subrange(16 * k + 8, 16 * k + 16) =~= t.subrange(entry_pos(lower + k) + 8, entry_pos(lower + k) + 16));
    }
    assert(Seq::new((upper - lower) as nat, |k: int| run_entry(b, k)) =~= stored_entries(t, upper).subrange(lower, upper));
}

impl RangeReader {
    /// Stops the reader.
    fn finish(&mut self)
        ensures
            *final(self) == (RangeReader { phase: RangePhase::Finished, ..*old(self) }),
    {
        self.phase = RangePhase::Finished;
    }

    /// Goes on once the span's end is known to be `upper`.
    fn after_upper(&mut self, upper: u64) -> (step: RangeStep)
        requires
            old(self).lower <= upper <= old(self).count,
            old(self).count > 0,
            12 + 16 * old(self).count <= u64::MAX,
            !window_inverted(old(self).start, old(self).end),
        ensures
            final(self).wf(),
            final(self).issued(step),
            final(self).length == old(self).length,
            final(self).start == old(self).start,
            final(self).end == old(self).end,
            final(self).count == old(self).count,
            final(self).requests_left() <= 1,
            final(self).waiting() && !final(self).awaiting_span() ==> final(self).pending_len() == 8,
            final(self).awaiting_span() ==> final(self).pending_len() > 0 && final(self).pending_len() % 16 == 0,
            forall|t: Seq<u8>|
                #![trigger final(self).sound_for(step, t)]
                header_outcome(t, old(self).length) == Ok::<u64, TimeIndexError>(old(self).count)
                    && span_lower(t, old(self).count as int, old(self).start) == Some(old(self).lower as int)
                    && span_upper(t, old(self).count as int, old(self).lower as int, old(self).end)
                    == Some(upper as int) ==> final(self).sound_for(step, t),
    {
        self.lo = self.lower;
        self.hi = upper;
        if upper <= self.lower {
            self.finish();
            RangeStep::Done(Vec::new())
        } else {
            self.phase = RangePhase::Span;
            self.from = HEADER_LEN + self.lower * ENTRY_LEN;
            self.len = (upper - self.lower) * ENTRY_LEN;
            RangeStep::Read { from: self.from, len: self.len }
        }
    }

    /// Goes on once the span's start is known to be `lower`.
    fn after_lower(&mut self, lower: u64) -> (step: RangeStep)
        requires
            lower <= old(self).count,
            old(self).count > 0,
            12 + 16 * old(self).count <= u64::MAX,
            !window_inverted(old(self).start, old(self).end),
        ensures
            final(self).wf(),
            final(self).issued(step),
            final(self).length == old(self).length,
            final(self).start == old(self).start,
            final(self).end == old(self).end,
            final(self).count == old(self).count,
            final(self).requests_left() <= bit_length(old(self).count as nat) + 1,
            final(self).waiting() && !final(self).awaiting_span() ==> final(self).pending_len() == 8,
            final(self).awaiting_span() ==> final(self).pending_len() > 0 && final(self).pending_len() % 16 == 0,
            forall|t: Seq<u8>|
                #![trigger final(self).sound_for(step, t)]
                header_outcome(t, old(self).length) == Ok::<u64, TimeIndexError>(old(self).count)
                    && span_lower(t, old(self).count as int, old(self).start) == Some(lower as int)
                    ==> final(self).sound_for(step, t),
    {
        self.lower = lower;
        match self.end {
            Some(_) => {
                if lower < self.count {
                    proof {
                        lemma_bit_length_monotonic((self.count - lower) as nat, self.count as nat);
                    }
                    self.lo = lower;
                    self.hi = self.count;
                    self.phase = RangePhase::Upper;
                    let mid = self.lo + (self.hi - self.lo) / 2;
                    self.from = HEADER_LEN + mid * ENTRY_LEN;
                    self.len = 8;
                    RangeStep::Read { from: self.from, len: self.len }
                } else {
                    self.after_upper(lower)
                }
            },
            None => {
                let count = self.count;
                self.after_upper(count)
            },
        }
    }
}

/// Starts reading the entries of a track of declared length `length` whose timestamps
/// fall in `[start, end]` (a missing bound leaves that side open): the header is requested
/// first, whatever the window.
pub fn read_range(length: u64, start: Option<i64>, end: Option<i64>) -> (r: (RangeReader, RangeStep))
    ensures
        r.0.wf(),
        r.0.issued(r.1),
        r.0.spec_length() == length,
        r.0.spec_start() == start,
        r.0.spec_end() == end,
        r.1 == (RangeStep::Read { from: 0, len: HEADER_LEN }),
        forall|t: Seq<u8>| #[trigger] r.0.sound_for(r.1, t),
{
    let reader = RangeReader {
        length,
        start,
        end,
        phase: RangePhase::Header,
        count: 0,
        lo: 0,
        hi: 0,
        lower: 0,
        from: 0,
        len: HEADER_LEN,
    };
    (reader, RangeStep::Read { from: 0, len: HEADER_LEN })
}

impl RangeReader {
    /// Takes the header of the track.
    fn feed_header(&mut self, bytes: &[u8]) -> (step: RangeStep)
        requires
            old(self).wf(),
            old(self).phase == RangePhase::Header,
            bytes@.len() <= old(self).pending_len(),
        ensures
            final(self).moved_from(old(self), bytes@, step),
    {
        let ghost pre = *self;
        let h = read_header(bytes, self.length);
        proof {
            assert forall|t: Seq<u8>| #[trigger] pre.agrees_with(t) && bytes@ == pre.expected(t)
                implies header_outcome(t, pre.length) == header_outcome(bytes@, pre.length) by {
                lemma_header_window(t, pre.length);
            }
        }
        match h {
            Err(e) => {
                self.lo = 0;
                self.hi = 0;
                self.lower = 0;
                self.count = 0;
                self.finish();
                RangeStep::Failed(e)
            },
            Ok(count) => {
                proof {
                    lemma_bit_length_monotonic(count as nat, 0xffff_ffff_ffff_ffff);
                }
                self.count = count;
                self.lo = 0;
                self.hi = count;
                self.lower = 0;
                let inverted = match (self.start, self.end) {
                    (Some(a), Some(b)) => a > b,
                    _ => false,
                };
                if inverted || count == 0 {
                    self.finish();
                    RangeStep::Done(Vec::new())
                } else {
                    match self.start {
                        Some(_) => {
                            self.phase = RangePhase::Lower;
                            let mid = count / 2;
                            self.from = HEADER_LEN + mid * ENTRY_LEN;
                            self.len = 8;
                            RangeStep::Read { from: self.from, len: self.len }
                        },
                        None => self.after_lower(0),
                    }
                }
            },
        }
    }

    /// Takes the timestamp probed by the search for the span's start.
    fn feed_lower(&mut self, bytes: &[u8]) -> (step: RangeStep)
        requires
            old(self).wf(),
            old(self).phase == RangePhase::Lower,
            bytes@.len() <= old(self).pending_len(),
        ensures
            final(self).moved_from(old(self), bytes@, step),
    {
        let ghost pre = *self;
        let s = self.start.unwrap();
        let mid = self.lo + (self.hi - self.lo) / 2;
        if bytes.len() < 8 {
            self.finish();
            proof {
                assert forall|t: Seq<u8>| #[trigger] pre.agrees_with(t) && bytes@ == pre.expected(t)
                    implies !timestamp_present(t, mid as int) by {}
            }
            return RangeStep::Failed(TimeIndexError::UnexpectedEof);
        }
        let ts = read_i64_le(bytes, 0);
        proof {
            assert forall|t: Seq<u8>| #[trigger] pre.agrees_with(t) && bytes@ == pre.expected(t)
                implies timestamp_present(t, mid as int) && timestamp_at(t, mid as int) == ts by {
                assert(bytes@.subrange(0, 8) =~= t.subrange(entry_pos(mid as int), entry_pos(mid as int) + 8));
            }
        }
        let ghost size = (self.hi - self.lo) as nat;
        if ts < s {
            self.lo = mid + 1;
        } else {
            self.hi = mid;
        }
        proof {
            lemma_bit_length_half(size, (self.hi - self.lo) as nat);
            assert(bit_length(size) == 1 + bit_length(size / 2));
        }
        proof {
            assert forall|t: Seq<u8>| #[trigger] pre.agrees_with(t) && bytes@ == pre.expected(t)
                implies search_lower(t, s, self.lo as int, self.hi as int) == span_lower(t, pre.count as int, pre.start) by {
                assert(search_lower(t, s, pre.lo as int, pre.hi as int) == search_lower(t, s, self.lo as int, self.hi as int));
            }
        }
        if self.lo < self.hi {
            let next = self.lo + (self.hi - self.lo) / 2;
            self.from = HEADER_LEN + next * ENTRY_LEN;
            self.len = 8;
            proof {
                assert forall|t: Seq<u8>| #[trigger] pre.agrees_with(t) && bytes@ == pre.expected(t)
                    implies self.agrees_with(t) by {}
            }
            RangeStep::Read { from: self.from, len: self.len }
        } else {
            let lower = self.lo;
            let ghost mid_state = *self;
            let step = self.after_lower(lower);
            proof {
                assert forall|t: Seq<u8>| #[trigger] pre.agrees_with(t) && bytes@ == pre.expected(t)
                    implies self.sound_for(step, t) by {
                    assert(search_lower(t, s, mid_state.lo as int, mid_state.hi as int) == Some(lower as int));
                }
            }
            step
        }
    }

    /// Takes the timestamp probed by the search for the span's end.
    fn feed_upper(&mut self, bytes: &[u8]) -> (step: RangeStep)
        requires
            old(self).wf(),
            old(self).phase == RangePhase::Upper,
            bytes@.len() <= old(self).pending_len(),
        ensures
            final(self).moved_from(old(self), bytes@, step),
    {
        let ghost pre = *self;
        let e = self.end.unwrap();
        let mid = self.lo + (self.hi - self.lo) / 2;
        if bytes.len() < 8 {
            self.finish();
            proof {
                assert forall|t: Seq<u8>| #[trigger] pre.agrees_with(t) && bytes@ == pre.expected(t)
                    implies !timestamp_present(t, mid as int) by {}
            }
            return RangeStep::Failed(TimeIndexError::UnexpectedEof);
        }
        let ts = read_i64_le(bytes, 0);
        proof {
            assert forall|t: Seq<u8>| #[trigger] pre.agrees_with(t) && bytes@ == pre.expected(t)
                implies timestamp_present(t, mid as int) && timestamp_at(t, mid as int) == ts by {
                assert(bytes@.subrange(0, 8) =~= t.subrange(entry_pos(mid as int), entry_pos(mid as int) + 8));
            }
        }
        let ghost size = (self.hi - self.lo) as nat;
        if ts <= e {
            self.lo = mid + 1;
        } else {
            self.hi = mid;
        }
        proof {
            lemma_bit_length_half(size, (self.hi - self.lo) as nat);
            assert(bit_length(size) == 1 + bit_length(size / 2));
        }
        proof {
            assert forall|t: Seq<u8>| #[trigger] pre.agrees_with(t) && bytes@ == pre.expected(t)
                implies search_upper(t, e, self.lo as int, self.hi as int) == span_upper(t, pre.count as int, pre.lower as int, pre.end) by {
                assert(search_upper(t, e, pre.lo as int, pre.hi as int) == search_upper(t, e, self.lo as int, self.hi as int));
            }
        }
        if self.lo < self.hi {
            let next = self.lo + (self.hi - self.lo) / 2;
            self.from = HEADER_LEN + next * ENTRY_LEN;
            self.len = 8;
            proof {
                assert forall|t: Seq<u8>| #[trigger] pre.agrees_with(t) && bytes@ == pre.expected(t)
                    implies self.agrees_with(t) by {}
            }
            RangeStep::Read { from: self.from, len: self.len }
        } else {
            let upper = self.lo;
            let ghost mid_state = *self;
            let step = self.after_upper(upper);
            proof {
                assert forall|t: Seq<u8>| #[trigger] pre.agrees_with(t) && bytes@ == pre.expected(t)
                    implies self.sound_for(step, t) by {
                    assert(search_upper(t, e, mid_state.lo as int, mid_state.hi as int) == Some(upper as int));
                }
            }
            step
        }
    }

    /// Takes the entries of the span.
    fn feed_span(&mut self, bytes: &[u8]) -> (step: RangeStep)
        requires
            old(self).wf(),
            old(self).phase == RangePhase::Span,
            bytes@.len() <= old(self).pending_len(),
        ensures
            final(self).moved_from(old(self), bytes@, step),
    {
        let ghost pre = *self;
        let n = self.hi - self.lower;
        self.finish();
        if (bytes.len() as u64) < self.len {
            return RangeStep::Failed(TimeIndexError::UnexpectedEof);
        }
        let v = read_run(bytes, n);
        proof {
            assert forall|t: Seq<u8>| #[trigger] pre.agrees_with(t) && bytes@ == pre.expected(t)
                implies self.sound_for(RangeStep::Done(v), t) by {
                lemma_run_entries(t, pre.lower as int, pre.hi as int);
            }
        }
        RangeStep::Done(v)
    }

    /// Feeds the bytes read for the pending request (fewer than asked only where the track
    /// ends) and returns the next request or the answer.
    pub fn feed(&mut self, bytes: &[u8]) -> (step: RangeStep)
        requires
            old(self).wf(),
            old(self).waiting(),
            bytes@.len() <= old(self).pending_len(),
        ensures
            final(self).moved_from(old(self), bytes@, step),
    {
        match self.phase {
            RangePhase::Header => self.feed_header(bytes),
            RangePhase::Lower => self.feed_lower(bytes),
            RangePhase::Upper => self.feed_upper(bytes),
            RangePhase::Span => self.feed_span(bytes),
            RangePhase::Finished => RangeStep::Failed(TimeIndexError::UnexpectedEof),
        }
    }
}

/// The window as a predicate on entries.
pub open spec fn entry_in_window(start: Option<i64>, end: Option<i64>) -> spec_fn(TimeIndexEntry) -> bool {
    |e: TimeIndexEntry| in_window(e.timestamp, start, end)
}

/// Filtering keeps exactly the run `[a, b)` when the predicate holds there and nowhere else.
proof fn lemma_filter_run<A>(s: Seq<A>, pred: spec_fn(A) -> bool, a: int, b: int)
    requires
        0 <= a <= b <= s.len(),
        forall|i: int| 0 <= i < s.len() ==> (#[trigger] pred(s[i]) <==> a <= i < b),
    ensures
        s.filter(pred) == s.subrange(a, b),
    decreases s.len(),
{
    reveal(Seq::filter);
    if s.len() > 0 {
        let p = s.drop_last();
        let n = s.len() - 1;
        assert(pred(s[n]) == pred(s.last()));
        if b <= n {
            lemma_filter_run(p, pred, a, b);
            assert(p.subrange(a, b) =~= s.subrange(a, b));
        } else if a == b {
            lemma_filter_run(p, pred, 0, 0);
            assert(p.subrange(0, 0) =~= s.subrange(a, b));
        } else {
            lemma_filter_run(p, pred, a, n);
            assert(p.subrange(a, n).push(s.last()) =~= s.subrange(a, b));
        }
    }
}

/// The timestamps of the first `count` entries of `t` never decrease.
pub open spec fn timestamps_sorted(t: Seq<u8>, count: int) -> bool {
    forall|i: int, j: int| 0 <= i <= j < count ==> #[trigger] timestamp_at(t, i) <= #[trigger] timestamp_at(t, j)
}

/// Entries in order one after the other have non-decreasing timestamps.
proof fn lemma_no_descent_sorted(t: Seq<u8>, count: int)
    requires
        !has_descent(t, count),
    ensures
        timestamps_sorted(t, count),
    decreases count,
{
    if count > 0 {
        lemma_no_descent_sorted(t, count - 1);
        assert forall|i: int, j: int| 0 <= i <= j < count implies #[trigger] timestamp_at(t, i) <= #[trigger] timestamp_at(t, j) by {
            if j == count - 1 && i < j {
                assert(entry_leq(entry_at(t, j - 1), entry_at(t, j)));
                assert(timestamp_at(t, i) <= timestamp_at(t, j - 1));
            }
        }
    }
}

/// On sorted, fully present timestamps the lower search finds the first index whose
/// timestamp is at least `s`.
proof fn lemma_search_lower_sorted(t: Seq<u8>, s: i64, lo: int, hi: int, count: int)
    requires
        timestamps_sorted(t, count),
        entry_pos(count) <= t.len(),
        0 <= lo <= hi <= count,
        forall|i: int| 0 <= i < lo ==> #[trigger] timestamp_at(t, i) < s,
        forall|i: int| hi <= i < count ==> #[trigger] timestamp_at(t, i) >= s,
    ensures
        search_lower(t, s, lo, hi) matches Some(k) && lo <= k <= hi
            && (forall|i: int| 0 <= i < k ==> #[trigger] timestamp_at(t, i) < s)
            && (forall|i: int| k <= i < count ==> #[trigger] timestamp_at(t, i) >= s),
    decreases hi - lo,
{
    if lo < hi {
        let mid = lo + (hi - lo) / 2;
        if timestamp_at(t, mid) < s {
            assert forall|i: int| 0 <= i < mid + 1 implies #[trigger] timestamp_at(t, i) < s by {
                assert(timestamp_at(t, i) <= timestamp_at(t, mid));
            }
            lemma_search_lower_sorted(t, s, mid + 1, hi, count);
        } else {
            assert forall|i: int| mid <= i < count implies #[trigger] timestamp_at(t, i) >= s by {
                assert(timestamp_at(t, mid) <= timestamp_at(t, i));
            }
            lemma_search_lower_sorted(t, s, lo, mid, count);
        }
    }
}

/// On sorted, fully present timestamps the upper search finds the first index at or after
/// `lower` whose timestamp is greater than `e`.
proof fn lemma_search_upper_sorted(t: Seq<u8>, e: i64, lower: int, lo: int, hi: int, count: int)
    requires
        timestamps_sorted(t, count),
        entry_pos(count) <= t.len(),
        0 <= lower <= lo <= hi <= count,
        forall|i: int| lower <= i < lo ==> #[trigger] timestamp_at(t, i) <= e,
        forall|i: int| hi <= i < count ==> #[trigger] timestamp_at(t, i) > e,
    ensures
        search_upper(t, e, lo, hi) matches Some(k) && lo <= k <= hi
            && (forall|i: int| lower <= i < k ==> #[trigger] timestamp_at(t, i) <= e)
            && (forall|i: int| k <= i < count ==> #[trigger] timestamp_at(t, i) > e),
    decreases hi - lo,
{
    if lo < hi {
        let mid = lo + (hi - lo) / 2;
        if timestamp_at(t, mid) <= e {
            assert forall|i: int| lower <= i < mid + 1 implies #[trigger] timestamp_at(t, i) <= e by {
                assert(timestamp_at(t, i) <= timestamp_at(t, mid));
            }
            lemma_search_upper_sorted(t, e, lower, mid + 1, hi, count);
        } else {
            assert forall|i: int| mid <= i < count implies #[trigger] timestamp_at(t, i) > e by {
                assert(timestamp_at(t, mid) <= timestamp_at(t, i));
            }
            lemma_search_upper_sorted(t, e, lower, lo, mid, count);
        }
    }
}

/// On a well-formed track, the entries in a window are a run `[r.0, r.1)` of the track's
/// entries: exactly those whose timestamps lie in the window.
proof fn lemma_window_run(
    t: Seq<u8>,
    length: u64,
    start: Option<i64>,
    end: Option<i64>,
    entries: Seq<TimeIndexEntry>,
) -> (r: (int, int))
    requires
        track_outcome(t, length) == Ok::<_, TimeIndexError>(entries),
    ensures
        0 <= r.0 <= r.1 <= entries.len(),
        forall|i: int| 0 <= i < entries.len() ==> (#[trigger] in_window(entries[i].timestamp, start, end) <==> r.0 <= i < r.1),
        range_outcome(t, length, start, end) == Ok::<_, TimeIndexError>(entries.subrange(r.0, r.1)),
        entries.filter(entry_in_window(start, end)) == entries.subrange(r.0, r.1),
{
    let pred = entry_in_window(start, end);
    let count = header_outcome(t, length)->Ok_0 as int;
    assert(count <= whole_entries(t));
    assert(entries == stored_entries(t, count));
    assert(!has_descent(t, count));
    lemma_no_descent_sorted(t, count);
    assert(entry_pos(count) <= t.len());
    if window_inverted(start, end) || count == 0 {
        assert forall|i: int| 0 <= i < entries.len() implies (#[trigger] pred(entries[i]) <==> 0 <= i < 0) by {}
        lemma_filter_run(entries, pred, 0, 0);
        assert(entries.subrange(0, 0) =~= Seq::<TimeIndexEntry>::empty());
        assert forall|i: int| 0 <= i < entries.len() implies (#[trigger] in_window(entries[i].timestamp, start, end) <==> 0 <= i < 0) by {
            assert(pred(entries[i]) == in_window(entries[i].timestamp, start, end));
        }
        (0, 0)
    } else {
        let lower: int = match start {
            None => 0,
            Some(s) => {
                lemma_search_lower_sorted(t, s, 0, count, count);
                search_lower(t, s, 0, count)->Some_0
            },
        };
        assert(span_lower(t, count, start) == Some(lower));
        let upper: int = match end {
            None => count,
            Some(e) => {
                lemma_search_upper_sorted(t, e, lower, lower, count, count);
                search_upper(t, e, lower, count)->Some_0
            },
        };
        assert(span_upper(t, count, lower, end) == Some(upper));
        assert(lower <= upper <= count);
        assert forall|i: int| 0 <= i < entries.len() implies (#[trigger] pred(entries[i]) <==> lower <= i < upper) by {
            assert(entries[i] == entry_at(t, i));
            assert(entries[i].timestamp == timestamp_at(t, i));
        }
        lemma_filter_run(entries, pred, lower, upper);
        if upper > lower {
            assert(stored_entries(t, upper).subrange(lower, upper) =~= entries.subrange(lower, upper));
        } else {
            assert(entries.subrange(lower, upper) =~= Seq::<TimeIndexEntry>::empty());
        }
        assert forall|i: int| 0 <= i < entries.len() implies (#[trigger] in_window(entries[i].timestamp, start, end) <==> lower <= i < upper) by {
            assert(pred(entries[i]) == in_window(entries[i].timestamp, start, end));
        }
        (lower, upper)
    }
}

/// Reading a window of a track gives the same entries as reading the whole track and
/// keeping those whose timestamps lie in the window.
pub proof fn law_range_is_filtered_track(
    t: Seq<u8>,
    length: u64,
    start: Option<i64>,
    end: Option<i64>,
    entries: Seq<TimeIndexEntry>,
)
    requires
        track_outcome(t, length) == Ok::<_, TimeIndexError>(entries),
    ensures
        range_outcome(t, length, start, end) == Ok::<_, TimeIndexError>(
            entries.filter(entry_in_window(start, end)),
        ),
{
    lemma_window_run(t, length, start, end, entries);
}

/// The window `[s1, e1]` lies inside `[s2, e2]`: every timestamp in the first is in the second.
pub open spec fn window_within(s1: Option<i64>, e1: Option<i64>, s2: Option<i64>, e2: Option<i64>) -> bool {
    forall|ts: i64| #[trigger] in_window(ts, s1, e1) ==> in_window(ts, s2, e2)
}

/// `w1` is a contiguous run of `w2`.
pub open spec fn is_run_of(w1: Seq<TimeIndexEntry>, w2: Seq<TimeIndexEntry>) -> bool {
    exists|i: int, j: int| 0 <= i <= j <= w2.len() && w1 == #[trigger] w2.subrange(i, j)
}

/// Widening the window never drops an entry: on a well-formed track, the entries read for a
/// window are a contiguous run of those read for any window containing it.
pub proof fn law_widening_window_keeps_entries(
    t: Seq<u8>,
    length: u64,
    s1: Option<i64>,
    e1: Option<i64>,
    s2: Option<i64>,
    e2: Option<i64>,
    entries: Seq<TimeIndexEntry>,
)
    requires
        track_outcome(t, length) == Ok::<_, TimeIndexError>(entries),
        window_within(s1, e1, s2, e2),
    ensures
        range_outcome(t, length, s1, e1) is Ok,
        range_outcome(t, length, s2, e2) is Ok,
        is_run_of(range_outcome(t, length, s1, e1)->Ok_0, range_outcome(t, length, s2, e2)->Ok_0),
{
    let (a1, b1) = lemma_window_run(t, length, s1, e1, entries);
    let (a2, b2) = lemma_window_run(t, length, s2, e2, entries);
    let w1 = entries.subrange(a1, b1);
    let w2 = entries.subrange(a2, b2);
    assert(range_outcome(t, length, s1, e1) == Ok::<_, TimeIndexError>(w1));
    assert(range_outcome(t, length, s2, e2) == Ok::<_, TimeIndexError>(w2));
    if a1 < b1 {
        assert(in_window(entries[a1].timestamp, s1, e1));
        assert(in_window(entries[b1 - 1].timestamp, s1, e1));
        assert(in_window(entries[a1].timestamp, s2, e2));
        assert(in_window(entries[b1 - 1].timestamp, s2, e2));
        assert(a2 <= a1 && b1 <= b2);
        assert(w1 =~= w2.subrange(a1 - a2, b1 - a2));
        assert(0 <= a1 - a2 <= b1 - a2 <= w2.len() && w1 == w2.subrange(a1 - a2, b1 - a2));
        assert(is_run_of(w1, w2));
    } else {
        assert(w1 =~= w2.subrange(0, 0));
        assert(0 <= 0int <= 0int <= w2.len() && w1 == w2.subrange(0, 0));
        assert(is_run_of(w1, w2));
    }
}

/// A range read never loads the whole track: once the header has been read (the pending
/// request no longer starts at the track's start), at most `2 * bit_length(count) + 1`
/// requests remain, `count` being the entry count that the track declares, since every
/// request lowers `requests_left` and a waiting reader has at least one left.
pub proof fn law_logarithmic_requests(reader: RangeReader, t: Seq<u8>)
    requires
        reader.wf(),
        reader.agrees_with(t),
        reader.pending_from() > 0,
    ensures
        reader.requests_left() <= 2 * bit_length(declared_count(t) as nat) + 1,
        reader.waiting() ==> reader.requests_left() >= 1,
{
    if reader.phase == RangePhase::Lower || reader.phase == RangePhase::Upper {
        assert(reader.hi - reader.lo > 0);
        assert(bit_length((reader.hi - reader.lo) as nat) == 1 + bit_length(((reader.hi - reader.lo) / 2) as nat));
    }
}

/// The searches end inside the range they search.
proof fn lemma_search_bounds(t: Seq<u8>, x: i64, lo: int, hi: int)
    requires
        lo <= hi,
    ensures
        search_lower(t, x, lo, hi) matches Some(k) ==> lo <= k <= hi,
        search_upper(t, x, lo, hi) matches Some(k) ==> lo <= k <= hi,
    decreases hi - lo,
{
    if lo < hi {
        let mid = lo + (hi - lo) / 2;
        lemma_search_bounds(t, x, mid + 1, hi);
        lemma_search_bounds(t, x, lo, mid);
    }
}

/// The entries a range read returns are decoded as the little-endian bytes of a run of the
/// track's entries: timestamp as `i64::from_le_bytes`, frame id as `u64::from_le_bytes`.
pub proof fn law_range_entries_little_endian(t: Seq<u8>, length: u64, start: Option<i64>, end: Option<i64>)
    ensures
        range_outcome(t, length, start, end) matches Ok(v) ==> exists|lower: int| 0 <= lower && #[trigger] entry_pos(lower + v.len()) <= t.len()
            && forall|k: int| #![trigger v[k]] 0 <= k < v.len() ==> {
                &&& v[k].timestamp == vstd::bytes::spec_u64_from_le_bytes(t.subrange(12 + 16 * (lower + k), 12 + 16 * (lower + k) + 8)) as i64
                &&& v[k].frame_id == vstd::bytes::spec_u64_from_le_bytes(t.subrange(12 + 16 * (lower + k) + 8, 12 + 16 * (lower + k) + 16))
            },
{
    if let Ok(v) = range_outcome(t, length, start, end) {
        if v.len() == 0 {
            assert(entry_pos(0int + v.len()) <= t.len()) by {
                assert(header_outcome(t, length) is Ok);
            }
        } else {
            let count = header_outcome(t, length)->Ok_0 as int;
            assert(!window_inverted(start, end) && count != 0);
            assert(span_lower(t, count, start) is Some);
            let lower = span_lower(t, count, start)->Some_0;
            if let Some(x) = start {
                lemma_search_bounds(t, x, 0, count);
            }
            assert(0 <= lower <= count);
            if let Some(x) = end {
                lemma_search_bounds(t, x, lower, count);
            }
            assert(span_upper(t, count, lower, end) is Some);
            let upper = span_upper(t, count, lower, end)->Some_0;
            assert(upper > lower && entry_pos(upper) <= t.len());
            assert(lower <= upper <= count);
            assert(v == stored_entries(t, upper).subrange(lower, upper));
            assert(v.len() == upper - lower);
            assert(entry_pos(lower + v.len()) <= t.len());
            assert forall|k: int| #![trigger v[k]] 0 <= k < v.len() implies {
                &&& v[k].timestamp == vstd::bytes::spec_u64_from_le_bytes(t.subrange(12 + 16 * (lower + k), 12 + 16 * (lower + k) + 8)) as i64
                &&& v[k].frame_id == vstd::bytes::spec_u64_from_le_bytes(t.subrange(12 + 16 * (lower + k) + 8, 12 + 16 * (lower + k) + 16))
            } by {
                assert(v[k] == entry_at(t, lower + k));
            }
        }
    }
}

/// The window is inclusive at both ends, and a missing bound leaves its side open; only
/// bounds with the start after the end make it inverted.
pub proof fn law_window_is_inclusive(ts: i64, s: i64, e: i64)
    ensures
        in_window(ts, Some(s), Some(e)) <==> s <= ts && ts <= e,
        in_window(ts, Some(s), None) <==> s <= ts,
        in_window(ts, None, Some(e)) <==> ts <= e,
        in_window(ts, None, None),
        window_inverted(Some(s), Some(e)) <==> s > e,
        !window_inverted(None, Some(e)) && !window_inverted(Some(s), None) && !window_inverted(None, None),
{
}

} // verus!
