//! The on-disk layout of a time index track: encoding, header validation and decoding.
//!
//! A track is `magic ++ count (u64 LE) ++ count entries`, each entry being the
//! timestamp (`i64` LE) followed by the frame id (`u64` LE).
use crate::codec::{
    i64_from_le, i64_le, lemma_le_roundtrip, push_i64_le, push_u64_le, read_i64_le, read_u64_le,
};
use crate::entry::{entry_leq, entry_order, is_canonical, lemma_push_keeps_canonical, TimeIndexEntry};
use vstd::bytes::{spec_u64_from_le_bytes, spec_u64_to_le_bytes};
use vstd::prelude::*;

verus! {

/// The magic bytes that open every time index track.
pub const TIME_INDEX_MAGIC: [u8; 4] = [0x4d, 0x56, 0x54, 0x49];

/// Number of bytes of the header: magic and the `u64` entry count.
pub const HEADER_LEN: u64 = 12;

/// Number of bytes of one entry: `i64` timestamp and `u64` frame id.
pub const ENTRY_LEN: u64 = 16;

/// The magic bytes as a sequence.
pub open spec fn magic() -> Seq<u8> {
    seq![0x4du8, 0x56u8, 0x54u8, 0x49u8]
}

/// Why a time index track was refused.
#[derive(Debug, Clone, Copy, PartialEq, Eq, Structural)]
pub enum TimeIndexError {
    /// The track does not start with the magic bytes.
    MagicMismatch,
    /// The declared length cannot even hold the header.
    LengthShorterThanHeader,
    /// The declared entry count overflows the byte size of its payload.
    EntryCountOverflow,
    /// The declared length does not match the declared entry count.
    LengthMismatch,
    /// Two consecutive entries are out of canonical order.
    EntriesNotSorted,
    /// The data ended before a field that had to be read.
    UnexpectedEof,
}

impl TimeIndexError {
    /// The reason given for the refusal.
    pub fn reason(&self) -> (r: &'static str)
        ensures
            r@ == match *self {
                TimeIndexError::MagicMismatch => "magic mismatch"@,
                TimeIndexError::LengthShorterThanHeader => "length shorter than header"@,
                TimeIndexError::EntryCountOverflow => "entry count overflow"@,
                TimeIndexError::LengthMismatch => "length does not match declared count"@,
                TimeIndexError::EntriesNotSorted => "entries not sorted"@,
                TimeIndexError::UnexpectedEof => "unexpected end of data"@,
            },
    {
        match self {
            TimeIndexError::MagicMismatch => "magic mismatch",
            TimeIndexError::LengthShorterThanHeader => "length shorter than header",
            TimeIndexError::EntryCountOverflow => "entry count overflow",
            TimeIndexError::LengthMismatch => "length does not match declared count",
            TimeIndexError::EntriesNotSorted => "entries not sorted",
            TimeIndexError::UnexpectedEof => "unexpected end of data",
        }
    }
}

/// The bytes of one entry.
pub open spec fn entry_bytes(e: TimeIndexEntry) -> Seq<u8> {
    i64_le(e.timestamp) + spec_u64_to_le_bytes(e.frame_id)
}

/// The bytes of a run of entries, one after the other.
pub open spec fn entries_bytes(s: Seq<TimeIndexEntry>) -> Seq<u8>
    decreases s.len(),
{
    if s.len() == 0 {
        Seq::empty()
    } else {
        entries_bytes(s.drop_last()) + entry_bytes(s.last())
    }
}

/// The bytes of a whole track holding `s`.
pub open spec fn track_bytes(s: Seq<TimeIndexEntry>) -> Seq<u8> {
    magic() + spec_u64_to_le_bytes(s.len() as u64) + entries_bytes(s)
}

/// The entry count that the header of `data` declares.
pub open spec fn declared_count(data: Seq<u8>) -> u64 {
    spec_u64_from_le_bytes(data.subrange(4, 12))
}

/// Byte position of entry `i` inside a track.
pub open spec fn entry_pos(i: int) -> int {
    12 + 16 * i
}

/// The entry stored at index `i` of the track `data`.
pub open spec fn entry_at(data: Seq<u8>, i: int) -> TimeIndexEntry {
    TimeIndexEntry {
        timestamp: i64_from_le(data.subrange(entry_pos(i), entry_pos(i) + 8)),
        frame_id: spec_u64_from_le_bytes(data.subrange(entry_pos(i) + 8, entry_pos(i) + 16)),
    }
}

/// The first `n` entries stored in `data`.
pub open spec fn stored_entries(data: Seq<u8>, n: int) -> Seq<TimeIndexEntry> {
    Seq::new(n as nat, |i: int| entry_at(data, i))
}

/// How many whole entries `data` holds after its header.
pub open spec fn whole_entries(data: Seq<u8>) -> int {
    (data.len() - 12) / 16
}

/// The outcome of reading the header of the track `data` whose declared length is `length`:
/// the entry count, or why the track is refused.
pub open spec fn header_outcome(data: Seq<u8>, length: u64) -> Result<u64, TimeIndexError> {
    if data.len() < 4 {
        Err(TimeIndexError::UnexpectedEof)
    } else if data.subrange(0, 4) != magic() {
        Err(TimeIndexError::MagicMismatch)
    } else if data.len() < 12 {
        Err(TimeIndexError::UnexpectedEof)
    } else if length < 12 {
        Err(TimeIndexError::LengthShorterThanHeader)
    } else if declared_count(data) * 16 > u64::MAX {
        Err(TimeIndexError::EntryCountOverflow)
    } else if length - 12 != declared_count(data) * 16 {
        Err(TimeIndexError::LengthMismatch)
    } else {
        Ok(declared_count(data))
    }
}

/// Some entry among the first `n` of `data` is out of order with the one before it.
pub open spec fn has_descent(data: Seq<u8>, n: int) -> bool {
    exists|i: int| 0 < i < n && !entry_leq(#[trigger] entry_at(data, i - 1), entry_at(data, i))
}

/// The outcome of reading the whole track `data` whose declared length is `length`.
/// Entries are read in order, so a descent found before the data runs out wins.
pub open spec fn track_outcome(data: Seq<u8>, length: u64) -> Result<Seq<TimeIndexEntry>, TimeIndexError> {
    match header_outcome(data, length) {
        Err(e) => Err(e),
        Ok(count) => {
            let n = if count <= whole_entries(data) { count as int } else { whole_entries(data) };
            if has_descent(data, n) {
                Err(TimeIndexError::EntriesNotSorted)
            } else if n < count {
                Err(TimeIndexError::UnexpectedEof)
            } else {
                Ok(stored_entries(data, n))
            }
        }
    }
}

/// Validates the header at the start of `data` against the declared `length` and
/// returns the declared entry count.
pub fn read_header(data: &[u8], length: u64) -> (r: Result<u64, TimeIndexError>)
    ensures
        r == header_outcome(data@, length),
{
    let len = data.len();
    if len < 4 {
        return Err(TimeIndexError::UnexpectedEof);
    }
    if data[0] != TIME_INDEX_MAGIC[0] || data[1] != TIME_INDEX_MAGIC[1] || data[2]
        != TIME_INDEX_MAGIC[2] || data[3] != TIME_INDEX_MAGIC[3] {
        assert(data@.subrange(0, 4) != magic()) by {
            if data@.subrange(0, 4) == magic() {
                assert(data@.subrange(0, 4)[0] == data@[0]);
                assert(data@.subrange(0, 4)[1] == data@[1]);
                assert(data@.subrange(0, 4)[2] == data@[2]);
                assert(data@.subrange(0, 4)[3] == data@[3]);
            }
        }
        return Err(TimeIndexError::MagicMismatch);
    }
    assert(data@.subrange(0, 4) =~= magic());
    if len < 12 {
        return Err(TimeIndexError::UnexpectedEof);
    }
    let count = read_u64_le(data, 4);
    if length < HEADER_LEN {
        return Err(TimeIndexError::LengthShorterThanHeader);
    }
    let payload = match count.checked_mul(ENTRY_LEN) {
        Some(p) => p,
        None => {
            return Err(TimeIndexError::EntryCountOverflow);
        },
    };
    if length - HEADER_LEN != payload {
        return Err(TimeIndexError::LengthMismatch);
    }
    Ok(count)
}

/// Reads the entry stored at index `i` of the track `data`.
fn read_entry(data: &[u8], i: u64) -> (e: TimeIndexEntry)
    requires
        entry_pos(i as int) + 16 <= data@.len(),
    ensures
        e == entry_at(data@, i as int),
{
    let len = data.len();
    assert(entry_pos(i as int) + 16 <= len);
    let pos = (HEADER_LEN + i * ENTRY_LEN) as usize;
    let timestamp = read_i64_le(data, pos);
    let frame_id = read_u64_le(data, pos + 8);
    TimeIndexEntry { timestamp, frame_id }
}

/// Reads the time index entries of the track `data` (the bytes from the track's start on)
/// whose declared length is `length`, and checks that they are in canonical order.
pub fn read_track(data: &[u8], length: u64) -> (r: Result<Vec<TimeIndexEntry>, TimeIndexError>)
    ensures
        match r {
            Ok(v) => track_outcome(data@, length) == Ok::<_, TimeIndexError>(v@),
            Err(e) => track_outcome(data@, length) == Err::<Seq<TimeIndexEntry>, _>(e),
        },
        r is Ok ==> is_canonical(r->Ok_0@),
{
    let count = match read_header(data, length) {
        Ok(c) => c,
        Err(e) => {
            return Err(e);
        },
    };
    let len = data.len() as u64;
    let mut entries: Vec<TimeIndexEntry> = Vec::new();
    let mut i: u64 = 0;
    while i < count
        invariant
            header_outcome(data@, length) == Ok::<u64, TimeIndexError>(count),
            len == data@.len(),
            i <= count,
            entry_pos(i as int) <= len,
            entries@ == stored_entries(data@, i as int),
            !has_descent(data@, i as int),
            is_canonical(entries@),
        decreases count - i,
    {
        let pos = HEADER_LEN + i * ENTRY_LEN;
        if len - pos < ENTRY_LEN {
            assert(whole_entries(data@) == i);
            return Err(TimeIndexError::UnexpectedEof);
        }
        let entry = read_entry(data, i);
        if i > 0 {
            assert(entries.len() == i);
            let prev = entries[(i - 1) as usize];
            if entry.timestamp < prev.timestamp || (entry.timestamp == prev.timestamp
                && entry.frame_id < prev.frame_id) {
                assert(!entry_leq(entry_at(data@, i - 1), entry_at(data@, i as int)));
                assert(whole_entries(data@) >= i + 1);
                assert(has_descent(data@, (if count <= whole_entries(data@) { count as int } else { whole_entries(data@) })));
                return Err(TimeIndexError::EntriesNotSorted);
            }
        }
        proof {
            lemma_push_keeps_canonical(entries@, entry);
        }
        entries.push(entry);
        i = i + 1;
        assert(entries@ =~= stored_entries(data@, i as int));
    }
    assert(whole_entries(data@) >= count);
    Ok(entries)
}

/// The bytes of `n` entries take `16 * n` bytes, and entry `i` lies at `16 * i`.
pub proof fn lemma_entries_bytes_layout(s: Seq<TimeIndexEntry>)
    ensures
        entries_bytes(s).len() == 16 * s.len(),
        forall|i: int| #![trigger s[i]] 0 <= i < s.len()
            ==> entries_bytes(s).subrange(16 * i, 16 * i + 16) == entry_bytes(s[i]),
    decreases s.len(),
{
    lemma_le_roundtrip();
    if s.len() > 0 {
        let p = s.drop_last();
        lemma_entries_bytes_layout(p);
        let b = entries_bytes(s);
        assert(b == entries_bytes(p) + entry_bytes(s.last()));
        assert forall|i: int| #![trigger s[i]] 0 <= i < s.len()
            implies b.subrange(16 * i, 16 * i + 16) == entry_bytes(s[i]) by {
            if i < p.len() {
                assert(p[i] == s[i]);
                assert(b.subrange(16 * i, 16 * i + 16) =~= entries_bytes(p).subrange(16 * i, 16 * i + 16));
            } else {
                assert(b.subrange(16 * i, 16 * i + 16) =~= entry_bytes(s.last()));
            }
        }
    }
}

/// Reading back a track written from a canonical sequence gives that sequence.
pub proof fn lemma_track_roundtrip(s: Seq<TimeIndexEntry>)
    requires
        is_canonical(s),
        12 + 16 * s.len() <= u64::MAX,
    ensures
        track_bytes(s).len() == 12 + 16 * s.len(),
        track_outcome(track_bytes(s), track_bytes(s).len() as u64) == Ok::<_, TimeIndexError>(s),
{
    lemma_le_roundtrip();
    lemma_entries_bytes_layout(s);
    let t = track_bytes(s);
    let n = s.len() as u64;
    assert(t.subrange(0, 4) =~= magic());
    assert(t.subrange(4, 12) =~= spec_u64_to_le_bytes(n));
    assert(declared_count(t) == n);
    assert forall|i: int| 0 <= i < s.len() implies #[trigger] entry_at(t, i) == s[i] by {
        let eb = entries_bytes(s).subrange(16 * i, 16 * i + 16);
        assert(eb == entry_bytes(s[i]));
        assert(t.subrange(entry_pos(i), entry_pos(i) + 8) =~= eb.subrange(0, 8));
        assert(t.subrange(entry_pos(i) + 8, entry_pos(i) + 16) =~= eb.subrange(8, 16));
        assert(eb.subrange(0, 8) =~= i64_le(s[i].timestamp));
        assert(eb.subrange(8, 16) =~= spec_u64_to_le_bytes(s[i].frame_id));
    }
    assert(stored_entries(t, s.len() as int) =~= s);
    if has_descent(t, s.len() as int) {
        let i = choose|i: int| 0 < i < s.len() && !entry_leq(#[trigger] entry_at(t, i - 1), entry_at(t, i));
        assert((entry_order())(s[i - 1], s[i]));
    }
}

/// A written track is the magic `MVTI`, the number of entries as a little-endian `u64`,
/// then for each entry its timestamp (`i64::to_le_bytes`) and frame id (`u64::to_le_bytes`).
pub proof fn law_track_bytes_are_little_endian(s: Seq<TimeIndexEntry>)
    ensures
        track_bytes(s).len() == 12 + 16 * s.len(),
        track_bytes(s).subrange(0, 4) == seq![0x4du8, 0x56u8, 0x54u8, 0x49u8],
        track_bytes(s).subrange(4, 12) == spec_u64_to_le_bytes(s.len() as u64),
        forall|i: int| #![trigger s[i]] 0 <= i < s.len() ==> {
            &&& track_bytes(s).subrange(12 + 16 * i, 12 + 16 * i + 8) == spec_u64_to_le_bytes(s[i].timestamp as u64)
            &&& track_bytes(s).subrange(12 + 16 * i + 8, 12 + 16 * i + 16) == spec_u64_to_le_bytes(s[i].frame_id)
        },
{
    lemma_le_roundtrip();
    lemma_entries_bytes_layout(s);
    let t = track_bytes(s);
    assert(t.subrange(0, 4) =~= magic());
    assert(t.subrange(4, 12) =~= spec_u64_to_le_bytes(s.len() as u64));
    assert forall|i: int| #![trigger s[i]] 0 <= i < s.len() implies {
        &&& t.subrange(12 + 16 * i, 12 + 16 * i + 8) == spec_u64_to_le_bytes(s[i].timestamp as u64)
        &&& t.subrange(12 + 16 * i + 8, 12 + 16 * i + 16) == spec_u64_to_le_bytes(s[i].frame_id)
    } by {
        let eb = entries_bytes(s).subrange(16 * i, 16 * i + 16);
        assert(eb == entry_bytes(s[i]));
        assert(t.subrange(12 + 16 * i, 12 + 16 * i + 8) =~= eb.subrange(0, 8));
        assert(t.subrange(12 + 16 * i + 8, 12 + 16 * i + 16) =~= eb.subrange(8, 16));
        assert(eb.subrange(0, 8) =~= i64_le(s[i].timestamp));
        assert(eb.subrange(8, 16) =~= spec_u64_to_le_bytes(s[i].frame_id));
    }
}

/// Reading a track checks the magic `MVTI`, takes the entry count as the little-endian `u64`
/// after it (the declared length must be the header plus 16 bytes per entry), and takes each
/// entry's timestamp as `i64::from_le_bytes` and frame id as `u64::from_le_bytes` of its bytes.
pub proof fn law_track_read_little_endian(data: Seq<u8>, length: u64)
    ensures
        header_outcome(data, length) matches Ok(c) ==> {
            &&& data.subrange(0, 4) == seq![0x4du8, 0x56u8, 0x54u8, 0x49u8]
            &&& c == spec_u64_from_le_bytes(data.subrange(4, 12))
            &&& length == 12 + 16 * c
        },
        track_outcome(data, length) matches Ok(es) ==> {
            &&& es.len() == spec_u64_from_le_bytes(data.subrange(4, 12))
            &&& forall|i: int| #![trigger es[i]] 0 <= i < es.len() ==> {
                &&& es[i].timestamp == spec_u64_from_le_bytes(data.subrange(12 + 16 * i, 12 + 16 * i + 8)) as i64
                &&& es[i].frame_id == spec_u64_from_le_bytes(data.subrange(12 + 16 * i + 8, 12 + 16 * i + 16))
            }
        },
{
}

/// Writes the track holding `entries`, in the given order.
pub fn encode_track(entries: &[TimeIndexEntry]) -> (bytes: Vec<u8>)
    ensures
        bytes@ == track_bytes(entries@),
{
    let mut out: Vec<u8> = Vec::new();
    out.push(TIME_INDEX_MAGIC[0]);
    out.push(TIME_INDEX_MAGIC[1]);
    out.push(TIME_INDEX_MAGIC[2]);
    out.push(TIME_INDEX_MAGIC[3]);
    assert(out@ =~= magic());
    push_u64_le(&mut out, entries.len() as u64);
    let ghost head = out@;
    let mut i: usize = 0;
    while i < entries.len()
        invariant
            i <= entries@.len(),
            head == magic() + spec_u64_to_le_bytes(entries@.len() as u64),
            out@ == head + entries_bytes(entries@.take(i as int)),
        decreases entries@.len() - i,
    {
        let e = entries[i];
        push_i64_le(&mut out, e.timestamp);
        push_u64_le(&mut out, e.frame_id);
        proof {
            let t = entries@.take(i + 1);
            assert(t.drop_last() =~= entries@.take(i as int));
            assert(t.last() == e);
            assert(out@ =~= head + entries_bytes(t));
        }
        i = i + 1;
    }
    assert(entries@.take(i as int) =~= entries@);
    out
}

} // verus!
