use memvid_core::entry::TimeIndexEntry;
use memvid_core::range::{self as range, RangeStep};
use memvid_core::time_index::append_track;
use memvid_core::track::{read_track, TimeIndexError, TIME_INDEX_MAGIC};

/// Runs a range read against the track bytes `track`, counting the requests.
fn run(track: &[u8], length: u64, start: Option<i64>, end: Option<i64>) -> (Result<Vec<TimeIndexEntry>, TimeIndexError>, usize) {
    let (mut reader, mut step) = range::read_range(length, start, end);
    let mut requests = 0;
    loop {
        match step {
            RangeStep::Read { from, len } => {
                requests += 1;
                let a = (from as usize).min(track.len());
                let b = (from as usize + len as usize).min(track.len());
                step = reader.feed(&track[a..b]);
            }
            RangeStep::Done(v) => return (Ok(v), requests),
            RangeStep::Failed(e) => return (Err(e), requests),
        }
    }
}

fn read_range(track: &[u8], length: u64, start: Option<i64>, end: Option<i64>) -> Result<Vec<TimeIndexEntry>, TimeIndexError> {
    run(track, length, start, end).0
}

fn oracle_range(entries: &[TimeIndexEntry], start: Option<i64>, end: Option<i64>) -> Vec<u64> {
    let mut ids: Vec<u64> = entries
        .iter()
        .filter(|e| start.map_or(true, |s| e.timestamp >= s) && end.map_or(true, |x| e.timestamp <= x))
        .map(|e| e.frame_id)
        .collect();
    ids.sort_unstable();
    ids
}

fn track_of(pairs: &[(i64, u64)]) -> Vec<u8> {
    let mut bytes = TIME_INDEX_MAGIC.to_vec();
    bytes.extend_from_slice(&(pairs.len() as u64).to_le_bytes());
    for (ts, id) in pairs {
        bytes.extend_from_slice(&ts.to_le_bytes());
        bytes.extend_from_slice(&id.to_le_bytes());
    }
    bytes
}

#[test]
fn read_range_matches_linear_filter_across_windows() {
    // Duplicate timestamps + gaps exercise the (ts, frame_id) ordering
    // and the boundary binary searches.
    let mut entries = vec![
        TimeIndexEntry::new(10, 0),
        TimeIndexEntry::new(10, 1),
        TimeIndexEntry::new(20, 2),
        TimeIndexEntry::new(30, 3),
        TimeIndexEntry::new(30, 4),
        TimeIndexEntry::new(50, 5),
        TimeIndexEntry::new(90, 6),
    ];
    let (bytes, _) = append_track(&mut entries);
    let length = bytes.len() as u64;
    let sorted = read_track(&bytes, length).expect("read");

    // Every window shape: inclusive bounds, on/off entry timestamps,
    // one-sided, fully outside, and inverted.
    let bounds = [
        (Some(10), Some(90)),
        (Some(10), Some(10)),
        (Some(30), Some(30)),
        (Some(25), Some(55)),
        (Some(0), Some(5)),
        (Some(91), Some(1000)),
        (Some(30), None),
        (None, Some(20)),
        (None, None),
        (Some(60), Some(20)), // inverted → empty
    ];
    for (start, end) in bounds {
        let mut got: Vec<u64> = read_range(&bytes, length, start, end)
            .expect("read_range")
            .into_iter()
            .map(|e| e.frame_id)
            .collect();
        got.sort_unstable();
        assert_eq!(got, oracle_range(&sorted, start, end), "range {start:?}..={end:?} mismatch");
    }
}

#[test]
fn read_range_on_empty_track_is_empty() {
    let mut entries: Vec<TimeIndexEntry> = vec![];
    let (bytes, _) = append_track(&mut entries);
    let got = read_range(&bytes, bytes.len() as u64, Some(0), Some(100)).expect("read_range");
    assert!(got.is_empty());
}

#[test]
fn range_keeps_track_order() {
    let bytes = track_of(&[(1, 9), (2, 8), (2, 7), (3, 6)]);
    let got = read_range(&bytes, bytes.len() as u64, Some(2), Some(2)).unwrap();
    assert_eq!(got, vec![TimeIndexEntry::new(2, 8), TimeIndexEntry::new(2, 7)]);
}

#[test]
fn inverted_window_reads_only_the_header() {
    let bytes = track_of(&[(1, 1), (5, 5)]);
    let (got, requests) = run(&bytes, bytes.len() as u64, Some(5), Some(4));
    assert_eq!(got, Ok(vec![]));
    assert_eq!(requests, 1);
}

#[test]
fn inverted_window_over_bad_magic_is_refused() {
    let mut bytes = track_of(&[(1, 1), (5, 5)]);
    bytes[0] = b'X';
    assert_eq!(read_range(&bytes, bytes.len() as u64, Some(1), Some(0)), Err(TimeIndexError::MagicMismatch));
    let good = track_of(&[(1, 1)]);
    assert_eq!(read_range(&good, 40, Some(1), Some(0)), Err(TimeIndexError::LengthMismatch));
    assert_eq!(read_range(&good[..3], 28, Some(1), Some(0)), Err(TimeIndexError::UnexpectedEof));
}

#[test]
fn widening_the_window_keeps_entries() {
    let bytes = track_of(&[(10, 0), (10, 1), (20, 2), (30, 3), (30, 4), (50, 5), (90, 6)]);
    let length = bytes.len() as u64;
    let windows = [(Some(20), Some(30)), (Some(15), Some(35)), (Some(10), None), (None, None)];
    for pair in windows.windows(2) {
        let (s1, e1) = pair[0];
        let (s2, e2) = pair[1];
        let narrow = read_range(&bytes, length, s1, e1).unwrap();
        let wide = read_range(&bytes, length, s2, e2).unwrap();
        let at = wide.iter().position(|e| Some(e) == narrow.first()).unwrap();
        assert_eq!(&wide[at..at + narrow.len()], &narrow[..]);
    }
}

#[test]
fn range_reads_few_bytes_of_a_long_track() {
    let pairs: Vec<(i64, u64)> = (0..4096).map(|i| (i as i64 * 10, i as u64)).collect();
    let bytes = track_of(&pairs);
    let (got, requests) = run(&bytes, bytes.len() as u64, Some(20_000), Some(20_030));
    let got = got.unwrap();
    assert_eq!(got.iter().map(|e| e.frame_id).collect::<Vec<_>>(), vec![2000, 2001, 2002, 2003]);
    // header + two searches of about log2(4096) probes each + one span read
    assert!(requests <= 1 + 2 * 13 + 1, "too many requests: {requests}");
}

#[test]
fn range_refuses_bad_headers() {
    let mut bytes = track_of(&[(1, 1)]);
    let length = bytes.len() as u64;
    assert_eq!(read_range(&bytes, 5, None, None), Err(TimeIndexError::LengthShorterThanHeader));
    assert_eq!(read_range(&bytes, length + 16, None, None), Err(TimeIndexError::LengthMismatch));
    bytes[1] = 0;
    assert_eq!(read_range(&bytes, length, None, None), Err(TimeIndexError::MagicMismatch));
    let mut huge = TIME_INDEX_MAGIC.to_vec();
    huge.extend_from_slice(&u64::MAX.to_le_bytes());
    assert_eq!(read_range(&huge, 12, None, None), Err(TimeIndexError::EntryCountOverflow));
}

#[test]
fn range_reports_truncated_track() {
    let bytes = track_of(&[(1, 1), (2, 2), (3, 3), (4, 4)]);
    let length = bytes.len() as u64;
    assert_eq!(read_range(&bytes[..2], length, None, None), Err(TimeIndexError::UnexpectedEof));
    assert_eq!(read_range(&bytes[..8], length, None, None), Err(TimeIndexError::UnexpectedEof));
    assert_eq!(read_range(&bytes[..30], length, None, None), Err(TimeIndexError::UnexpectedEof));
    assert_eq!(read_range(&bytes[..30], length, Some(4), None), Err(TimeIndexError::UnexpectedEof));
    // A window that only needs the front of the track still succeeds.
    assert_eq!(read_range(&bytes[..60], length, None, Some(1)), Ok(vec![TimeIndexEntry::new(1, 1)]));
}

#[test]
fn empty_match_reads_no_span() {
    let bytes = track_of(&[(1, 1), (5, 5)]);
    let got = read_range(&bytes, bytes.len() as u64, Some(2), Some(4)).unwrap();
    assert!(got.is_empty());
    let got = read_range(&bytes, bytes.len() as u64, Some(6), None).unwrap();
    assert!(got.is_empty());
}

#[test]
fn requests_are_probes_then_the_span() {
    let pairs: Vec<(i64, u64)> = (0..100).map(|i| (i as i64, i as u64)).collect();
    let bytes = track_of(&pairs);
    let (mut reader, mut step) = range::read_range(bytes.len() as u64, Some(40), Some(44));
    let mut lens = Vec::new();
    let answer = loop {
        match step {
            RangeStep::Read { from, len } => {
                lens.push(len);
                step = reader.feed(&bytes[from as usize..(from + len) as usize]);
            }
            RangeStep::Done(v) => break v,
            RangeStep::Failed(e) => panic!("{e:?}"),
        }
    };
    assert_eq!(answer.len(), 5);
    assert_eq!(lens[0], 12);
    assert!(lens[1..lens.len() - 1].iter().all(|&l| l == 8));
    assert_eq!(*lens.last().unwrap(), 16 * 5);
}
