use memvid_core::entry::TimeIndexEntry;
use memvid_core::time_index::{append_track, calculate_checksum};
use memvid_core::track::{encode_track, read_header, read_track, TimeIndexError, TIME_INDEX_MAGIC};

fn track_of(pairs: &[(i64, u64)]) -> Vec<u8> {
    let mut bytes = TIME_INDEX_MAGIC.to_vec();
    bytes.extend_from_slice(&(pairs.len() as u64).to_le_bytes());
    for (ts, id) in pairs {
        bytes.extend_from_slice(&ts.to_le_bytes());
        bytes.extend_from_slice(&id.to_le_bytes());
    }
    bytes
}

#[test]
fn append_and_read_roundtrip() {
    let mut entries = vec![
        TimeIndexEntry::new(30, 2),
        TimeIndexEntry::new(10, 0),
        TimeIndexEntry::new(20, 1),
    ];

    let (bytes, checksum) = append_track(&mut entries);
    let length = bytes.len() as u64;
    assert_eq!(entries[0].timestamp, 10); // sorted in place
    let read_entries = read_track(&bytes, length).expect("read track");
    assert_eq!(read_entries.len(), 3);
    assert!(read_entries
        .windows(2)
        .all(|w| w[0].timestamp <= w[1].timestamp));

    let expected_checksum = calculate_checksum(&read_entries);
    assert_eq!(checksum, expected_checksum);
}

#[test]
fn read_rejects_unsorted_entries() {
    // Craft an invalid track where entries descend.
    let bytes = track_of(&[(50, 5), (40, 4)]);
    let length = bytes.len() as u64;
    let err = read_track(&bytes, length).expect_err("unsorted entries must fail");
    assert!(matches!(err, TimeIndexError::EntriesNotSorted));
}

#[test]
fn calculate_checksum_is_deterministic() {
    let entries = vec![
        TimeIndexEntry::new(5, 10),
        TimeIndexEntry::new(1, 2),
        TimeIndexEntry::new(5, 9),
    ];
    let checksum_a = calculate_checksum(&entries);
    let checksum_b = calculate_checksum(&entries);
    assert_eq!(checksum_a, checksum_b);
}

#[test]
fn checksum_ignores_input_order() {
    let a = vec![
        TimeIndexEntry::new(5, 10),
        TimeIndexEntry::new(1, 2),
        TimeIndexEntry::new(5, 9),
    ];
    let b = vec![
        TimeIndexEntry::new(5, 9),
        TimeIndexEntry::new(5, 10),
        TimeIndexEntry::new(1, 2),
    ];
    assert_eq!(calculate_checksum(&a), calculate_checksum(&b));
    let c = vec![TimeIndexEntry::new(5, 9), TimeIndexEntry::new(1, 2)];
    assert_ne!(calculate_checksum(&a), calculate_checksum(&c));
}

#[test]
fn checksum_is_blake3_of_the_canonical_track() {
    let entries = vec![TimeIndexEntry::new(7, 1), TimeIndexEntry::new(-3, 4)];
    let expected = *blake3::hash(&track_of(&[(-3, 4), (7, 1)])).as_bytes();
    assert_eq!(calculate_checksum(&entries), expected);
    let empty_track = track_of(&[]);
    assert_eq!(calculate_checksum(&[]), *blake3::hash(&empty_track).as_bytes());
    assert_ne!(calculate_checksum(&[]).to_vec(), empty_track);
}

#[test]
fn append_writes_the_documented_layout() {
    let mut entries = vec![TimeIndexEntry::new(-1, 9), TimeIndexEntry::new(-1, 3), TimeIndexEntry::new(-5, 7)];
    let (bytes, checksum) = append_track(&mut entries);
    assert_eq!(bytes, track_of(&[(-5, 7), (-1, 3), (-1, 9)]));
    assert_eq!(bytes.len(), 12 + 16 * 3);
    assert_eq!(checksum, *blake3::hash(&bytes).as_bytes());
    assert_eq!(entries, vec![TimeIndexEntry::new(-5, 7), TimeIndexEntry::new(-1, 3), TimeIndexEntry::new(-1, 9)]);
}

#[test]
fn encode_keeps_the_given_order() {
    let entries = vec![TimeIndexEntry::new(9, 1), TimeIndexEntry::new(2, 2)];
    assert_eq!(encode_track(&entries), track_of(&[(9, 1), (2, 2)]));
}

#[test]
fn read_back_of_empty_track() {
    let mut entries: Vec<TimeIndexEntry> = vec![];
    let (bytes, _) = append_track(&mut entries);
    assert_eq!(bytes.len(), 12);
    assert_eq!(read_track(&bytes, 12), Ok(vec![]));
}

#[test]
fn read_accepts_equal_timestamps_ordered_by_frame() {
    let bytes = track_of(&[(10, 1), (10, 2), (11, 0)]);
    let got = read_track(&bytes, bytes.len() as u64).unwrap();
    assert_eq!(got, vec![TimeIndexEntry::new(10, 1), TimeIndexEntry::new(10, 2), TimeIndexEntry::new(11, 0)]);
    let bad = track_of(&[(10, 2), (10, 1)]);
    assert_eq!(read_track(&bad, bad.len() as u64), Err(TimeIndexError::EntriesNotSorted));
}

#[test]
fn read_ignores_bytes_past_the_track() {
    let mut bytes = track_of(&[(1, 1)]);
    let length = bytes.len() as u64;
    bytes.extend_from_slice(&[0xff; 20]);
    assert_eq!(read_track(&bytes, length), Ok(vec![TimeIndexEntry::new(1, 1)]));
}

#[test]
fn read_rejects_bad_magic() {
    let mut bytes = track_of(&[(1, 1)]);
    bytes[0] ^= 0xff;
    assert_eq!(read_track(&bytes, bytes.len() as u64), Err(TimeIndexError::MagicMismatch));
    // The magic is checked before the length.
    assert_eq!(read_track(&bytes[..6], 3), Err(TimeIndexError::MagicMismatch));
}

#[test]
fn read_rejects_short_length() {
    let bytes = track_of(&[]);
    assert_eq!(read_track(&bytes, 11), Err(TimeIndexError::LengthShorterThanHeader));
}

#[test]
fn read_rejects_count_overflow() {
    let mut bytes = TIME_INDEX_MAGIC.to_vec();
    bytes.extend_from_slice(&(u64::MAX / 8).to_le_bytes());
    assert_eq!(read_track(&bytes, 12), Err(TimeIndexError::EntryCountOverflow));
    assert_eq!(read_header(&bytes, 12), Err(TimeIndexError::EntryCountOverflow));
}

#[test]
fn read_rejects_length_mismatch() {
    let bytes = track_of(&[(1, 1), (2, 2)]);
    assert_eq!(read_track(&bytes, bytes.len() as u64 - 16), Err(TimeIndexError::LengthMismatch));
    assert_eq!(read_track(&bytes, bytes.len() as u64 + 1), Err(TimeIndexError::LengthMismatch));
}

#[test]
fn read_reports_truncated_data() {
    let bytes = track_of(&[(1, 1), (2, 2)]);
    let length = bytes.len() as u64;
    assert_eq!(read_track(&bytes[..3], length), Err(TimeIndexError::UnexpectedEof));
    assert_eq!(read_track(&bytes[..10], length), Err(TimeIndexError::UnexpectedEof));
    assert_eq!(read_track(&bytes[..40], length), Err(TimeIndexError::UnexpectedEof));
    // A descent seen before the data runs out wins.
    let descending = track_of(&[(5, 1), (4, 1), (9, 9)]);
    assert_eq!(
        read_track(&descending[..44], descending.len() as u64),
        Err(TimeIndexError::EntriesNotSorted)
    );
}

#[test]
fn header_reports_declared_count() {
    let bytes = track_of(&[(1, 1), (2, 2), (3, 3)]);
    assert_eq!(read_header(&bytes, bytes.len() as u64), Ok(3));
}

#[test]
fn error_reasons() {
    assert_eq!(TimeIndexError::MagicMismatch.reason(), "magic mismatch");
    assert_eq!(TimeIndexError::LengthShorterThanHeader.reason(), "length shorter than header");
    assert_eq!(TimeIndexError::EntryCountOverflow.reason(), "entry count overflow");
    assert_eq!(TimeIndexError::LengthMismatch.reason(), "length does not match declared count");
    assert_eq!(TimeIndexError::EntriesNotSorted.reason(), "entries not sorted");
}
