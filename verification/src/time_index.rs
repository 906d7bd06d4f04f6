//! Building and checksumming time index tracks.
use crate::checksum::{blake3_digest, blake3_hash};
use crate::entry::{canonical, is_canonical, entry_order, lemma_canonical_unique, lemma_entry_order_total, sort_canonical, TimeIndexEntry};
use crate::track::{encode_track, lemma_track_roundtrip, track_bytes, track_outcome, TimeIndexError};
use vstd::prelude::*;
use vstd::slice::slice_to_vec;

verus! {

/// Sorts `entries` in place by `(timestamp, frame_id)` and returns the bytes of the track
/// holding them, ready to be appended to a file, with the track's BLAKE3 checksum.
pub fn append_track(entries: &mut [TimeIndexEntry]) -> (r: (Vec<u8>, [u8; 32]))
    ensures
        final(entries)@ == canonical(old(entries)@),
        r.0@ == track_bytes(final(entries)@),
        r.1@ == blake3_digest(r.0@),
{
    sort_canonical(entries);
    let bytes = encode_track(entries);
    let checksum = blake3_hash(bytes.as_slice());
    (bytes, checksum)
}

/// Calculates the checksum for the provided entries in canonical order.
pub fn calculate_checksum(entries: &[TimeIndexEntry]) -> (digest: [u8; 32])
    ensures
        digest@ == blake3_digest(track_bytes(canonical(entries@))),
{
    let mut sorted = slice_to_vec(entries);
    sort_canonical(sorted.as_mut_slice());
    let bytes = encode_track(sorted.as_slice());
    blake3_hash(bytes.as_slice())
}

/// The canonical arrangement is in canonical order, holds the same entries, and depends only
/// on which entries there are, not on their order.
pub proof fn lemma_canonical_properties(a: Seq<TimeIndexEntry>, b: Seq<TimeIndexEntry>)
    ensures
        is_canonical(canonical(a)),
        canonical(a).to_multiset() == a.to_multiset(),
        canonical(canonical(a)) == canonical(a),
        a.to_multiset() == b.to_multiset() ==> canonical(a) == canonical(b),
{
    lemma_entry_order_total();
    a.lemma_sort_by_ensures(entry_order());
    lemma_canonical_unique(canonical(a), canonical(a));
    if a.to_multiset() == b.to_multiset() {
        lemma_canonical_unique(b, canonical(a));
    }
}

/// The checksum of a collection of entries does not depend on the order they are given in.
pub proof fn law_checksum_ignores_order(a: Seq<TimeIndexEntry>, b: Seq<TimeIndexEntry>)
    requires
        a.to_multiset() == b.to_multiset(),
    ensures
        blake3_digest(track_bytes(canonical(a))) == blake3_digest(track_bytes(canonical(b))),
{
    lemma_canonical_properties(a, b);
}

/// Reading back the track that `append_track` writes for `entries` gives the entries in
/// canonical order, and the checksum computed from what was read back is the checksum that
/// `append_track` returned.
pub proof fn law_append_then_read(entries: Seq<TimeIndexEntry>)
    requires
        12 + 16 * entries.len() <= u64::MAX,
    ensures
        ({
            let written = canonical(entries);
            let bytes = track_bytes(written);
            &&& bytes.len() == 12 + 16 * entries.len()
            &&& track_outcome(bytes, bytes.len() as u64) == Ok::<_, TimeIndexError>(written)
            &&& blake3_digest(track_bytes(canonical(written))) == blake3_digest(bytes)
        }),
{
    lemma_canonical_properties(entries, entries);
    entries.to_multiset_ensures();
    canonical(entries).to_multiset_ensures();
    lemma_track_roundtrip(canonical(entries));
}

} // verus!
