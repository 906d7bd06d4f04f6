# memvid_core (verified core)

The time index track of a memvid `.mv2` file and the vector-dimension and
embedding-identity helpers of a memory, written in Verus with their contracts proved.

Layout of `src/`:

- `entry.rs` — `TimeIndexEntry` and the canonical `(timestamp, frame_id)` order.
- `codec.rs` — little-endian encoding of the track's integers.
- `track.rs` — the track layout (`magic ++ count ++ entries`), header validation,
  `encode_track` and `read_track`.
- `time_index.rs` — `append_track` and `calculate_checksum` (BLAKE3), and the laws
  tying writing, reading back and checksumming together.
- `range.rs` — `read_range`: a state machine that binary-searches a sorted track
  through byte-range requests. The header is always checked first; an inverted window
  over a well-formed track has no entries. Laws: the answer is the filtered track, a
  wider window gives a run containing the narrower answer, and the number of requests
  is bounded by the binary digits of the entry count; past the header every request is
  an 8-byte probe except one span read of 16 bytes per returned entry.
- `checksum.rs` — the call into `blake3`.
- `memvid.rs` — the table-of-contents model, `vec_index_dimension`,
  `effective_vec_index_dimension` (with `VecDimensionError::reason`) and
  `embedding_identity_summary`. Laws: zero-dimension segments and the order of the
  catalog do not change the effective dimension; inactive frames do not change the
  summary; a larger scan budget never loses an identity.
- `search_text.rs` — where a frame's search text comes from, and the text that
  stands for a binary payload.

`app/` holds the file I/O: it writes and reads tracks through `Read + Seek + Write`
handles and drives the range reader with seeks.

Notes on the shape of the helpers:

- `embedding_identity_summary` counts identities in two vectors (distinct identities and
  their tallies) instead of a `HashMap<EmbeddingIdentity, u64>`: the identity holds
  strings, and its `Eq` and `Hash` would come from `derive`, which Verus does not read,
  so nothing could be proved of a map keyed by it. The vectors carry the invariant
  that no identity occurs twice. Identities with equal counts come out in the order
  they were first seen; the map left that order open.
- `frame_search_text` and `derive_frame_search_text` return a `SearchTextSource` (the
  persisted text, or which payload the text is rebuilt from) instead of the text:
  reading payloads, extraction, normalization and augmentation belong to parts of
  memvid that are not part of this crate. The decoding of chunk payloads
  (`chunk_text`, `first_chunk_text`) is here.
- `augment_text_for_frame` is not here: its whole body is one call of memvid's
  `augment_search_text`, which is not part of this crate, so nothing of it can be
  written or verified here.
- The table of contents (`Toc`, `Frame`, `EmbeddingIdentity`) is modelled with the fields
  these helpers read; a frame carries the identity its extra metadata declares.
