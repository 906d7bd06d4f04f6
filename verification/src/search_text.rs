//! Where a frame's search text comes from, and the text of binary payloads.
use crate::memvid::{Frame, FrameRole, Memvid};
use vstd::prelude::*;
use vstd::string::StringExecFns;
use vstd::utf8::{decode_utf8, valid_utf8};

verus! {

/// The decimal digit `d` as a character.
pub open spec fn digit_char(d: nat) -> char {
    (48 + d) as char
}

/// The decimal representation of `n`, without leading zeros.
pub open spec fn decimal(n: nat) -> Seq<char>
    decreases n,
{
    if n < 10 {
        seq![digit_char(n)]
    } else {
        decimal(n / 10).push(digit_char(n % 10))
    }
}

/// The decimal digit `d` as a one-character string.
fn digit_str(d: usize) -> (s: &'static str)
    requires
        d < 10,
    ensures
        s@ == seq![digit_char(d as nat)],
{
    proof {
        reveal_strlit("0");
        reveal_strlit("1");
        reveal_strlit("2");
        reveal_strlit("3");
        reveal_strlit("4");
        reveal_strlit("5");
        reveal_strlit("6");
        reveal_strlit("7");
        reveal_strlit("8");
        reveal_strlit("9");
    }
    match d {
        0 => "0",
        1 => "1",
        2 => "2",
        3 => "3",
        4 => "4",
        5 => "5",
        6 => "6",
        7 => "7",
        8 => "8",
        _ => "9",
    }
}

/// Appends the decimal representation of `n` to `out`.
pub(crate) fn push_decimal(out: &mut String, n: usize)
    ensures
        final(out)@ == old(out)@ + decimal(n as nat),
    decreases n,
{
    if n >= 10 {
        push_decimal(out, n / 10);
    }
    let d = digit_str(n % 10);
    out.append(d);
    proof {
        if n >= 10 {
            assert(decimal(n as nat) == decimal((n / 10) as nat).push(digit_char((n % 10) as nat)));
        }
        assert(out@ =~= old(out)@ + decimal(n as nat));
    }
}

/// The text that stands for a binary payload of `len` bytes.
pub open spec fn binary_summary(len: nat) -> Seq<char> {
    "<binary payload: "@ + decimal(len) + " bytes>"@
}

impl Memvid {
    /// The text that stands for a binary payload of `len` bytes:
    /// `<binary payload: {len} bytes>`.
    pub fn render_binary_summary(len: usize) -> (s: String)
        ensures
            s@ == binary_summary(len as nat),
    {
        if len == 0 {
            let s = String::from_str("<binary payload: 0 bytes>");
            proof {
                reveal_strlit("<binary payload: 0 bytes>");
                reveal_strlit("<binary payload: ");
                reveal_strlit(" bytes>");
                assert(decimal(0) == seq!['0']);
                assert(s@ =~= binary_summary(0));
            }
            s
        } else {
            let mut s = String::from_str("<binary payload: ");
            push_decimal(&mut s, len);
            s.append(" bytes>");
            s
        }
    }
}

/// The characters that lossy UTF-8 decoding makes of `bytes`.
pub uninterp spec fn utf8_lossy(bytes: Seq<u8>) -> Seq<char>;

/// Decodes `bytes` with `String::from_utf8`. Claimed of it, as std documents: the text
/// when the bytes are valid UTF-8, otherwise an error whose `into_bytes` gives the bytes
/// back.
#[verifier::external_body]
fn utf8_text(bytes: Vec<u8>) -> (r: Result<String, Vec<u8>>)
    ensures
        match r {
            Ok(s) => valid_utf8(bytes@) && s@ == decode_utf8(bytes@),
            Err(b) => !valid_utf8(bytes@) && b@ == bytes@,
        },
{
    match String::from_utf8(bytes) {
        Ok(text) => Ok(text),
        Err(err) => Err(err.into_bytes()),
    }
}

/// Decodes `bytes` with `String::from_utf8_lossy`, which std documents to leave valid
/// UTF-8 unchanged and to replace invalid sequences. Claimed of it: the text is
/// `utf8_lossy` of the bytes, and the plain decoding when they are valid UTF-8.
#[verifier::external_body]
fn utf8_lossy_text(bytes: &[u8]) -> (s: String)
    ensures
        s@ == utf8_lossy(bytes@),
        valid_utf8(bytes@) ==> s@ == decode_utf8(bytes@),
{
    String::from_utf8_lossy(bytes).into_owned()
}

/// The text of a chunk's payload before normalization: the payload itself when it is UTF-8,
/// otherwise the summary of a binary payload of its size.
pub open spec fn strict_payload_text(bytes: Seq<u8>) -> Seq<char> {
    if valid_utf8(bytes) {
        decode_utf8(bytes)
    } else {
        binary_summary(bytes.len())
    }
}

/// Where the search text of a frame comes from.
pub enum SearchTextSource {
    /// The text persisted in the table of contents.
    Persisted(String),
    /// The normalized text of the frame's own payload, read strictly
    /// (see `Memvid::chunk_text`): the frame is a document chunk.
    ChunkPayload,
    /// The normalized text of the first chunk's payload, read lossily
    /// (see `Memvid::first_chunk_text`), or nothing when there is no chunk: the frame is
    /// a chunked document's parent.
    FirstChunkPayload,
    /// The frame's fields augmenting the normalized text extracted from its payload.
    ExtractedPayload,
    /// The frame's fields alone: the frame has no payload.
    FieldsOnly,
}

/// The source from which the search text of `frame` is rebuilt.
pub open spec fn derived_source_is(frame: Frame, src: SearchTextSource) -> bool {
    if frame.role == FrameRole::DocumentChunk {
        src is ChunkPayload
    } else if frame.has_chunk_manifest {
        src is FirstChunkPayload
    } else if frame.payload_length == 0 {
        src is FieldsOnly
    } else {
        src is ExtractedPayload
    }
}

impl Memvid {
    /// Where the search text that `frame`'s table of contents entry would have carried is
    /// rebuilt from: a chunk from its own payload, a chunked parent from its first chunk,
    /// any other frame from the extraction of its payload (if any) augmented by its fields.
    pub fn derive_frame_search_text(&self, frame: &Frame) -> (src: SearchTextSource)
        ensures
            derived_source_is(*frame, src),
    {
        if frame.role == FrameRole::DocumentChunk {
            SearchTextSource::ChunkPayload
        } else if frame.has_chunk_manifest {
            SearchTextSource::FirstChunkPayload
        } else if frame.payload_length == 0 {
            SearchTextSource::FieldsOnly
        } else {
            SearchTextSource::ExtractedPayload
        }
    }

    /// Where the search text of `frame` comes from: the persisted copy when present,
    /// otherwise the source it is rebuilt from.
    pub fn frame_search_text(&self, frame: &Frame) -> (src: SearchTextSource)
        ensures
            match frame.search_text {
                Some(text) => src matches SearchTextSource::Persisted(s) && s@ == text@,
                None => derived_source_is(*frame, src),
            },
    {
        match &frame.search_text {
            Some(text) => SearchTextSource::Persisted(text.clone()),
            None => self.derive_frame_search_text(frame),
        }
    }

    /// The text of a chunk's payload: the payload when it is UTF-8, otherwise the
    /// summary of a binary payload of its size.
    pub fn chunk_text(bytes: Vec<u8>) -> (s: String)
        ensures
            s@ == strict_payload_text(bytes@),
    {
        match utf8_text(bytes) {
            Ok(text) => text,
            Err(b) => Memvid::render_binary_summary(b.len()),
        }
    }

    /// The text of a chunked document's first chunk, decoded lossily.
    pub fn first_chunk_text(bytes: &[u8]) -> (s: String)
        ensures
            s@ == utf8_lossy(bytes@),
            valid_utf8(bytes@) ==> s@ == decode_utf8(bytes@),
    {
        utf8_lossy_text(bytes)
    }
}

/// The number that a string of decimal digits denotes.
pub open spec fn digits_value(s: Seq<char>) -> int
    decreases s.len(),
{
    if s.len() == 0 {
        0
    } else {
        10 * digits_value(s.drop_last()) + (s.last() as int - 48)
    }
}

/// The decimal text of `n` is made of the digits `0`-`9`, denotes `n`, and has no leading
/// zero (zero itself is `0`).
pub proof fn law_decimal_digits(n: nat)
    ensures
        decimal(n).len() > 0,
        forall|i: int| 0 <= i < decimal(n).len() ==> '0' <= #[trigger] decimal(n)[i] <= '9',
        digits_value(decimal(n)) == n,
        n == 0 ==> decimal(n) == seq!['0'],
        n > 0 ==> decimal(n)[0] != '0',
    decreases n,
{
    if n < 10 {
        assert(decimal(n) == seq![digit_char(n)]);
        assert(decimal(n).drop_last() =~= Seq::<char>::empty());
        assert(digit_char(n) as int == 48 + n);
        assert(decimal(n).last() == digit_char(n));
        assert(digits_value(decimal(n).drop_last()) == 0);
        assert(digits_value(decimal(n)) == n);
    } else {
        law_decimal_digits(n / 10);
        let p = decimal(n / 10);
        assert(decimal(n) == p.push(digit_char(n % 10)));
        assert(decimal(n).drop_last() =~= p);
        assert(digit_char(n % 10) as int == 48 + n % 10);
        assert(decimal(n).last() == digit_char(n % 10));
        assert(digits_value(decimal(n)) == 10 * digits_value(p) + (n % 10));
        assert(10 * (n / 10) + n % 10 == n);
        assert(decimal(n)[0] == p[0]);
        assert forall|i: int| 0 <= i < decimal(n).len() implies '0' <= #[trigger] decimal(n)[i] <= '9' by {
            if i < p.len() {
                assert(decimal(n)[i] == p[i]);
            }
        }
    }
}

} // verus!
