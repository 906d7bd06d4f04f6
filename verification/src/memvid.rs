//! The parts of a memory's table of contents that its vector-index and embedding helpers
//! read, and those helpers.
use crate::search_text::{decimal, push_decimal};
use vstd::prelude::*;
use vstd::string::StringExecFns;

verus! {

/// The monolithic vector index manifest.
pub struct VecIndexManifest {
    pub dimension: u32,
}

/// The index manifests of a table of contents.
pub struct IndexManifests {
    pub vec: Option<VecIndexManifest>,
}

/// A vector segment of the segment catalog.
pub struct VecSegmentDescriptor {
    pub dimension: u32,
}

/// The segment catalog of a table of contents.
pub struct SegmentCatalog {
    pub vec_segments: Vec<VecSegmentDescriptor>,
}

/// The lifecycle status of a frame.
#[derive(Debug, Clone, Copy, PartialEq, Eq, Structural)]
pub enum FrameStatus {
    Active,
    Superseded,
    Deleted,
}

/// The embedding model a frame was embedded with, as its metadata declares it.
pub struct EmbeddingIdentity {
    pub provider: Option<String>,
    pub model: Option<String>,
    pub dimension: Option<u32>,
    pub normalized: Option<bool>,
}

/// An identity as plain values.
pub type IdentityView = (Option<Seq<char>>, Option<Seq<char>>, Option<u32>, Option<bool>);

/// The view of an optional string.
pub open spec fn opt_str_view(s: Option<String>) -> Option<Seq<char>> {
    match s {
        Some(x) => Some(x@),
        None => None,
    }
}

impl View for EmbeddingIdentity {
    type V = IdentityView;

    open spec fn view(&self) -> IdentityView {
        (opt_str_view(self.provider), opt_str_view(self.model), self.dimension, self.normalized)
    }
}

/// Compares two optional strings by content.
fn same_opt_str(a: &Option<String>, b: &Option<String>) -> (r: bool)
    ensures
        r == (opt_str_view(*a) == opt_str_view(*b)),
{
    match (a, b) {
        (Some(x), Some(y)) => x.eq(y),
        (None, None) => true,
        _ => false,
    }
}

/// Copies an optional string.
fn copy_opt_str(a: &Option<String>) -> (r: Option<String>)
    ensures
        opt_str_view(r) == opt_str_view(*a),
{
    match a {
        Some(x) => Some(x.clone()),
        None => None,
    }
}

impl EmbeddingIdentity {
    /// The two identities are the same.
    pub fn same_as(&self, other: &EmbeddingIdentity) -> (r: bool)
        ensures
            r == (self@ == other@),
    {
        same_opt_str(&self.provider, &other.provider) && same_opt_str(&self.model, &other.model)
            && self.dimension == other.dimension && self.normalized == other.normalized
    }

    /// A copy of the identity.
    pub fn duplicate(&self) -> (r: EmbeddingIdentity)
        ensures
            r@ == self@,
    {
        EmbeddingIdentity {
            provider: copy_opt_str(&self.provider),
            model: copy_opt_str(&self.model),
            dimension: self.dimension,
            normalized: self.normalized,
        }
    }
}

/// The role a frame plays in its document.
#[derive(Debug, Clone, Copy, PartialEq, Eq, Structural)]
pub enum FrameRole {
    Document,
    DocumentChunk,
}

/// A frame of the table of contents, with the fields the helpers read.
pub struct Frame {
    pub status: FrameStatus,
    pub role: FrameRole,
    /// The identity that the frame's extra metadata declares, if any.
    pub embedding_identity: Option<EmbeddingIdentity>,
    /// The search text persisted in the table of contents, if any.
    pub search_text: Option<String>,
    /// The frame is a chunked document's parent (it carries a chunk manifest).
    pub has_chunk_manifest: bool,
    pub payload_length: u64,
}

/// A table of contents, with the parts the helpers read.
pub struct Toc {
    pub indexes: IndexManifests,
    pub segment_catalog: SegmentCatalog,
    pub frames: Vec<Frame>,
}

/// A memory, seen through its table of contents.
pub struct Memvid {
    toc: Toc,
}

/// Why the vector dimension of a memory cannot be told.
#[derive(Debug, Clone, Copy, PartialEq, Eq, Structural)]
pub enum VecDimensionError {
    /// Two segments of the catalog declare different dimensions: the first one seen,
    /// then the first that differs from it.
    MixedSegmentDimensions { existing: u32, found: u32 },
    /// The manifest and the segment catalog declare different dimensions.
    ManifestSegmentMismatch { manifest: u32, segment: u32 },
}

impl VecDimensionError {
    /// The reason given for the refusal.
    pub fn reason(&self) -> (r: String)
        ensures
            r@ == match *self {
                VecDimensionError::MixedSegmentDimensions { existing, found } =>
                    "mixed vector dimensions detected in segment catalog: "@ + decimal(existing as nat)
                    + " and "@ + decimal(found as nat),
                VecDimensionError::ManifestSegmentMismatch { manifest, segment } =>
                    "vector dimension mismatch between manifest ("@ + decimal(manifest as nat)
                    + ") and segment catalog ("@ + decimal(segment as nat) + ")"@,
            },
    {
        match self {
            VecDimensionError::MixedSegmentDimensions { existing, found } => {
                let mut r = String::from_str("mixed vector dimensions detected in segment catalog: ");
                push_decimal(&mut r, *existing as usize);
                r.append(" and ");
                push_decimal(&mut r, *found as usize);
                r
            },
            VecDimensionError::ManifestSegmentMismatch { manifest, segment } => {
                let mut r = String::from_str("vector dimension mismatch between manifest (");
                push_decimal(&mut r, *manifest as usize);
                r.append(") and segment catalog (");
                push_decimal(&mut r, *segment as usize);
                r.append(")");
                r
            },
        }
    }
}

/// The dimension that the manifest declares, when it declares a nonzero one.
pub open spec fn manifest_dimension(vec: Option<VecIndexManifest>) -> Option<u32> {
    match vec {
        Some(m) => if m.dimension > 0 { Some(m.dimension) } else { None },
        None => None,
    }
}

/// Scanning the segment dimensions `dims` in order, having seen `seen` so far: zero
/// dimensions are skipped, the first nonzero one is kept, and the first nonzero one that
/// differs from it is a conflict `(kept, differing)`.
pub open spec fn scan_segment_dimensions(dims: Seq<u32>, seen: Option<u32>) -> Result<Option<u32>, (u32, u32)>
    decreases dims.len(),
{
    if dims.len() == 0 {
        Ok(seen)
    } else {
        let d = dims[0];
        let rest = dims.drop_first();
        if d == 0 {
            scan_segment_dimensions(rest, seen)
        } else {
            match seen {
                None => scan_segment_dimensions(rest, Some(d)),
                Some(x) => if x == d {
                    scan_segment_dimensions(rest, seen)
                } else {
                    Err((x, d))
                },
            }
        }
    }
}

/// The dimensions declared by the segments.
pub open spec fn segment_dims(segs: Seq<VecSegmentDescriptor>) -> Seq<u32> {
    segs.map_values(|d: VecSegmentDescriptor| d.dimension)
}

/// The effective vector dimension of a table of contents, or why it cannot be told.
pub open spec fn effective_dimension(toc: Toc) -> Result<Option<u32>, VecDimensionError> {
    let manifest = manifest_dimension(toc.indexes.vec);
    match scan_segment_dimensions(segment_dims(toc.segment_catalog.vec_segments@), None) {
        Err((existing, found)) => Err(VecDimensionError::MixedSegmentDimensions { existing, found }),
        Ok(segment) => match (manifest, segment) {
            (Some(m), Some(g)) => if m != g {
                Err(VecDimensionError::ManifestSegmentMismatch { manifest: m, segment: g })
            } else {
                Ok(Some(m))
            },
            (Some(m), None) => Ok(Some(m)),
            (None, g) => Ok(g),
        },
    }
}

impl Memvid {
    /// A memory with the table of contents `toc`.
    pub fn from_toc(toc: Toc) -> (m: Memvid)
        ensures
            m.spec_toc() == toc,
    {
        Memvid { toc }
    }

    /// The memory's table of contents.
    pub closed spec fn spec_toc(&self) -> Toc {
        self.toc
    }

    /// Returns the vector index dimension stored in the manifest, if available (a zero
    /// dimension counts as none).
    pub fn vec_index_dimension(&self) -> (r: Option<u32>)
        ensures
            r == manifest_dimension(self.spec_toc().indexes.vec),
    {
        match &self.toc.indexes.vec {
            Some(m) => if m.dimension > 0 { Some(m.dimension) } else { None },
            None => None,
        }
    }

    /// Returns the best-effort vector index dimension, from the manifest and the segment
    /// catalog together; `Ok(None)` when neither declares one, an error when they conflict.
    pub fn effective_vec_index_dimension(&self) -> (r: Result<Option<u32>, VecDimensionError>)
        ensures
            r == effective_dimension(self.spec_toc()),
    {
        let manifest_dim = self.vec_index_dimension();
        let segs = &self.toc.segment_catalog.vec_segments;
        let ghost dims = segment_dims(segs@);
        let mut segment_dim: Option<u32> = None;
        let mut i: usize = 0;
        assert(dims.skip(0) =~= dims);
        while i < segs.len()
            invariant
                i <= segs@.len(),
                dims == segment_dims(segs@),
                segs@ == self.spec_toc().segment_catalog.vec_segments@,
                scan_segment_dimensions(dims, None) == scan_segment_dimensions(dims.skip(i as int), segment_dim),
            decreases segs@.len() - i,
        {
            let d = segs[i].dimension;
            assert(dims.skip(i as int)[0] == d);
            assert(dims.skip(i as int).drop_first() =~= dims.skip(i + 1));
            if d != 0 {
                match segment_dim {
                    None => {
                        segment_dim = Some(d);
                    },
                    Some(existing) => {
                        if existing != d {
                            assert(scan_segment_dimensions(dims.skip(i as int), segment_dim)
                                == Err::<Option<u32>, (u32, u32)>((existing, d)));
                            return Err(VecDimensionError::MixedSegmentDimensions { existing, found: d });
                        }
                    },
                }
            }
            i = i + 1;
        }
        assert(dims.skip(i as int) =~= Seq::<u32>::empty());
        match (manifest_dim, segment_dim) {
            (Some(manifest), Some(segment)) => {
                if manifest != segment {
                    Err(VecDimensionError::ManifestSegmentMismatch { manifest, segment })
                } else {
                    Ok(Some(manifest))
                }
            },
            (Some(manifest), None) => Ok(Some(manifest)),
            (None, Some(segment)) => Ok(Some(segment)),
            (None, None) => Ok(None),
        }
    }
}

/// What a scan of segment dimensions found, in plain terms.
proof fn lemma_scan_segment_dimensions(dims: Seq<u32>, seen: Option<u32>)
    requires
        seen matches Some(x) ==> x != 0,
    ensures
        match scan_segment_dimensions(dims, seen) {
            Ok(None) => seen is None && forall|i: int| 0 <= i < dims.len() ==> dims[i] == 0,
            Ok(Some(d)) => d != 0 && (seen matches Some(x) ==> x == d) && (seen == Some(d) || dims.contains(d)) && forall|i: int|
                0 <= i < dims.len() ==> dims[i] == 0 || dims[i] == d,
            Err((a, b)) => a != 0 && b != 0 && a != b && (seen == Some(a) || dims.contains(a))
                && dims.contains(b),
        },
    decreases dims.len(),
{
    if dims.len() > 0 {
        let d = dims[0];
        let rest = dims.drop_first();
        let next = if d == 0 { seen } else { match seen { None => Some(d), Some(_) => seen } };
        lemma_scan_segment_dimensions(rest, next);
        assert forall|i: int| 0 <= i < rest.len() implies rest[i] == dims[i + 1] by {}
        match scan_segment_dimensions(dims, seen) {
            Ok(Some(r)) => {
                if d != 0 && seen is Some && seen->0 != d {
                } else {
                    assert forall|i: int| 0 <= i < dims.len() implies dims[i] == 0 || dims[i] == r by {
                        if i > 0 {
                            assert(dims[i] == rest[i - 1]);
                        }
                    }
                    if !(seen == Some(r)) && !rest.contains(r) {
                        assert(dims[0] == r);
                    }
                    if rest.contains(r) {
                        let k = choose|k: int| 0 <= k < rest.len() && rest[k] == r;
                        assert(dims[k + 1] == r);
                    }
                }
            },
            Ok(None) => {
                assert forall|i: int| 0 <= i < dims.len() implies dims[i] == 0 by {
                    if i > 0 {
                        assert(dims[i] == rest[i - 1]);
                    }
                }
            },
            Err((a, b)) => {
                if d != 0 && seen is Some && seen->0 != d {
                    assert(dims[0] == b);
                } else {
                    if rest.contains(b) {
                        let k = choose|k: int| 0 <= k < rest.len() && rest[k] == b;
                        assert(dims[k + 1] == b);
                    }
                    if rest.contains(a) {
                        let k = choose|k: int| 0 <= k < rest.len() && rest[k] == a;
                        assert(dims[k + 1] == a);
                    }
                    if next == Some(a) && seen != Some(a) {
                        assert(dims[0] == a);
                    }
                }
            },
        }
    }
}

/// The segment catalog yields no dimension exactly when every segment declares zero; it
/// yields `d` only when every segment declares zero or `d` and one declares `d`; and it is
/// in conflict exactly when two segments declare different nonzero dimensions, the
/// conflict naming two such dimensions.
pub proof fn law_segment_dimension(segs: Seq<VecSegmentDescriptor>)
    ensures
        ({
            let dims = segment_dims(segs);
            &&& scan_segment_dimensions(dims, None) == Ok::<_, (u32, u32)>(None::<u32>) <==> forall|i: int|
                0 <= i < segs.len() ==> segs[i].dimension == 0
            &&& forall|d: u32|
                scan_segment_dimensions(dims, None) == Ok::<_, (u32, u32)>(Some(d)) ==> d != 0
                    && (exists|i: int| 0 <= i < segs.len() && segs[i].dimension == d) && (forall|i: int|
                    0 <= i < segs.len() ==> segs[i].dimension == 0 || segs[i].dimension == d)
            &&& forall|a: u32, b: u32|
                scan_segment_dimensions(dims, None) == Err::<Option<u32>, _>((a, b)) ==> a != 0 && b != 0
                    && a != b && (exists|i: int| 0 <= i < segs.len() && segs[i].dimension == a)
                    && (exists|j: int| 0 <= j < segs.len() && segs[j].dimension == b)
            &&& scan_segment_dimensions(dims, None) is Err <==> exists|i: int, j: int|
                0 <= i < segs.len() && 0 <= j < segs.len() && segs[i].dimension != 0
                    && segs[j].dimension != 0 && segs[i].dimension != segs[j].dimension
        }),
{
    let dims = segment_dims(segs);
    lemma_scan_segment_dimensions(dims, None);
    assert forall|i: int| 0 <= i < segs.len() implies dims[i] == segs[i].dimension by {}
    match scan_segment_dimensions(dims, None) {
        Ok(Some(d)) => {
            let k = choose|k: int| 0 <= k < dims.len() && dims[k] == d;
            assert(segs[k].dimension == d);
            if exists|i: int, j: int|
                0 <= i < segs.len() && 0 <= j < segs.len() && segs[i].dimension != 0
                    && segs[j].dimension != 0 && segs[i].dimension != segs[j].dimension {
                let (i, j) = choose|i: int, j: int|
                    0 <= i < segs.len() && 0 <= j < segs.len() && segs[i].dimension != 0
                        && segs[j].dimension != 0 && segs[i].dimension != segs[j].dimension;
                assert(dims[i] == 0 || dims[i] == d);
                assert(dims[j] == 0 || dims[j] == d);
            }
        },
        Ok(None) => {
            assert forall|i: int| 0 <= i < segs.len() implies segs[i].dimension == 0 by {
                assert(dims[i] == segs[i].dimension);
            }
            if exists|i: int, j: int|
                0 <= i < segs.len() && 0 <= j < segs.len() && segs[i].dimension != 0
                    && segs[j].dimension != 0 && segs[i].dimension != segs[j].dimension {
                let (i, j) = choose|i: int, j: int|
                    0 <= i < segs.len() && 0 <= j < segs.len() && segs[i].dimension != 0
                        && segs[j].dimension != 0 && segs[i].dimension != segs[j].dimension;
                assert(dims[i] == 0);
            }
        },
        Err((a, b)) => {
            let i = choose|i: int| 0 <= i < dims.len() && dims[i] == a;
            let j = choose|j: int| 0 <= j < dims.len() && dims[j] == b;
            assert(segs[i].dimension == a);
            assert(segs[j].dimension == b);
        },
    }
    if forall|i: int| 0 <= i < segs.len() ==> segs[i].dimension == 0 {
        match scan_segment_dimensions(dims, None) {
            Ok(Some(d)) => {
                let k = choose|k: int| 0 <= k < dims.len() && dims[k] == d;
                assert(segs[k].dimension == d);
            },
            Err((a, b)) => {
                let j = choose|j: int| 0 <= j < dims.len() && dims[j] == b;
                assert(segs[j].dimension == b);
            },
            Ok(None) => {},
        }
    }
}

/// The segment dimensions with the zero ones left out, in order.
pub open spec fn nonzero_dims(dims: Seq<u32>) -> Seq<u32>
    decreases dims.len(),
{
    if dims.len() == 0 {
        Seq::empty()
    } else if dims[0] == 0 {
        nonzero_dims(dims.drop_first())
    } else {
        seq![dims[0]] + nonzero_dims(dims.drop_first())
    }
}

/// The scan of segment dimensions skips zero dimensions.
proof fn lemma_scan_ignores_zeros(dims: Seq<u32>, seen: Option<u32>)
    ensures
        scan_segment_dimensions(dims, seen) == scan_segment_dimensions(nonzero_dims(dims), seen),
    decreases dims.len(),
{
    if dims.len() > 0 {
        let rest = dims.drop_first();
        if dims[0] == 0 {
            lemma_scan_ignores_zeros(rest, seen);
        } else {
            let nz = nonzero_dims(dims);
            assert(nz[0] == dims[0]);
            assert(nz.drop_first() =~= nonzero_dims(rest));
            let next = match seen { None => Some(dims[0]), Some(_) => seen };
            lemma_scan_ignores_zeros(rest, next);
        }
    }
}

/// Segments declaring dimension zero count for nothing: two tables of contents with the
/// same manifest whose catalogs differ only by zero-dimension segments have the same
/// effective dimension, or the same error.
pub proof fn law_zero_segments_ignored(a: Toc, b: Toc)
    requires
        a.indexes.vec == b.indexes.vec,
        nonzero_dims(segment_dims(a.segment_catalog.vec_segments@)) == nonzero_dims(
            segment_dims(b.segment_catalog.vec_segments@),
        ),
    ensures
        effective_dimension(a) == effective_dimension(b),
{
    lemma_scan_ignores_zeros(segment_dims(a.segment_catalog.vec_segments@), None);
    lemma_scan_ignores_zeros(segment_dims(b.segment_catalog.vec_segments@), None);
}

/// What the scan of `d2` gives is fixed by the dimensions that occur in `d1` when both
/// hold the same dimensions.
proof fn lemma_scan_same_values(d1: Seq<u32>, d2: Seq<u32>)
    requires
        forall|x: u32| d1.contains(x) <==> d2.contains(x),
    ensures
        scan_segment_dimensions(d1, None) is Err <==> scan_segment_dimensions(d2, None) is Err,
        scan_segment_dimensions(d1, None) is Ok ==> scan_segment_dimensions(d1, None)
            == scan_segment_dimensions(d2, None),
{
    lemma_scan_segment_dimensions(d1, None);
    lemma_scan_segment_dimensions(d2, None);
    assert forall|a: Seq<u32>, b: Seq<u32>|
        (forall|x: u32| a.contains(x) <==> b.contains(x)) && #[trigger] scan_segment_dimensions(a, None) is Ok
            implies scan_segment_dimensions(a, None) == #[trigger] scan_segment_dimensions(b, None) by {
        lemma_scan_segment_dimensions(a, None);
        lemma_scan_segment_dimensions(b, None);
        match scan_segment_dimensions(a, None) {
            Ok(None) => {
                match scan_segment_dimensions(b, None) {
                    Ok(Some(y)) => {
                        assert(b.contains(y));
                        let i = choose|i: int| 0 <= i < a.len() && a[i] == y;
                    },
                    Err((p, q)) => {
                        assert(b.contains(q));
                        let i = choose|i: int| 0 <= i < a.len() && a[i] == q;
                    },
                    Ok(None) => {},
                }
            },
            Ok(Some(x)) => {
                assert(a.contains(x));
                assert(b.contains(x));
                let j = choose|j: int| 0 <= j < b.len() && b[j] == x;
                match scan_segment_dimensions(b, None) {
                    Ok(Some(y)) => {
                        assert(b.contains(y));
                        let i = choose|i: int| 0 <= i < a.len() && a[i] == y;
                        assert(a[i] == 0 || a[i] == x);
                    },
                    Err((p, q)) => {
                        assert(b.contains(p) || p == x);
                        if b.contains(p) {
                            let i = choose|i: int| 0 <= i < a.len() && a[i] == p;
                            assert(a[i] == 0 || a[i] == x);
                        }
                        assert(b.contains(q));
                        let k = choose|k: int| 0 <= k < a.len() && a[k] == q;
                        assert(a[k] == 0 || a[k] == x);
                    },
                    Ok(None) => {
                        assert(b[j] == 0);
                    },
                }
            },
            Err(_) => {},
        }
    }
    if scan_segment_dimensions(d2, None) is Ok {
        assert(scan_segment_dimensions(d2, None) == scan_segment_dimensions(d1, None));
    }
    if scan_segment_dimensions(d1, None) is Ok {
        assert(scan_segment_dimensions(d1, None) == scan_segment_dimensions(d2, None));
    }
}

/// The order of the segments does not matter: two tables of contents with the same manifest
/// whose catalogs declare the same dimensions (in particular, one catalog a reordering of
/// the other) either both fail or both give the same effective dimension.
pub proof fn law_segment_order_ignored(a: Toc, b: Toc)
    requires
        a.indexes.vec == b.indexes.vec,
        forall|x: u32|
            segment_dims(a.segment_catalog.vec_segments@).contains(x) <==> segment_dims(
                b.segment_catalog.vec_segments@,
            ).contains(x),
    ensures
        effective_dimension(a) is Err <==> effective_dimension(b) is Err,
        effective_dimension(a) is Ok ==> effective_dimension(a) == effective_dimension(b),
{
    lemma_scan_same_values(
        segment_dims(a.segment_catalog.vec_segments@),
        segment_dims(b.segment_catalog.vec_segments@),
    );
}

/// Reordering the segment catalog never changes the effective dimension: both orders fail,
/// or both give the same dimension.
pub proof fn law_segment_permutation_ignored(a: Toc, b: Toc)
    requires
        a.indexes.vec == b.indexes.vec,
        a.segment_catalog.vec_segments@.to_multiset() == b.segment_catalog.vec_segments@.to_multiset(),
    ensures
        effective_dimension(a) is Err <==> effective_dimension(b) is Err,
        effective_dimension(a) is Ok ==> effective_dimension(a) == effective_dimension(b),
{
    let sa = a.segment_catalog.vec_segments@;
    let sb = b.segment_catalog.vec_segments@;
    sa.to_multiset_ensures();
    sb.to_multiset_ensures();
    assert forall|x: u32| segment_dims(sa).contains(x) <==> segment_dims(sb).contains(x) by {
        if segment_dims(sa).contains(x) {
            let i = choose|i: int| 0 <= i < segment_dims(sa).len() && segment_dims(sa)[i] == x;
            assert(sa.contains(sa[i]));
            assert(sa.to_multiset().count(sa[i]) > 0);
            assert(sb.to_multiset().count(sa[i]) > 0);
            assert(sb.contains(sa[i]));
            let j = choose|j: int| 0 <= j < sb.len() && sb[j] == sa[i];
            assert(segment_dims(sb)[j] == x);
        }
        if segment_dims(sb).contains(x) {
            let i = choose|i: int| 0 <= i < segment_dims(sb).len() && segment_dims(sb)[i] == x;
            assert(sb.contains(sb[i]));
            assert(sb.to_multiset().count(sb[i]) > 0);
            assert(sa.to_multiset().count(sb[i]) > 0);
            assert(sa.contains(sb[i]));
            let j = choose|j: int| 0 <= j < sa.len() && sa[j] == sb[i];
            assert(segment_dims(sa)[j] == x);
        }
    }
    law_segment_order_ignored(a, b);
}

/// An identity with the number of scanned frames that carry it.
pub struct EmbeddingIdentityCount {
    pub identity: EmbeddingIdentity,
    pub count: u64,
}

/// The embedding identities observed in a memory.
pub enum EmbeddingIdentitySummary {
    /// No scanned frame declares an identity.
    Unknown,
    /// Every scanned frame that declares an identity declares this one.
    Single(EmbeddingIdentity),
    /// Several identities, each with its count, the largest counts first.
    Mixed(Vec<EmbeddingIdentityCount>),
}

/// The identities declared by the frames that a scan of at most `budget` active frames
/// looks at, in frame order.
pub open spec fn scanned_identities(frames: Seq<Frame>, budget: nat) -> Seq<IdentityView>
    decreases frames.len(),
{
    if frames.len() == 0 {
        Seq::empty()
    } else if frames[0].status != FrameStatus::Active {
        scanned_identities(frames.drop_first(), budget)
    } else if budget == 0 {
        Seq::empty()
    } else {
        let rest = scanned_identities(frames.drop_first(), (budget - 1) as nat);
        match frames[0].embedding_identity {
            Some(id) => seq![id@] + rest,
            None => rest,
        }
    }
}

/// How many times `x` occurs in `s`.
pub open spec fn occurrences(s: Seq<IdentityView>, x: IdentityView) -> nat
    decreases s.len(),
{
    if s.len() == 0 {
        0
    } else {
        occurrences(s.drop_last(), x) + if s.last() == x { 1nat } else { 0nat }
    }
}

/// `v` lists each identity of `ids` once, with its number of occurrences, the largest
/// counts first.
pub open spec fn tallies_identities(v: Seq<EmbeddingIdentityCount>, ids: Seq<IdentityView>) -> bool {
    &&& forall|k: int| 0 <= k < v.len() ==> #[trigger] v[k].count == occurrences(ids, v[k].identity@)
        && v[k].count > 0
    &&& forall|j: int, k: int| 0 <= j < k < v.len() ==> #[trigger] v[j].identity@ != #[trigger] v[k].identity@
    &&& forall|i: int| #![trigger ids[i]] 0 <= i < ids.len() ==> exists|k: int| #![trigger v[k]] 0 <= k < v.len() && v[k].identity@ == ids[i]
    &&& forall|j: int, k: int| 0 <= j < k < v.len() ==> #[trigger] v[j].count >= #[trigger] v[k].count
}

/// With no budget left, a scan finds nothing.
proof fn lemma_scan_without_budget(frames: Seq<Frame>)
    ensures
        scanned_identities(frames, 0) == Seq::<IdentityView>::empty(),
    decreases frames.len(),
{
    if frames.len() > 0 {
        lemma_scan_without_budget(frames.drop_first());
    }
}

/// An identity that occurs is in the sequence; occurrences are bounded by the length.
proof fn lemma_occurrences(s: Seq<IdentityView>, x: IdentityView)
    ensures
        occurrences(s, x) <= s.len(),
        occurrences(s, x) > 0 ==> exists|i: int| 0 <= i < s.len() && s[i] == x,
        (exists|i: int| 0 <= i < s.len() && s[i] == x) ==> occurrences(s, x) > 0,
    decreases s.len(),
{
    if s.len() > 0 {
        lemma_occurrences(s.drop_last(), x);
        if occurrences(s, x) > 0 && s.last() != x {
            let i = choose|i: int| 0 <= i < s.drop_last().len() && s.drop_last()[i] == x;
            assert(s[i] == x);
        }
        if exists|i: int| 0 <= i < s.len() && s[i] == x {
            let i = choose|i: int| 0 <= i < s.len() && s[i] == x;
            if i < s.len() - 1 {
                assert(s.drop_last()[i] == x);
            }
        }
    }
}

/// Occurrences after appending one more identity.
proof fn lemma_occurrences_push(s: Seq<IdentityView>, y: IdentityView, x: IdentityView)
    ensures
        occurrences(s.push(y), x) == occurrences(s, x) + if y == x { 1nat } else { 0nat },
{
    assert(s.push(y).drop_last() =~= s);
}

/// `identities` lists each identity of `ids` once, and `tallies` its number of occurrences.
pub open spec fn counted(identities: Seq<EmbeddingIdentity>, tallies: Seq<u64>, ids: Seq<IdentityView>) -> bool {
    &&& identities.len() == tallies.len()
    &&& forall|k: int| 0 <= k < tallies.len() ==> #[trigger] tallies[k] == occurrences(ids, identities[k]@)
        && tallies[k] > 0
    &&& forall|j: int, k: int| 0 <= j < k < identities.len() ==> #[trigger] identities[j]@ != #[trigger] identities[k]@
    &&& forall|i: int| #![trigger ids[i]] 0 <= i < ids.len() ==> exists|k: int| #![trigger identities[k]]
        0 <= k < identities.len() && identities[k]@ == ids[i]
}

/// Counts the identities declared by the first `max_frames` active frames.
fn tally_identities(frames: &Vec<Frame>, max_frames: usize) -> (r: (Vec<EmbeddingIdentity>, Vec<u64>))
    ensures
        counted(r.0@, r.1@, scanned_identities(frames@, max_frames as nat)),
{
    let mut identities: Vec<EmbeddingIdentity> = Vec::new();
    let mut tallies: Vec<u64> = Vec::new();
    let ghost mut ids: Seq<IdentityView> = Seq::empty();
    let mut scanned: usize = 0;
    let mut i: usize = 0;
    assert(frames@.skip(0) =~= frames@);
    while i < frames.len() && scanned < max_frames
        invariant
            i <= frames@.len(),
            scanned <= max_frames,
            ids.len() <= i,
            ids + scanned_identities(frames@.skip(i as int), (max_frames - scanned) as nat)
                == scanned_identities(frames@, max_frames as nat),
            counted(identities@, tallies@, ids),
        decreases frames@.len() - i,
    {
        let frame = &frames[i];
        let ghost rest = frames@.skip(i as int);
        assert(rest[0] == *frame);
        assert(rest.drop_first() =~= frames@.skip(i + 1));
        if frame.status == FrameStatus::Active {
            scanned = scanned + 1;
            match &frame.embedding_identity {
                Some(identity) => {
                    let ghost old_ids = ids;
                    proof {
                        ids = ids.push(identity@);
                        assert(seq![identity@] + scanned_identities(frames@.skip(i + 1), (max_frames - scanned) as nat)
                            == scanned_identities(frames@.skip(i as int), (max_frames - scanned + 1) as nat));
                        assert(old_ids + (seq![identity@] + scanned_identities(frames@.skip(i + 1), (max_frames - scanned) as nat))
                            =~= ids + scanned_identities(frames@.skip(i + 1), (max_frames - scanned) as nat));
                    }
                    let ghost old_idents = identities@;
                    let mut k: usize = 0;
                    let mut found = false;
                    while k < identities.len() && !found
                        invariant
                            k <= identities@.len(),
                            found ==> k < identities@.len() && identities@[k as int]@ == identity@,
                            forall|j: int| 0 <= j < k ==> identities@[j]@ != identity@,
                        decreases identities@.len() - k, (if found { 0int } else { 1int }),
                    {
                        if identities[k].same_as(identity) {
                            found = true;
                        } else {
                            k = k + 1;
                        }
                    }
                    proof {
                        lemma_occurrences(old_ids, identity@);
                        assert forall|x: IdentityView| occurrences(ids, x) == occurrences(old_ids, x) + if identity@ == x { 1nat } else { 0nat } by {
                            lemma_occurrences_push(old_ids, identity@, x);
                        }
                    }
                    if found {
                        let t = tallies[k];
                        proof {
                            lemma_occurrences(old_ids, identity@);
                        }
                        tallies.set(k, t + 1);
                    } else {
                        proof {
                            assert forall|j: int| 0 <= j < identities@.len() implies identities@[j]@ != identity@ by {}
                            assert(occurrences(old_ids, identity@) == 0) by {
                                if occurrences(old_ids, identity@) > 0 {
                                    let q = choose|q: int| 0 <= q < old_ids.len() && old_ids[q] == identity@;
                                    assert(exists|kk: int| 0 <= kk < identities@.len() && identities@[kk]@ == old_ids[q]);
                                }
                            }
                        }
                        identities.push(identity.duplicate());
                        tallies.push(1);
                    }
                    proof {
                        assert forall|ii: int| #![trigger ids[ii]] 0 <= ii < ids.len() implies exists|kk: int| #![trigger identities@[kk]]
                            0 <= kk < identities@.len() && identities@[kk]@ == ids[ii] by {
                            if ii < old_ids.len() {
                                assert(ids[ii] == old_ids[ii]);
                                let kk = choose|kk: int| #![trigger old_idents[kk]] 0 <= kk < old_idents.len() && old_idents[kk]@ == old_ids[ii];
                                assert(identities@[kk] == old_idents[kk]);
                                assert(identities@[kk]@ == ids[ii]);
                            } else {
                                if found {
                                    assert(identities@[k as int]@ == ids[ii]);
                                } else {
                                    assert(identities@[identities@.len() - 1]@ == ids[ii]);
                                }
                            }
                        }
                    }
                },
                None => {
                    assert(scanned_identities(frames@.skip(i + 1), (max_frames - scanned) as nat)
                        == scanned_identities(frames@.skip(i as int), (max_frames - scanned + 1) as nat));
                },
            }
        } else {
            assert(scanned_identities(frames@.skip(i + 1), (max_frames - scanned) as nat)
                == scanned_identities(frames@.skip(i as int), (max_frames - scanned) as nat));
        }
        i = i + 1;
    }
    proof {
        if i < frames@.len() {
            lemma_scan_without_budget(frames@.skip(i as int));
        } else {
            assert(frames@.skip(i as int).len() == 0);
        }
        assert(ids =~= scanned_identities(frames@, max_frames as nat));
    }
    (identities, tallies)
}

/// `order` lists each index below `n` exactly once.
pub open spec fn is_permutation_of_indices(order: Seq<usize>, n: int) -> bool {
    &&& order.len() == n
    &&& forall|a: int| 0 <= a < order.len() ==> #[trigger] order[a] < n
    &&& forall|a: int, b: int| 0 <= a < b < order.len() ==> #[trigger] order[a] != #[trigger] order[b]
    &&& forall|x: int| #![trigger order.contains(x as usize)] 0 <= x < n ==> order.contains(x as usize)
}

/// Orders the indices of `tallies` by decreasing tally, equal tallies by increasing index.
fn order_by_tally(tallies: &Vec<u64>) -> (order: Vec<usize>)
    ensures
        is_permutation_of_indices(order@, tallies@.len() as int),
        forall|a: int, b: int| 0 <= a < b < order@.len() ==> tallies@[order@[a] as int] >= tallies@[order@[b] as int],
{
    let mut order: Vec<usize> = Vec::new();
    let mut m: usize = 0;
    while m < tallies.len()
        invariant
            m <= tallies@.len(),
            is_permutation_of_indices(order@, m as int),
            forall|a: int, b: int| 0 <= a < b < order@.len() ==> tallies@[order@[a] as int] >= tallies@[order@[b] as int],
        decreases tallies@.len() - m,
    {
        let c = tallies[m];
        let mut p: usize = 0;
        while p < order.len() && tallies[order[p]] >= c
            invariant
                p <= order@.len(),
                m < tallies@.len(),
                c == tallies@[m as int],
                order@.len() == m,
                forall|a: int, b: int| 0 <= a < b < order@.len() ==> tallies@[order@[a] as int] >= tallies@[order@[b] as int],
                forall|a: int| 0 <= a < order@.len() ==> #[trigger] order@[a] < m,
                forall|a: int| 0 <= a < p ==> tallies@[order@[a] as int] >= c,
            decreases order@.len() - p,
        {
            p = p + 1;
        }
        let ghost before = order@;
        order.insert(p, m);
        proof {
            assert(order@ == before.insert(p as int, m));
            assert forall|a: int| 0 <= a < order@.len() implies #[trigger] order@[a] < m + 1 by {
                if a < p {
                    assert(order@[a] == before[a]);
                } else if a > p {
                    assert(order@[a] == before[a - 1]);
                }
            }
            assert forall|a: int, b: int| 0 <= a < b < order@.len() implies #[trigger] order@[a] != #[trigger] order@[b] by {
                if a < p && b < p {
                    assert(order@[a] == before[a] && order@[b] == before[b]);
                } else if a < p && b == p {
                    assert(order@[a] == before[a]);
                } else if a < p && b > p {
                    assert(order@[a] == before[a] && order@[b] == before[b - 1]);
                } else if a == p {
                    assert(order@[b] == before[b - 1]);
                } else {
                    assert(order@[a] == before[a - 1] && order@[b] == before[b - 1]);
                }
            }
            assert forall|x: int| #![trigger order@.contains(x as usize)] 0 <= x < m + 1 implies order@.contains(x as usize) by {
                if x == m {
                    assert(order@[p as int] == m);
                } else {
                    assert(before.contains(x as usize));
                    let a = choose|a: int| 0 <= a < before.len() && before[a] == x as usize;
                    if a < p {
                        assert(order@[a] == before[a]);
                    } else {
                        assert(order@[a + 1] == before[a]);
                    }
                }
            }
            assert forall|a: int, b: int| 0 <= a < b < order@.len() implies tallies@[order@[a] as int] >= tallies@[order@[b] as int] by {
                if b < p {
                    assert(order@[a] == before[a] && order@[b] == before[b]);
                } else if b == p {
                    assert(order@[a] == before[a]);
                } else if a < p {
                    assert(order@[a] == before[a] && order@[b] == before[b - 1]);
                    if b - 1 >= p {
                        assert(tallies@[before[b - 1] as int] < c || b - 1 < p);
                    }
                } else if a == p {
                    assert(order@[b] == before[b - 1]);
                } else {
                    assert(order@[a] == before[a - 1] && order@[b] == before[b - 1]);
                }
            }
        }
        m = m + 1;
    }
    order
}

/// `r` summarizes the identities `ids` observed by a scan.
pub open spec fn summarizes(r: EmbeddingIdentitySummary, ids: Seq<IdentityView>) -> bool {
    match r {
        EmbeddingIdentitySummary::Unknown => ids.len() == 0,
        EmbeddingIdentitySummary::Single(x) => ids.len() > 0 && forall|i: int|
            0 <= i < ids.len() ==> ids[i] == x@,
        EmbeddingIdentitySummary::Mixed(v) => (exists|i: int| 0 <= i < ids.len() && #[trigger] ids[i] != ids[0])
            && tallies_identities(v@, ids),
    }
}

impl Memvid {
    /// Summarizes the embedding identity declared by the first `max_frames` active frames:
    /// `Unknown` when none declares one, `Single` when they all declare the same one, and
    /// otherwise `Mixed`, each identity with its count, the largest counts first.
    pub fn embedding_identity_summary(&self, max_frames: usize) -> (r: EmbeddingIdentitySummary)
        ensures
            summarizes(r, scanned_identities(self.spec_toc().frames@, max_frames as nat)),
    {
        let ghost ids = scanned_identities(self.toc.frames@, max_frames as nat);
        let (mut identities, tallies) = tally_identities(&self.toc.frames, max_frames);
        let n = identities.len();
        if n == 0 {
            proof {
                if ids.len() > 0 {
                    assert(exists|k: int| #![trigger identities@[k]] 0 <= k < identities@.len() && identities@[k]@ == ids[0]);
                }
            }
            return EmbeddingIdentitySummary::Unknown;
        }
        let ghost first = identities@[0]@;
        proof {
            assert(tallies@[0] > 0);
            lemma_occurrences(ids, first);
        }
        if n == 1 {
            proof {
                assert forall|i: int| 0 <= i < ids.len() implies ids[i] == first by {
                    assert(exists|k: int| #![trigger identities@[k]] 0 <= k < identities@.len() && identities@[k]@ == ids[i]);
                }
            }
            let identity = identities.remove(0);
            assert(identity@ == first);
            return EmbeddingIdentitySummary::Single(identity);
        }
        proof {
            assert(tallies@[1] > 0);
            lemma_occurrences(ids, identities@[1]@);
            assert(identities@[0]@ != identities@[1]@);
            let i0 = choose|i: int| 0 <= i < ids.len() && ids[i] == identities@[0]@;
            let i1 = choose|i: int| 0 <= i < ids.len() && ids[i] == identities@[1]@;
            if ids[0] == identities@[0]@ {
                assert(ids[i1] != ids[0]);
            } else {
                assert(ids[i0] != ids[0]);
            }
        }
        let order = order_by_tally(&tallies);
        let mut v: Vec<EmbeddingIdentityCount> = Vec::new();
        let mut a: usize = 0;
        while a < order.len()
            invariant
                a <= order@.len(),
                order@.len() == n,
                n == identities@.len(),
                counted(identities@, tallies@, ids),
                is_permutation_of_indices(order@, n as int),
                v@.len() == a,
                forall|b: int| 0 <= b < a ==> (#[trigger] v@[b]).identity@ == identities@[order@[b] as int]@
                    && v@[b].count == tallies@[order@[b] as int],
            decreases order@.len() - a,
        {
            let k = order[a];
            v.push(EmbeddingIdentityCount { identity: identities[k].duplicate(), count: tallies[k] });
            a = a + 1;
        }
        proof {
            assert forall|k: int| 0 <= k < v@.len() implies #[trigger] v@[k].count == occurrences(ids, v@[k].identity@)
                && v@[k].count > 0 by {
                assert(tallies@[order@[k] as int] == occurrences(ids, identities@[order@[k] as int]@));
            }
            assert forall|j: int, k: int| 0 <= j < k < v@.len() implies #[trigger] v@[j].identity@ != #[trigger] v@[k].identity@ by {
                let oj = order@[j] as int;
                let ok = order@[k] as int;
                assert(oj != ok);
                if oj < ok {
                    assert(identities@[oj]@ != identities@[ok]@);
                } else {
                    assert(identities@[ok]@ != identities@[oj]@);
                }
            }
            assert forall|i: int| #![trigger ids[i]] 0 <= i < ids.len() implies exists|k: int| #![trigger v@[k]]
                0 <= k < v@.len() && v@[k].identity@ == ids[i] by {
                let kk = choose|kk: int| #![trigger identities@[kk]] 0 <= kk < identities@.len() && identities@[kk]@ == ids[i];
                assert(order@.contains(kk as usize));
                let b = choose|b: int| 0 <= b < order@.len() && order@[b] == kk as usize;
                assert(v@[b].identity@ == ids[i]);
            }
            assert forall|j: int, k: int| 0 <= j < k < v@.len() implies #[trigger] v@[j].count >= #[trigger] v@[k].count by {
            }
        }
        EmbeddingIdentitySummary::Mixed(v)
    }
}

/// The active frames, in order.
pub open spec fn active_frames(frames: Seq<Frame>) -> Seq<Frame>
    decreases frames.len(),
{
    if frames.len() == 0 {
        Seq::empty()
    } else if frames[0].status != FrameStatus::Active {
        active_frames(frames.drop_first())
    } else {
        seq![frames[0]] + active_frames(frames.drop_first())
    }
}

/// A scan sees only the active frames.
proof fn lemma_scan_sees_active(frames: Seq<Frame>, budget: nat)
    ensures
        scanned_identities(frames, budget) == scanned_identities(active_frames(frames), budget),
    decreases frames.len(),
{
    if frames.len() > 0 {
        let rest = frames.drop_first();
        if frames[0].status != FrameStatus::Active {
            lemma_scan_sees_active(rest, budget);
        } else {
            let act = active_frames(frames);
            assert(act[0] == frames[0]);
            assert(act.drop_first() =~= active_frames(rest));
            if budget > 0 {
                lemma_scan_sees_active(rest, (budget - 1) as nat);
            }
        }
    }
}

/// Inactive frames neither count nor use up the budget: two memories whose active frames
/// are the same observe the same identities for every budget, so their summaries agree (up
/// to the order of identities with equal counts).
pub proof fn law_inactive_frames_ignored(a: Seq<Frame>, b: Seq<Frame>, budget: nat)
    requires
        active_frames(a) == active_frames(b),
    ensures
        scanned_identities(a, budget) == scanned_identities(b, budget),
{
    lemma_scan_sees_active(a, budget);
    lemma_scan_sees_active(b, budget);
}

/// A scan with a smaller budget observes a prefix of what a larger budget observes.
proof fn lemma_scan_budget_prefix(frames: Seq<Frame>, k1: nat, k2: nat)
    requires
        k1 <= k2,
    ensures
        scanned_identities(frames, k1).len() <= scanned_identities(frames, k2).len(),
        scanned_identities(frames, k1) == scanned_identities(frames, k2).take(
            scanned_identities(frames, k1).len() as int,
        ),
    decreases frames.len(),
{
    if frames.len() > 0 {
        let rest = frames.drop_first();
        if frames[0].status != FrameStatus::Active {
            lemma_scan_budget_prefix(rest, k1, k2);
        } else if k1 == 0 {
            assert(scanned_identities(frames, k2).take(0) =~= Seq::<IdentityView>::empty());
        } else {
            lemma_scan_budget_prefix(rest, (k1 - 1) as nat, (k2 - 1) as nat);
            let r1 = scanned_identities(rest, (k1 - 1) as nat);
            let r2 = scanned_identities(rest, (k2 - 1) as nat);
            match frames[0].embedding_identity {
                Some(id) => {
                    assert((seq![id@] + r1) =~= (seq![id@] + r2).take(r1.len() + 1int));
                },
                None => {},
            }
        }
    }
}

/// The identities a summary names.
pub open spec fn summary_identities(r: EmbeddingIdentitySummary) -> Set<IdentityView> {
    match r {
        EmbeddingIdentitySummary::Unknown => Set::empty(),
        EmbeddingIdentitySummary::Single(x) => set![x@],
        EmbeddingIdentitySummary::Mixed(v) => Set::new(
            |x: IdentityView| exists|k: int| 0 <= k < v.len() && #[trigger] v[k].identity@ == x,
        ),
    }
}

/// A summary names exactly the identities it summarizes.
pub proof fn lemma_summary_identities(r: EmbeddingIdentitySummary, ids: Seq<IdentityView>)
    requires
        summarizes(r, ids),
    ensures
        summary_identities(r) == ids.to_set(),
{
    match r {
        EmbeddingIdentitySummary::Unknown => {
            assert(ids.to_set() =~= Set::<IdentityView>::empty());
        },
        EmbeddingIdentitySummary::Single(x) => {
            assert(ids[0] == x@);
            assert(ids.to_set() =~= set![x@]);
        },
        EmbeddingIdentitySummary::Mixed(v) => {
            assert forall|x: IdentityView| summary_identities(r).contains(x) <==> ids.to_set().contains(x) by {
                if summary_identities(r).contains(x) {
                    let k = choose|k: int| 0 <= k < v.len() && #[trigger] v[k].identity@ == x;
                    assert(v@[k].count == occurrences(ids, v@[k].identity@) && v@[k].count > 0);
                    lemma_occurrences(ids, x);
                }
                if ids.to_set().contains(x) {
                    let i = choose|i: int| 0 <= i < ids.len() && ids[i] == x;
                    assert(exists|k: int| #![trigger v@[k]] 0 <= k < v@.len() && v@[k].identity@ == ids[i]);
                    let k = choose|k: int| #![trigger v@[k]] 0 <= k < v@.len() && v@[k].identity@ == ids[i];
                    assert(v[k].identity@ == x);
                }
            }
            assert(summary_identities(r) =~= ids.to_set());
        },
    }
}

/// Scanning more active frames never loses an identity: the identities named by the summary
/// for a budget are among those named for any larger budget (so once `Mixed`, a larger
/// budget stays `Mixed`).
pub proof fn law_larger_budget_keeps_identities(
    frames: Seq<Frame>,
    k1: nat,
    k2: nat,
    r1: EmbeddingIdentitySummary,
    r2: EmbeddingIdentitySummary,
)
    requires
        k1 <= k2,
        summarizes(r1, scanned_identities(frames, k1)),
        summarizes(r2, scanned_identities(frames, k2)),
    ensures
        summary_identities(r1).subset_of(summary_identities(r2)),
{
    let s1 = scanned_identities(frames, k1);
    let s2 = scanned_identities(frames, k2);
    lemma_scan_budget_prefix(frames, k1, k2);
    lemma_summary_identities(r1, s1);
    lemma_summary_identities(r2, s2);
    assert forall|x: IdentityView| s1.to_set().contains(x) implies s2.to_set().contains(x) by {
        let i = choose|i: int| 0 <= i < s1.len() && s1[i] == x;
        assert(s2[i] == s1[i]);
    }
}

/// Two optional texts are the same: both absent, or both present with the same characters.
pub open spec fn same_text(x: Option<String>, y: Option<String>) -> bool {
    match (x, y) {
        (Some(a), Some(b)) => a@ == b@,
        (None, None) => true,
        _ => false,
    }
}

/// Two identities are the same exactly when provider, model, dimension and normalization
/// all agree, so `same_as` compares the whole identity.
pub proof fn law_identity_is_all_fields(a: EmbeddingIdentity, b: EmbeddingIdentity)
    ensures
        a@ == b@ <==> same_text(a.provider, b.provider) && same_text(a.model, b.model)
            && a.dimension == b.dimension && a.normalized == b.normalized,
{
}

/// A scan whose budget covers every active frame observes the identity of each of them.
proof fn lemma_scan_observes(frames: Seq<Frame>, k: nat, i: int)
    requires
        0 <= i < frames.len(),
        frames[i].status == FrameStatus::Active,
        frames[i].embedding_identity is Some,
        active_frames(frames).len() <= k,
    ensures
        scanned_identities(frames, k).contains(frames[i].embedding_identity->0@),
    decreases frames.len(),
{
    let rest = frames.drop_first();
    let x = frames[i].embedding_identity->0@;
    if frames[0].status != FrameStatus::Active {
        assert(rest[i - 1] == frames[i]);
        lemma_scan_observes(rest, k, i - 1);
    } else {
        assert(active_frames(frames).len() == 1 + active_frames(rest).len());
        let r = scanned_identities(rest, (k - 1) as nat);
        if i == 0 {
            match frames[0].embedding_identity {
                Some(id) => {
                    assert((seq![id@] + r)[0] == x);
                },
                None => {},
            }
        } else {
            assert(rest[i - 1] == frames[i]);
            lemma_scan_observes(rest, (k - 1) as nat, i - 1);
            let q = choose|q: int| 0 <= q < r.len() && r[q] == x;
            match frames[0].embedding_identity {
                Some(id) => {
                    assert((seq![id@] + r)[q + 1] == x);
                },
                None => {},
            }
        }
    }
}

/// Frames declaring identities that differ in model (or in any other field) are never
/// summarized as a single identity: when the budget covers every active frame, two active
/// frames with different models make the summary `Mixed`.
pub proof fn law_different_models_are_mixed(
    frames: Seq<Frame>,
    k: nat,
    i: int,
    j: int,
    r: EmbeddingIdentitySummary,
)
    requires
        0 <= i < frames.len(),
        0 <= j < frames.len(),
        frames[i].status == FrameStatus::Active,
        frames[j].status == FrameStatus::Active,
        frames[i].embedding_identity is Some,
        frames[j].embedding_identity is Some,
        !same_text(frames[i].embedding_identity->0.model, frames[j].embedding_identity->0.model),
        active_frames(frames).len() <= k,
        summarizes(r, scanned_identities(frames, k)),
    ensures
        r is Mixed,
{
    let ids = scanned_identities(frames, k);
    let a = frames[i].embedding_identity->0;
    let b = frames[j].embedding_identity->0;
    lemma_scan_observes(frames, k, i);
    lemma_scan_observes(frames, k, j);
    law_identity_is_all_fields(a, b);
    assert(a@ != b@);
    let p = choose|p: int| 0 <= p < ids.len() && ids[p] == a@;
    let q = choose|q: int| 0 <= q < ids.len() && ids[q] == b@;
    match r {
        EmbeddingIdentitySummary::Single(x) => {
            assert(ids[p] == x@ && ids[q] == x@);
        },
        _ => {},
    }
}

/// The manifest gives its dimension when it is nonzero, and nothing otherwise.
pub proof fn law_manifest_dimension(d: u32)
    ensures
        manifest_dimension(Some(VecIndexManifest { dimension: d })) == (if d > 0 { Some(d) } else { None::<u32> }),
        manifest_dimension(None) == None::<u32>,
{
}

/// With no nonzero segment dimension, the effective dimension is the manifest's: its
/// dimension when nonzero, otherwise none.
pub proof fn law_manifest_alone(toc: Toc)
    requires
        forall|i: int| 0 <= i < toc.segment_catalog.vec_segments@.len() ==> toc.segment_catalog.vec_segments@[i].dimension == 0,
    ensures
        effective_dimension(toc) == Ok::<_, VecDimensionError>(match toc.indexes.vec {
            Some(m) => if m.dimension > 0 { Some(m.dimension) } else { None },
            None => None,
        }),
{
    law_segment_dimension(toc.segment_catalog.vec_segments@);
}

/// When every segment declares `g` (or zero) and one declares `g`, the effective dimension
/// is `g` unless the manifest declares a different nonzero dimension `m`, which is the
/// mismatch error naming `m` and `g`, whichever is larger.
pub proof fn law_manifest_against_segments(toc: Toc, g: u32)
    requires
        g > 0,
        forall|i: int| 0 <= i < toc.segment_catalog.vec_segments@.len() ==> (#[trigger] toc.segment_catalog.vec_segments@[i]).dimension == 0
            || toc.segment_catalog.vec_segments@[i].dimension == g,
        exists|i: int| 0 <= i < toc.segment_catalog.vec_segments@.len() && (#[trigger] toc.segment_catalog.vec_segments@[i]).dimension == g,
    ensures
        effective_dimension(toc) == (match toc.indexes.vec {
            Some(m) => if m.dimension > 0 && m.dimension != g {
                Err(VecDimensionError::ManifestSegmentMismatch { manifest: m.dimension, segment: g })
            } else {
                Ok(Some(g))
            },
            None => Ok(Some(g)),
        }),
{
    let segs = toc.segment_catalog.vec_segments@;
    law_segment_dimension(segs);
    let dims = segment_dims(segs);
    let w = choose|i: int| 0 <= i < segs.len() && (#[trigger] segs[i]).dimension == g;
    match scan_segment_dimensions(dims, None) {
        Ok(Some(d)) => {
            let i = choose|i: int| 0 <= i < segs.len() && segs[i].dimension == d;
            assert(segs[i].dimension == 0 || segs[i].dimension == g);
        },
        Ok(None) => {
            assert(segs[w].dimension == 0);
        },
        Err((a, b)) => {
            let i = choose|i: int| 0 <= i < segs.len() && segs[i].dimension == a;
            let j = choose|j: int| 0 <= j < segs.len() && segs[j].dimension == b;
            assert(segs[i].dimension == 0 || segs[i].dimension == g);
            assert(segs[j].dimension == 0 || segs[j].dimension == g);
        },
    }
}

/// The count of an identity is the number of scanned frames that carry it.
pub proof fn law_occurrences_count(s: Seq<IdentityView>, x: IdentityView)
    ensures
        occurrences(s, x) == s.filter(|y: IdentityView| y == x).len(),
    decreases s.len(),
{
    reveal(Seq::filter);
    if s.len() > 0 {
        law_occurrences_count(s.drop_last(), x);
    }
}

} // verus!
