use memvid_core::memvid::{
    EmbeddingIdentity, EmbeddingIdentitySummary, Frame, FrameRole, FrameStatus, IndexManifests,
    Memvid, SegmentCatalog, Toc, VecDimensionError, VecIndexManifest, VecSegmentDescriptor,
};
use memvid_core::search_text::SearchTextSource;

fn identity(provider: &str, model: &str) -> EmbeddingIdentity {
    EmbeddingIdentity {
        provider: Some(provider.to_string()),
        model: Some(model.to_string()),
        dimension: None,
        normalized: None,
    }
}

fn frame(status: FrameStatus, id: Option<EmbeddingIdentity>) -> Frame {
    Frame {
        status,
        role: FrameRole::Document,
        embedding_identity: id,
        search_text: None,
        has_chunk_manifest: false,
        payload_length: 10,
    }
}

fn memory(manifest: Option<u32>, segments: &[u32], frames: Vec<Frame>) -> Memvid {
    Memvid::from_toc(Toc {
        indexes: IndexManifests { vec: manifest.map(|dimension| VecIndexManifest { dimension }) },
        segment_catalog: SegmentCatalog {
            vec_segments: segments.iter().map(|&dimension| VecSegmentDescriptor { dimension }).collect(),
        },
        frames,
    })
}

fn key(id: &EmbeddingIdentity) -> (Option<String>, Option<String>) {
    (id.provider.clone(), id.model.clone())
}

#[test]
fn manifest_dimension_ignores_zero() {
    assert_eq!(memory(Some(384), &[], vec![]).vec_index_dimension(), Some(384));
    assert_eq!(memory(Some(0), &[], vec![]).vec_index_dimension(), None);
    assert_eq!(memory(None, &[], vec![]).vec_index_dimension(), None);
}

#[test]
fn effective_dimension_combines_manifest_and_segments() {
    assert_eq!(memory(None, &[], vec![]).effective_vec_index_dimension(), Ok(None));
    assert_eq!(memory(None, &[0, 0], vec![]).effective_vec_index_dimension(), Ok(None));
    assert_eq!(memory(Some(768), &[], vec![]).effective_vec_index_dimension(), Ok(Some(768)));
    assert_eq!(memory(None, &[0, 512, 512, 0], vec![]).effective_vec_index_dimension(), Ok(Some(512)));
    assert_eq!(memory(Some(512), &[512], vec![]).effective_vec_index_dimension(), Ok(Some(512)));
    assert_eq!(memory(Some(0), &[256], vec![]).effective_vec_index_dimension(), Ok(Some(256)));
}

#[test]
fn effective_dimension_reports_conflicts() {
    assert_eq!(
        memory(None, &[0, 512, 512, 768, 1024], vec![]).effective_vec_index_dimension(),
        Err(VecDimensionError::MixedSegmentDimensions { existing: 512, found: 768 })
    );
    assert_eq!(
        memory(Some(384), &[512], vec![]).effective_vec_index_dimension(),
        Err(VecDimensionError::ManifestSegmentMismatch { manifest: 384, segment: 512 })
    );
    // Segment conflicts are reported before a manifest mismatch.
    assert_eq!(
        memory(Some(384), &[1, 2], vec![]).effective_vec_index_dimension(),
        Err(VecDimensionError::MixedSegmentDimensions { existing: 1, found: 2 })
    );
}

#[test]
fn summary_unknown_without_metadata() {
    let m = memory(None, &[], vec![frame(FrameStatus::Active, None), frame(FrameStatus::Active, None)]);
    assert!(matches!(m.embedding_identity_summary(10), EmbeddingIdentitySummary::Unknown));
    let empty = memory(None, &[], vec![]);
    assert!(matches!(empty.embedding_identity_summary(10), EmbeddingIdentitySummary::Unknown));
}

#[test]
fn summary_single_identity() {
    let m = memory(
        None,
        &[],
        vec![
            frame(FrameStatus::Active, Some(identity("openai", "small"))),
            frame(FrameStatus::Active, None),
            frame(FrameStatus::Active, Some(identity("openai", "small"))),
        ],
    );
    match m.embedding_identity_summary(10) {
        EmbeddingIdentitySummary::Single(id) => {
            assert_eq!(key(&id), (Some("openai".to_string()), Some("small".to_string())))
        }
        _ => panic!("expected a single identity"),
    }
}

#[test]
fn summary_mixed_counts_descending() {
    let m = memory(
        None,
        &[],
        vec![
            frame(FrameStatus::Active, Some(identity("a", "x"))),
            frame(FrameStatus::Active, Some(identity("b", "y"))),
            frame(FrameStatus::Active, Some(identity("b", "y"))),
            frame(FrameStatus::Deleted, Some(identity("c", "z"))),
            frame(FrameStatus::Active, Some(identity("b", "y"))),
            frame(FrameStatus::Active, Some(identity("a", "x"))),
        ],
    );
    match m.embedding_identity_summary(100) {
        EmbeddingIdentitySummary::Mixed(v) => {
            let got: Vec<_> = v.iter().map(|c| (key(&c.identity), c.count)).collect();
            assert_eq!(
                got,
                vec![
                    ((Some("b".to_string()), Some("y".to_string())), 3),
                    ((Some("a".to_string()), Some("x".to_string())), 2),
                ]
            );
        }
        _ => panic!("expected mixed identities"),
    }
}

#[test]
fn summary_scans_at_most_max_active_frames() {
    let m = memory(
        None,
        &[],
        vec![
            frame(FrameStatus::Superseded, Some(identity("old", "m"))),
            frame(FrameStatus::Active, Some(identity("a", "x"))),
            frame(FrameStatus::Active, None),
            frame(FrameStatus::Active, Some(identity("b", "y"))),
        ],
    );
    assert!(matches!(m.embedding_identity_summary(2), EmbeddingIdentitySummary::Single(_)));
    assert!(matches!(m.embedding_identity_summary(3), EmbeddingIdentitySummary::Mixed(_)));
    assert!(matches!(m.embedding_identity_summary(0), EmbeddingIdentitySummary::Unknown));
}

#[test]
fn binary_summary_text() {
    assert_eq!(Memvid::render_binary_summary(0), "<binary payload: 0 bytes>");
    assert_eq!(Memvid::render_binary_summary(7), "<binary payload: 7 bytes>");
    assert_eq!(Memvid::render_binary_summary(1234567), "<binary payload: 1234567 bytes>");
}

#[test]
fn chunk_text_decodes_or_summarizes() {
    assert_eq!(Memvid::chunk_text("héllo".as_bytes().to_vec()), "héllo");
    assert_eq!(Memvid::chunk_text(vec![0xff, 0xfe, 0x00]), "<binary payload: 3 bytes>");
    assert_eq!(Memvid::first_chunk_text("plain".as_bytes()), "plain");
    assert_eq!(Memvid::first_chunk_text(&[b'a', 0xff]), "a\u{fffd}");
}

#[test]
fn search_text_sources() {
    let m = memory(None, &[], vec![]);
    let mut f = frame(FrameStatus::Active, None);
    assert!(matches!(m.frame_search_text(&f), SearchTextSource::ExtractedPayload));
    f.payload_length = 0;
    assert!(matches!(m.frame_search_text(&f), SearchTextSource::FieldsOnly));
    f.has_chunk_manifest = true;
    assert!(matches!(m.frame_search_text(&f), SearchTextSource::FirstChunkPayload));
    f.role = FrameRole::DocumentChunk;
    assert!(matches!(m.derive_frame_search_text(&f), SearchTextSource::ChunkPayload));
    f.search_text = Some("kept".to_string());
    match m.frame_search_text(&f) {
        SearchTextSource::Persisted(s) => assert_eq!(s, "kept"),
        _ => panic!("persisted text must win"),
    }
}

#[test]
fn identity_comparison_and_copy() {
    let a = identity("p", "m");
    let mut b = a.duplicate();
    assert!(a.same_as(&b));
    b.dimension = Some(3);
    assert!(!a.same_as(&b));
}

#[test]
fn dimension_error_reasons() {
    assert_eq!(
        VecDimensionError::MixedSegmentDimensions { existing: 512, found: 768 }.reason(),
        "mixed vector dimensions detected in segment catalog: 512 and 768"
    );
    assert_eq!(
        VecDimensionError::ManifestSegmentMismatch { manifest: 384, segment: 0 }.reason(),
        "vector dimension mismatch between manifest (384) and segment catalog (0)"
    );
}

#[test]
fn zero_and_reordered_segments_do_not_matter() {
    let base = memory(Some(512), &[512, 512], vec![]).effective_vec_index_dimension();
    assert_eq!(memory(Some(512), &[0, 512, 0, 512, 0], vec![]).effective_vec_index_dimension(), base);
    let a = memory(None, &[1, 2, 3], vec![]).effective_vec_index_dimension();
    let b = memory(None, &[3, 1, 2], vec![]).effective_vec_index_dimension();
    assert!(a.is_err() && b.is_err());
    assert_eq!(memory(None, &[0, 7], vec![]).effective_vec_index_dimension(), memory(None, &[7, 0], vec![]).effective_vec_index_dimension());
}

#[test]
fn inactive_frames_and_larger_budgets() {
    let with_inactive = memory(
        None,
        &[],
        vec![
            frame(FrameStatus::Deleted, Some(identity("z", "z"))),
            frame(FrameStatus::Active, Some(identity("a", "x"))),
            frame(FrameStatus::Superseded, Some(identity("y", "y"))),
            frame(FrameStatus::Active, Some(identity("b", "y"))),
        ],
    );
    let without = memory(
        None,
        &[],
        vec![
            frame(FrameStatus::Active, Some(identity("a", "x"))),
            frame(FrameStatus::Active, Some(identity("b", "y"))),
        ],
    );
    for k in 0..4 {
        let ka = match with_inactive.embedding_identity_summary(k) {
            EmbeddingIdentitySummary::Unknown => 0,
            EmbeddingIdentitySummary::Single(_) => 1,
            EmbeddingIdentitySummary::Mixed(v) => v.len() + 10,
        };
        let kb = match without.embedding_identity_summary(k) {
            EmbeddingIdentitySummary::Unknown => 0,
            EmbeddingIdentitySummary::Single(_) => 1,
            EmbeddingIdentitySummary::Mixed(v) => v.len() + 10,
        };
        assert_eq!(ka, kb);
    }
    assert!(matches!(without.embedding_identity_summary(1), EmbeddingIdentitySummary::Single(_)));
    assert!(matches!(without.embedding_identity_summary(2), EmbeddingIdentitySummary::Mixed(_)));
    assert!(matches!(without.embedding_identity_summary(5), EmbeddingIdentitySummary::Mixed(_)));
}
