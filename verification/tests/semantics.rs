//! Evidence for candidates and how it is matched to them.

use std::cmp::Ordering;

use bliss_playlist_optimizer::lookup::{select_gap_candidate_matches, CandidateLookup};
use bliss_playlist_optimizer::semantic::{
    canonical_artist_id, normalize_identity, select_collection_candidates,
    select_endpoint_candidates, select_gap_candidates, select_seed_candidates, CacheState,
    CandidateIdentity, CandidateSemantics, Entity, EntityKind, EvidenceBundle, EvidenceEdge,
    EvidenceScope, MatchedEvidence, ProviderState, ProviderStatus, SemanticError, SemanticPool,
    SemanticTier, SourceEndpoint, TrackIdentity,
};
use bliss_playlist_optimizer::text::char_is_space;
use bliss_playlist_optimizer::units::UNIT;

const HALF: u64 = UNIT / 2;

fn track(recording_id: &str, artist: &str) -> TrackIdentity {
    TrackIdentity {
        recording_id: recording_id.to_owned(),
        recording_mbid: None,
        title_name: normalize_identity(recording_id),
        artist_ids: vec![canonical_artist_id(artist)],
        artist_name: normalize_identity(artist),
    }
}

fn entity(kind: EntityKind, id: &str) -> Entity {
    Entity {
        kind,
        id: id.to_owned(),
        mbid: None,
        name: None,
        title: None,
    }
}

fn edge(
    source_kind: EntityKind,
    source_id: &str,
    candidate_kind: EntityKind,
    candidate_id: &str,
    scope: EvidenceScope,
    rank: u64,
) -> EvidenceEdge {
    EvidenceEdge {
        provider: "fixture".to_owned(),
        dataset_or_algorithm: Some("fixture-v1".to_owned()),
        source: entity(source_kind, source_id),
        candidate: entity(candidate_kind, candidate_id),
        scope,
        raw_rank: Some(rank),
        raw_score: None,
        identity_confidence: UNIT as i64,
        observed_at: Some("2026-07-20T00:00:00Z".to_owned()),
        cache_state: Some(CacheState::Cached),
    }
}

#[test]
fn indexed_gap_matches_legacy_semantics_without_bliss_placeholders() {
    let left = track("left", "Artist Left");
    let right = track("right", "Artist Right");
    let candidates = vec![
        CandidateIdentity {
            candidate: 10,
            track: track("Polly", "Nirvana"),
        },
        CandidateIdentity {
            candidate: 11,
            track: track("Unrelated", "Other Artist"),
        },
    ];
    let mut recording_edge = edge(
        EntityKind::Recording,
        "left",
        EntityKind::Recording,
        "recording:nirvana|polly",
        EvidenceScope::EndpointLocal,
        1,
    );
    recording_edge.candidate.name = Some("Nirvana".to_owned());
    recording_edge.candidate.title = Some("Polly".to_owned());
    let bundle = EvidenceBundle {
        schema_version: 1,
        frozen_at: "2026-07-20T00:00:00Z".to_owned(),
        providers: Vec::new(),
        edges: vec![recording_edge],
    };
    let legacy = select_gap_candidates(
        &bundle,
        &left,
        &right,
        &[left.clone(), right.clone()],
        &candidates,
    );
    let indexed = select_gap_candidate_matches(
        &bundle,
        &left,
        &right,
        &[left.clone(), right.clone()],
        &CandidateLookup::new(&candidates),
    );
    let rows = candidates
        .iter()
        .enumerate()
        .map(|(row_id, candidate)| {
            (
                candidate.candidate,
                row_id as u64,
                candidate.track.title_name.as_str(),
                candidate.track.artist_name.as_str(),
            )
        })
        .collect::<Vec<_>>();
    let scoped_lookup = CandidateLookup::from_library_candidates(&bundle, &rows);
    let scoped = select_gap_candidate_matches(
        &bundle,
        &left,
        &right,
        &[left.clone(), right.clone()],
        &scoped_lookup,
    );
    let legacy_supported = legacy
        .candidates
        .into_iter()
        .filter(|candidate| candidate.tier != SemanticTier::BlissOnly)
        .collect::<Vec<_>>();
    assert_eq!(indexed.pool, SemanticPool::EndpointLocal);
    assert_eq!(indexed.candidates, legacy_supported);
    assert_eq!(scoped, indexed);
}

#[test]
fn scoped_lookup_keeps_two_hundred_thousand_candidates_memory_bounded() {
    const MATCHING_ROW: usize = 123_456;
    let bundle = EvidenceBundle {
        schema_version: 1,
        frozen_at: "2026-07-20T00:00:00Z".to_owned(),
        providers: Vec::new(),
        edges: vec![edge(
            EntityKind::Recording,
            "left",
            EntityKind::Recording,
            "bliss-row-123456",
            EvidenceScope::EndpointLocal,
            1,
        )],
    };

    let rows = (0..200_000)
        .map(|candidate| {
            (
                candidate,
                candidate as u64,
                "unrelated title",
                "unrelated artist",
            )
        })
        .collect::<Vec<(usize, u64, &str, &str)>>();
    let lookup = CandidateLookup::from_library_candidates(&bundle, &rows);

    assert_eq!(
        lookup.recording_candidates("bliss-row-123456"),
        Some(vec![MATCHING_ROW])
    );
    assert_eq!(lookup.key_counts(), (1, 0));
}

#[test]
fn endpoint_recordings_precede_artist_and_suppress_collection_fallback() {
    let left = track("left", "Artist Left");
    let right = track("right", "Artist Right");
    let recording = CandidateIdentity {
        candidate: 10,
        track: track("candidate-recording", "Artist Recording"),
    };
    let artist = CandidateIdentity {
        candidate: 11,
        track: track("candidate-artist", "Artist Local"),
    };
    let collection = CandidateIdentity {
        candidate: 12,
        track: track("candidate-collection", "Artist Collection"),
    };
    let bundle = EvidenceBundle {
        schema_version: 1,
        frozen_at: "2026-07-20T00:00:00Z".to_owned(),
        providers: Vec::new(),
        edges: vec![
            edge(
                EntityKind::Recording,
                "left",
                EntityKind::Recording,
                "candidate-recording",
                EvidenceScope::EndpointLocal,
                2,
            ),
            edge(
                EntityKind::Recording,
                "right",
                EntityKind::Recording,
                "candidate-recording",
                EvidenceScope::EndpointLocal,
                1,
            ),
            edge(
                EntityKind::Artist,
                &canonical_artist_id("Artist Left"),
                EntityKind::Artist,
                &canonical_artist_id("Artist Local"),
                EvidenceScope::EndpointLocal,
                1,
            ),
            edge(
                EntityKind::Artist,
                &canonical_artist_id("Artist Right"),
                EntityKind::Artist,
                &canonical_artist_id("Artist Collection"),
                EvidenceScope::CollectionFallback,
                1,
            ),
        ],
    };
    let collection_sources = vec![left.clone(), right.clone()];
    let candidates = vec![recording, artist, collection];
    let one = rayon::ThreadPoolBuilder::new()
        .num_threads(1)
        .build()
        .unwrap()
        .install(|| {
            select_gap_candidates(&bundle, &left, &right, &collection_sources, &candidates)
        });
    let four = rayon::ThreadPoolBuilder::new()
        .num_threads(4)
        .build()
        .unwrap()
        .install(|| {
            select_gap_candidates(&bundle, &left, &right, &collection_sources, &candidates)
        });
    assert_eq!(one, four);
    let selected = one;
    assert_eq!(selected.pool, SemanticPool::EndpointLocal);
    assert_eq!(selected.candidates.len(), 3);
    assert_eq!(selected.candidates[0].tier, SemanticTier::RecordingBoth);
    assert_eq!(selected.candidates[1].tier, SemanticTier::ArtistLocal);
    assert_eq!(selected.candidates[2].tier, SemanticTier::BlissOnly);
    assert_eq!(
        selected.candidates[0].compare_priority(&selected.candidates[1]),
        Ordering::Less
    );
}

#[test]
fn one_anchor_endpoint_never_fabricates_two_sided_recording_support() {
    let anchor = track("anchor", "Artist Anchor");
    let other_source = track("other", "Artist Other");
    let candidate = CandidateIdentity {
        candidate: 10,
        track: track("candidate", "Artist Candidate"),
    };
    let bundle = EvidenceBundle {
        schema_version: 1,
        frozen_at: "2026-07-20T00:00:00Z".to_owned(),
        providers: Vec::new(),
        edges: vec![
            edge(
                EntityKind::Recording,
                "anchor",
                EntityKind::Recording,
                "candidate",
                EvidenceScope::EndpointLocal,
                1,
            ),
            edge(
                EntityKind::Recording,
                "other",
                EntityKind::Recording,
                "candidate",
                EvidenceScope::EndpointLocal,
                2,
            ),
        ],
    };
    let candidates = [candidate];
    let collection_sources = [anchor.clone(), other_source];
    let opening = select_endpoint_candidates(
        &bundle,
        &anchor,
        SourceEndpoint::Right,
        &collection_sources,
        &candidates,
    );
    assert_eq!(opening.pool, SemanticPool::EndpointLocal);
    assert_eq!(opening.candidates[0].tier, SemanticTier::RecordingOne);
    assert_eq!(opening.candidates[0].evidence.len(), 1);
    assert_eq!(
        opening.candidates[0].evidence[0].source_endpoint,
        SourceEndpoint::Right
    );

    let empty = EvidenceBundle {
        edges: Vec::new(),
        ..bundle
    };
    let fallback = select_endpoint_candidates(
        &empty,
        &anchor,
        SourceEndpoint::Left,
        &collection_sources,
        &candidates,
    );
    assert_eq!(fallback.pool, SemanticPool::BlissOnly);
    assert_eq!(fallback.candidates[0].tier, SemanticTier::BlissOnly);
}

#[test]
fn failed_provider_without_edges_falls_back_to_bliss() {
    let left = track("left", "Artist Left");
    let right = track("right", "Artist Right");
    let candidate = CandidateIdentity {
        candidate: 10,
        track: track("candidate", "Artist Candidate"),
    };
    let bundle = EvidenceBundle {
        schema_version: 1,
        frozen_at: "2026-07-20T00:00:00Z".to_owned(),
        providers: vec![ProviderState {
            provider: "offline-provider".to_owned(),
            dataset_or_algorithm: None,
            state: ProviderStatus::Failed,
            request_count: Some(1),
            failure_count: Some(1),
            error_codes: vec!["timeout".to_owned()],
        }],
        edges: Vec::new(),
    };
    let selected = select_gap_candidates(
        &bundle,
        &left,
        &right,
        &[left.clone(), right.clone()],
        &[candidate],
    );
    assert_eq!(selected.pool, SemanticPool::BlissOnly);
    assert_eq!(selected.candidates[0].tier, SemanticTier::BlissOnly);
}

#[test]
fn lastfm_recording_metadata_matches_and_guidance_is_bounded() {
    let left = track("source", "Source Artist");
    let right = track("right", "Right Artist");
    let mut local_track = track("bliss-row-10", "Similar Artist");
    local_track.title_name = normalize_identity("Similar Song");
    let candidate = CandidateIdentity {
        candidate: 10,
        track: local_track,
    };
    let bliss_only = CandidateIdentity {
        candidate: 11,
        track: track("bliss-row-11", "Other Artist"),
    };
    let mut recording_edge = edge(
        EntityKind::Recording,
        "source",
        EntityKind::Recording,
        "lastfm-result",
        EvidenceScope::EndpointLocal,
        1,
    );
    recording_edge.provider = "last.fm".to_owned();
    recording_edge.dataset_or_algorithm = Some("track.getSimilar".to_owned());
    recording_edge.candidate.name = Some("Similar Artist".to_owned());
    recording_edge.candidate.title = Some("Similar Song".to_owned());
    recording_edge.raw_score = Some(UNIT as i64 / 10 * 9);
    let bundle = EvidenceBundle {
        schema_version: 1,
        frozen_at: "2026-08-04T00:00:00Z".to_owned(),
        providers: Vec::new(),
        edges: vec![recording_edge],
    };
    let selected = select_gap_candidates(
        &bundle,
        &left,
        &right,
        &[left.clone(), right.clone()],
        &[candidate, bliss_only],
    );
    assert_eq!(selected.candidates.len(), 2);
    let guided = selected
        .candidates
        .iter()
        .find(|candidate| candidate.candidate == 10)
        .unwrap();
    assert_eq!(guided.tier, SemanticTier::RecordingOne);
    assert!(guided.track_support() > 0);
    assert_eq!(guided.artist_support(), 0);
    assert_eq!(guided.adjusted_percentile(HALF, 0, 100), i128::from(HALF));
    let fully_guided = guided.adjusted_percentile(HALF, 100, 100);
    assert!(fully_guided < i128::from(HALF));
    assert!(fully_guided >= i128::from(UNIT / 10 * 4));
}

#[test]
fn collection_evidence_is_used_only_after_the_local_pool_is_empty() {
    let left = track("left", "Artist Left");
    let right = track("right", "Artist Right");
    let candidate = CandidateIdentity {
        candidate: 12,
        track: track("candidate", "Artist Collection"),
    };
    let bundle = EvidenceBundle {
        schema_version: 1,
        frozen_at: "2026-07-20T00:00:00Z".to_owned(),
        providers: Vec::new(),
        edges: vec![edge(
            EntityKind::Artist,
            &canonical_artist_id("Artist Left"),
            EntityKind::Artist,
            &canonical_artist_id("Artist Collection"),
            EvidenceScope::CollectionFallback,
            1,
        )],
    };
    let selected = select_gap_candidates(
        &bundle,
        &left,
        &right,
        &[left.clone(), right.clone()],
        &[candidate],
    );
    assert_eq!(selected.pool, SemanticPool::CollectionFallback);
    assert_eq!(selected.candidates[0].tier, SemanticTier::ArtistCollection);
}

#[test]
fn every_edge_requires_one_declared_provider_state() {
    let bundle = EvidenceBundle {
        schema_version: 1,
        frozen_at: "2026-07-20T00:00:00Z".to_owned(),
        providers: Vec::new(),
        edges: vec![edge(
            EntityKind::Recording,
            "source",
            EntityKind::Recording,
            "candidate",
            EvidenceScope::EndpointLocal,
            1,
        )],
    };
    assert_eq!(
        bundle.validate(),
        Err(SemanticError::UndeclaredProvider("fixture".to_owned()))
    );
}

#[test]
fn lookups_find_candidates_by_every_identity() {
    let mut named = track("recording-one", "Some Artist");
    named.recording_mbid = Some("mbid-one".to_owned());
    let lookup = CandidateLookup::new(&[CandidateIdentity {
        candidate: 7,
        track: named,
    }]);
    let found = |kind: EntityKind, id: &str| lookup.candidates_for_entity(&entity(kind, id));
    assert_eq!(found(EntityKind::Recording, "recording-one"), vec![7]);
    assert_eq!(found(EntityKind::Recording, "mbid-one"), vec![7]);
    assert_eq!(
        found(EntityKind::Artist, &canonical_artist_id("Some Artist")),
        vec![7]
    );
    assert!(found(EntityKind::Recording, "unknown").is_empty());
    assert_eq!(lookup.recording_candidates("unknown"), None);
    assert_eq!(lookup.artist_candidates("unknown"), None);
}

#[test]
fn names_are_folded_to_one_spelling() {
    assert_eq!(
        normalize_identity("  The   Quick\tBROWN Fox "),
        "the quick brown fox"
    );
    assert_eq!(normalize_identity("\u{c4}RGER"), "\u{e4}rger");
    assert_eq!(normalize_identity(""), "");
    assert_eq!(
        canonical_artist_id(" Bj\u{d6}rk "),
        canonical_artist_id("bj\u{f6}rk")
    );
}

#[test]
fn bundles_with_spoilt_declarations_are_refused() {
    let provider = |name: &str| ProviderState {
        provider: name.to_owned(),
        dataset_or_algorithm: None,
        state: ProviderStatus::Fresh,
        request_count: None,
        failure_count: None,
        error_codes: Vec::new(),
    };
    let bundle = |schema_version: u8, names: &[&str]| EvidenceBundle {
        schema_version,
        frozen_at: "2026-07-20T00:00:00Z".to_owned(),
        providers: names.iter().map(|name| provider(name)).collect(),
        edges: Vec::new(),
    };
    assert_eq!(bundle(1, &["a", "b"]).validate(), Ok(()));
    assert_eq!(
        bundle(2, &[]).validate(),
        Err(SemanticError::UnsupportedSchemaVersion(2))
    );
    assert_eq!(
        bundle(1, &["a", "a"]).validate(),
        Err(SemanticError::DuplicateProvider("a".to_owned()))
    );
}

#[test]
fn stronger_tiers_come_first_and_ranks_break_ties() {
    let standing = |tier: SemanticTier, rank: Option<u64>, candidate: usize| CandidateSemantics {
        candidate,
        tier,
        evidence: vec![MatchedEvidence {
            provider: "fixture".to_owned(),
            dataset_or_algorithm: None,
            source_endpoint: SourceEndpoint::Left,
            source_id: "left".to_owned(),
            kind: EntityKind::Recording,
            scope: EvidenceScope::EndpointLocal,
            raw_rank: rank,
            raw_score: None,
            identity_confidence: UNIT as i64,
            observed_at: None,
            cache_state: None,
        }],
    };
    let first = standing(SemanticTier::RecordingBoth, None, 9);
    let second = standing(SemanticTier::RecordingOne, Some(1), 8);
    let third = standing(SemanticTier::RecordingOne, Some(2), 7);
    let last = standing(SemanticTier::RecordingOne, None, 1);
    let ordered = [first, second, third, last];
    for pair in ordered.windows(2) {
        assert_eq!(pair[0].compare_priority(&pair[1]), Ordering::Less);
        assert_eq!(pair[1].compare_priority(&pair[0]), Ordering::Greater);
        assert_eq!(pair[0].compare_priority(&pair[0]), Ordering::Equal);
    }
}

#[test]
fn seeds_take_any_evidence_that_leads_from_the_sources() {
    let source = track("left", "Artist Left");
    let candidates = [
        CandidateIdentity {
            candidate: 5,
            track: track("liked", "Artist Liked"),
        },
        CandidateIdentity {
            candidate: 6,
            track: track("other", "Artist Near"),
        },
        CandidateIdentity {
            candidate: 7,
            track: track("unrelated", "Artist Far"),
        },
    ];
    let mut bundle = EvidenceBundle {
        schema_version: 1,
        frozen_at: "2026-07-20T00:00:00Z".to_owned(),
        providers: Vec::new(),
        edges: vec![
            edge(
                EntityKind::Recording,
                "left",
                EntityKind::Recording,
                "liked",
                EvidenceScope::EndpointLocal,
                11,
            ),
            edge(
                EntityKind::Artist,
                &canonical_artist_id("Artist Left"),
                EntityKind::Artist,
                &canonical_artist_id("Artist Near"),
                EvidenceScope::CollectionFallback,
                1,
            ),
        ],
    };
    for edge in bundle.edges.iter_mut() {
        edge.provider = "Last.FM".to_owned();
    }

    let sources = [source];
    let seeds = select_seed_candidates(&bundle, &sources, &candidates);
    assert_eq!(seeds.len(), 2);
    assert_eq!(seeds[0].candidate, 5);
    assert_eq!(seeds[0].tier, SemanticTier::RecordingOne);
    assert_eq!(seeds[0].evidence[0].source_endpoint, SourceEndpoint::Left);
    assert_eq!(seeds[0].seed_guidance_score(100, 0), HALF);
    assert_eq!(seeds[0].seed_guidance_score(50, 100), HALF / 2);
    assert_eq!(seeds[1].candidate, 6);
    assert_eq!(seeds[1].tier, SemanticTier::ArtistCollection);
    assert_eq!(
        seeds[1].evidence[0].source_endpoint,
        SourceEndpoint::Collection
    );
    assert_eq!(seeds[1].seed_guidance_score(100, 0), 0);

    let collection = select_collection_candidates(&bundle, &sources, &candidates);
    assert_eq!(collection, seeds[1..].to_vec());
    assert!(select_seed_candidates(&bundle, &[], &candidates).is_empty());
}

#[test]
fn white_space_is_what_unicode_says() {
    for code in 0..=0x10ffff_u32 {
        if let Some(character) = char::from_u32(code) {
            assert_eq!(char_is_space(character), character.is_whitespace());
        }
    }
}

#[test]
fn scores_and_confidences_outside_a_share_count_as_the_nearer_end() {
    let one = UNIT as i64;
    let supported = |score: i64, confidence: i64| CandidateSemantics {
        candidate: 1,
        tier: SemanticTier::RecordingOne,
        evidence: vec![MatchedEvidence {
            provider: "last.fm".to_owned(),
            dataset_or_algorithm: None,
            source_endpoint: SourceEndpoint::Left,
            source_id: "left".to_owned(),
            kind: EntityKind::Recording,
            scope: EvidenceScope::EndpointLocal,
            raw_rank: None,
            raw_score: Some(score),
            identity_confidence: confidence,
            observed_at: None,
            cache_state: None,
        }],
    };
    assert_eq!(supported(one, one).track_support(), UNIT / 100 * 65);
    assert_eq!(supported(2 * one, 3 * one).track_support(), UNIT / 100 * 65);
    assert_eq!(supported(-one, one).track_support(), 0);
    assert_eq!(supported(one, -one).track_support(), 0);
    assert_eq!(
        supported(one, -one).compare_priority(&supported(one, 0)),
        Ordering::Greater
    );
}

#[test]
fn evidence_at_zero_percent_has_no_say() {
    let supported = |kind: EntityKind, score: i64| MatchedEvidence {
        provider: "last.fm".to_owned(),
        dataset_or_algorithm: None,
        source_endpoint: SourceEndpoint::Left,
        source_id: "left".to_owned(),
        kind,
        scope: EvidenceScope::EndpointLocal,
        raw_rank: None,
        raw_score: Some(score),
        identity_confidence: UNIT as i64,
        observed_at: None,
        cache_state: None,
    };
    let candidate = |recording: i64| CandidateSemantics {
        candidate: 1,
        tier: SemanticTier::RecordingOne,
        evidence: vec![
            supported(EntityKind::Recording, recording),
            supported(EntityKind::Artist, UNIT as i64 / 2),
        ],
    };
    let weak = candidate(UNIT as i64 / 10);
    let strong = candidate(UNIT as i64);
    assert_eq!(weak.guidance_score(0, 100), UNIT / 2);
    assert_eq!(strong.guidance_score(0, 100), UNIT / 2);
    assert_eq!(
        weak.seed_guidance_score(0, 100),
        strong.seed_guidance_score(0, 100)
    );
    assert!(weak.guidance_score(50, 0) < strong.guidance_score(50, 0));
}
