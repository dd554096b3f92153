//! Whole requests, from the library to the report.

use std::collections::HashSet;

use bliss_playlist_optimizer::analysis::{
    analyze_bridge_request, BridgeAnalysis, SelectionReport,
};
use bliss_playlist_optimizer::artifacts::Artifact;
use bliss_playlist_optimizer::command::CommandFailure;
use bliss_playlist_optimizer::contextual::{AdaptiveScorer, ContextualError};
use bliss_playlist_optimizer::library::{usable_library, LibraryRow, LibraryTrack};
use bliss_playlist_optimizer::destination_report::DestinationReport;
use bliss_playlist_optimizer::reports::optimize_route_request;
use bliss_playlist_optimizer::requests::{
    AdaptiveSettings, Artifacts, ExtensionSettings, RepeatWindows, Request, RouteSettings,
    ScoringSettings, SearchSettings, SelectionSettings, SourceTrack,
};
use bliss_playlist_optimizer::selection_report::Entry;
use bliss_playlist_optimizer::semantic::{
    Entity, EntityKind, EvidenceBundle, EvidenceEdge, EvidenceScope, ProviderState, ProviderStatus,
    SemanticPool,
};
use bliss_playlist_optimizer::scoring::score_request;
use bliss_playlist_optimizer::units::UNIT;

/// An acoustic engine with the identity as its learned matrix.
struct Engine {
    features: Vec<[f32; 23]>,
}

impl Engine {
    fn weights(&self, seeds: &[usize], percent: u16) -> [f64; 23] {
        if seeds.len() < 2 {
            return [1.0; 23];
        }
        let mean = self.mean(seeds);
        let mut spread = [0.0_f64; 23];
        for seed in seeds {
            for (index, value) in self.features[*seed].iter().enumerate() {
                spread[index] += (f64::from(*value) - mean[index]).powi(2);
            }
        }
        let mut inverse = [0.0_f64; 23];
        for (index, value) in spread.iter().enumerate() {
            inverse[index] = 1.0 / (value / seeds.len() as f64 + 1e-6);
        }
        let scale = 23.0 / inverse.iter().sum::<f64>();
        let learned = f64::from(percent) / 100.0;
        std::array::from_fn(|index| learned + (1.0 - learned) * inverse[index] * scale)
    }

    fn mean(&self, seeds: &[usize]) -> [f64; 23] {
        std::array::from_fn(|index| {
            seeds
                .iter()
                .map(|seed| f64::from(self.features[*seed][index]))
                .sum::<f64>()
                / seeds.len() as f64
        })
    }

    fn distance(&self, matrix: &[usize], percent: u16, seeds: &[usize], candidate: usize) -> u64 {
        let weights = self.weights(matrix, percent);
        let mean = self.mean(seeds);
        let total: f64 = (0..23)
            .map(|index| {
                let apart = f64::from(self.features[candidate][index]) - mean[index];
                weights[index] * apart * apart
            })
            .sum();
        (total.sqrt() * UNIT as f64).round() as u64
    }
}

fn scorer(
    engine: &Engine,
) -> AdaptiveScorer<
    impl Fn(&[usize], u16) -> Result<(), ContextualError> + Copy + '_,
    impl Fn(&[usize], u16, &[usize], usize) -> u64 + Copy + '_,
> {
    AdaptiveScorer::new(
        |_: &[usize], percent: u16| {
            if percent > 100 {
                Err(ContextualError::InvalidLearnedPercent(percent))
            } else {
                Ok(())
            }
        },
        move |matrix: &[usize], percent: u16, seeds: &[usize], candidate: usize| {
            engine.distance(matrix, percent, seeds, candidate)
        },
    )
}

fn ranked(value: f32) -> i32 {
    let bits = value.to_bits() as i32;
    if bits < 0 {
        bits ^ i32::MAX
    } else {
        bits
    }
}

fn features(value: f32) -> [f32; 23] {
    std::array::from_fn(|index| value + index as f32 / 100.0)
}

/// A library with one artist and album for each track, the tracks in a row.
fn library(size: usize) -> (Engine, Vec<LibraryTrack>) {
    let engine = Engine {
        features: (0..size).map(|index| features(index as f32)).collect(),
    };
    let rows: Vec<LibraryRow> = engine
        .features
        .iter()
        .enumerate()
        .map(|(index, features)| LibraryRow {
            row_id: index as u64 + 1,
            file: format!("{index}.flac"),
            artist: Some(format!("Artist {index}")),
            album: Some(format!("Album {index}")),
            title: Some(format!("Title {index}")),
            features: std::array::from_fn(|place| ranked(features[place])),
        })
        .collect();
    (engine, usable_library(&rows))
}

fn artifact(path: &str) -> Artifact {
    Artifact {
        path: path.to_owned(),
        sha256: None,
        schema_identity: None,
        cache_identity: None,
    }
}

fn request(policy: &str, mode: &str, files: &[usize]) -> Request {
    Request {
        job_id: "job".to_owned(),
        artifacts: Artifacts {
            database: artifact("bliss.db"),
            learned_matrix: Some(artifact("matrix.json")),
            local_candidate_inventory: None,
        },
        source_tracks: files
            .iter()
            .map(|file| SourceTrack {
                id: format!("track-{file}"),
                database_file: Some(format!("{file}.flac")),
                title: None,
                artist: None,
                album: None,
                recording_mbid: None,
                artist_mbids: Vec::new(),
            })
            .collect(),
        scoring: ScoringSettings {
            algorithm: "adaptive".to_owned(),
            adaptive: Some(AdaptiveSettings {
                seed_limit: 2,
                learned_percent: 20,
            }),
            feature_weights: None,
        },
        route: RouteSettings {
            ordering_policy: policy.to_owned(),
            objective: "bottleneck_then_sum".to_owned(),
            start_track_id: None,
            destination_track_id: None,
            search: SearchSettings {
                deterministic_seed: 2026,
                restart_count: 2,
                time_budget_ms: None,
            },
        },
        repeat_windows: RepeatWindows {
            artist: 1,
            album: 1,
            track: 1,
        },
        extension: ExtensionSettings {
            mode: mode.to_owned(),
            additional_track_count: None,
            target_track_count: None,
            allow_opening_track: None,
            allow_closing_track: None,
            candidate_limit: None,
            max_tracks_per_gap: None,
            max_added_tracks: None,
            trigger_percentile: None,
            shortlist_limit: None,
            destination_mode: None,
            min_added_tracks: None,
            search_effort: None,
        },
        selection: SelectionSettings::default(),
        semantic_evidence: artifact("evidence.json"),
    }
}

fn automatic(policy: &str, files: &[usize], budget: usize) -> Request {
    let mut request = request(policy, "automatic", files);
    request.extension.max_added_tracks = Some(budget);
    request.extension.trigger_percentile = Some(0);
    request
}

fn exact(policy: &str, files: &[usize], count: usize) -> Request {
    let mut request = request(policy, "exact_count", files);
    request.extension.additional_track_count = Some(count);
    request
}

fn no_evidence() -> EvidenceBundle {
    EvidenceBundle {
        schema_version: 1,
        frozen_at: "2026-07-20T00:00:00Z".to_owned(),
        providers: Vec::new(),
        edges: Vec::new(),
    }
}

fn analyze(
    request: &Request,
    size: usize,
    rows: Option<&HashSet<u64>>,
) -> Result<BridgeAnalysis, CommandFailure> {
    let (engine, library) = library(size);
    let scorer = scorer(&engine);
    let adjacent = |from: usize, to: usize| engine.distance(&[from], 0, &[from], to);
    analyze_bridge_request(request, &no_evidence(), &scorer, adjacent, &library, rows)
}

fn names(entries: &[Entry]) -> Vec<&str> {
    entries.iter().map(|entry| entry.track_id.as_str()).collect()
}

#[test]
fn routes_visit_every_source_once() {
    let (engine, library) = library(6);
    let found = optimize_route_request(
        &request("optimize_order", "none", &[0, 3, 1, 4]),
        &library,
        &scorer(&engine),
    )
    .unwrap();
    let mut ids = found.selected_track_ids.clone();
    ids.sort();
    assert_eq!(ids, vec!["track-0", "track-1", "track-3", "track-4"]);
    assert!(found.track_window_satisfied);
    assert_eq!(found.result.selected.route.len(), 4);
}

#[test]
fn automatic_bridges_keep_the_playlist() {
    let found = analyze(&automatic("preserve_order", &[0, 2, 4], 5), 5, None).unwrap();
    assert_eq!(found.source_track_ids, found.selected_track_ids);
    assert_eq!(found.usable_library_track_count, 5);
    assert_eq!(found.eligible_candidate_count, 2);
    assert_eq!(found.gaps.len(), 2);
    assert_eq!(found.gaps[0].semantic_pool, SemanticPool::BlissOnly);
    let report = match found.selection {
        SelectionReport::Automatic(report) => report,
        _ => panic!("expected an automatic selection"),
    };
    assert_eq!(report.max_added_tracks, 5);
    assert!(report.original_subsequence_preserved);
    assert!(report.unique_membership);
    assert_eq!(report.final_sequence.len(), 3 + report.added_track_count);
    assert_eq!(report.decisions.len(), 2);
}

#[test]
fn optimized_order_comes_before_bridging() {
    let found = analyze(&automatic("optimize_order", &[0, 4, 2], 0), 5, None).unwrap();
    assert_ne!(found.source_track_ids, found.selected_track_ids);
    let mut ids = found.selected_track_ids.clone();
    ids.sort();
    assert_eq!(ids, vec!["track-0", "track-2", "track-4"]);
}

#[test]
fn rows_outside_the_inventory_are_no_candidates() {
    let local = HashSet::from([1, 3, 5]);
    let found = analyze(
        &automatic("preserve_order", &[0, 2, 4], 5),
        6,
        Some(&local),
    )
    .unwrap();
    assert_eq!(found.local_candidate_track_count, Some(3));
    assert_eq!(found.eligible_candidate_count, 0);
    assert_eq!(found.non_local_candidate_excluded_count, Some(3));
    match found.selection {
        SelectionReport::Automatic(report) => assert_eq!(report.added_track_count, 0),
        _ => panic!("expected an automatic selection"),
    }
}

#[test]
fn exact_requests_add_what_was_asked_or_nothing() {
    let wide = |request: &mut Request| {
        request.extension.candidate_limit = Some(8);
        request.repeat_windows = RepeatWindows {
            artist: 0,
            album: 0,
            track: 0,
        };
    };
    let mut ends = exact("preserve_order", &[2, 3], 2);
    wide(&mut ends);
    ends.extension.allow_opening_track = Some(true);
    ends.extension.allow_closing_track = Some(true);
    let found = analyze(&ends, 6, None).unwrap();
    let report = match found.selection {
        SelectionReport::Exact(report) => report,
        _ => panic!("expected an exact selection"),
    };
    assert_eq!(report.requested_added_tracks, 2);
    assert!(report.endpoint_policy.is_some());
    if report.feasible {
        assert_eq!(report.added_track_count, 2);
        assert_eq!(report.final_sequence.as_ref().map(Vec::len), Some(4));
        assert_eq!(report.original_subsequence_preserved, Some(true));
    }

    let mut many = exact("preserve_order", &[2, 3], 9);
    wide(&mut many);
    let report = match analyze(&many, 6, None).unwrap().selection {
        SelectionReport::Exact(report) => report,
        _ => panic!("expected an exact selection"),
    };
    assert!(!report.feasible);
    assert_eq!(report.added_track_count, 0);
    assert!(report.final_sequence.is_none());
    assert_eq!(
        report.infeasibility.map(|reason| reason.code),
        Some("EXACT_COUNT_INFEASIBLE")
    );
}

#[test]
fn seeds_grow_to_the_target() {
    let mut growing = request("optimize_order", "seed_growth", &[0, 1]);
    growing.extension.target_track_count = Some(5);
    let report = match analyze(&growing, 8, None).unwrap().selection {
        SelectionReport::SeedGrowth(report) => report,
        _ => panic!("expected a grown selection"),
    };
    assert_eq!(report.target_track_count, 5);
    assert_eq!(report.added_track_count, 3);
    assert_eq!(report.selected_additions.len(), 3);
    assert_eq!(report.final_sequence.len(), 5);
    let unique: HashSet<&str> = names(&report.final_sequence).into_iter().collect();
    assert_eq!(unique.len(), 5);
    assert!(unique.contains("track-0") && unique.contains("track-1"));

    growing.extension.target_track_count = None;
    assert_eq!(
        analyze(&growing, 8, None).unwrap_err().code,
        "SEED_GROWTH_TARGET_REQUIRED"
    );
}

#[test]
fn kept_orders_with_repeats_are_refused() {
    let (engine, mut library) = library(4);
    library[1].artist_key = library[0].artist_key.clone();
    let refused = analyze_bridge_request(
        &automatic("preserve_order", &[0, 1], 1),
        &no_evidence(),
        &scorer(&engine),
        |from: usize, to: usize| engine.distance(&[from], 0, &[from], to),
        &library,
        None,
    )
    .unwrap_err();
    assert_eq!(refused.code, "PRESERVED_ANCHOR_REPEAT_CONFLICT");
}

#[test]
fn two_tracks_are_measured_against_the_library() {
    let found = analyze(&automatic("preserve_order", &[0, 4], 1), 5, None).unwrap();
    assert!(found.frozen_reference_count > 1);
    assert_eq!(found.gaps.len(), 1);
}

#[test]
fn evidence_reaches_the_gaps() {
    let (engine, library) = library(5);
    let entity = |id: &str| Entity {
        kind: EntityKind::Recording,
        id: id.to_owned(),
        mbid: None,
        name: None,
        title: None,
    };
    let mut bundle = no_evidence();
    bundle.providers.push(ProviderState {
        provider: "fixture".to_owned(),
        dataset_or_algorithm: None,
        state: ProviderStatus::Fresh,
        request_count: None,
        failure_count: None,
        error_codes: Vec::new(),
    });
    bundle.edges.push(EvidenceEdge {
        provider: "fixture".to_owned(),
        dataset_or_algorithm: None,
        source: entity("track-0"),
        candidate: entity("bliss-row-2"),
        scope: EvidenceScope::EndpointLocal,
        raw_rank: Some(1),
        raw_score: None,
        identity_confidence: UNIT as i64,
        observed_at: None,
        cache_state: None,
    });
    let found = analyze_bridge_request(
        &automatic("preserve_order", &[0, 2, 4], 1),
        &bundle,
        &scorer(&engine),
        |from: usize, to: usize| engine.distance(&[from], 0, &[from], to),
        &library,
        None,
    )
    .unwrap();
    assert_eq!(found.gaps[0].semantic_pool, SemanticPool::EndpointLocal);
    assert_eq!(found.gaps[1].semantic_pool, SemanticPool::BlissOnly);
}

/// A request for a route from the last but one of the sources to the last.
fn destined(files: &[usize], mode: &str) -> Request {
    let mut request = request("queue_destination", "destination_route", files);
    let count = files.len();
    request.route.start_track_id = Some(format!("track-{}", files[count - 2]));
    request.route.destination_track_id = Some(format!("track-{}", files[count - 1]));
    request.extension.destination_mode = Some(mode.to_owned());
    request
}

fn destination(request: &Request, size: usize) -> DestinationReport {
    match analyze(request, size, None).unwrap().selection {
        SelectionReport::Destination(report) => report,
        _ => panic!("expected a route to a destination"),
    }
}

#[test]
fn automatic_destinations_take_the_shortest_good_way() {
    let mut request = destined(&[0, 4], "automatic");
    request.extension.max_added_tracks = Some(3);
    request.extension.trigger_percentile = Some(2 * UNIT as i64);
    let direct = destination(&request, 5);
    assert!(direct.feasible);
    assert_eq!(direct.added_track_count, 0);
    assert_eq!(direct.target_met, Some(true));
    let quality = direct.route_quality.unwrap();
    assert_eq!(quality.edges.len(), 1);
    assert_eq!(quality.adjacent_distance_sum, u128::from(quality.adjacent_bottleneck));
    assert_eq!(quality.distance_kind, "fixed-matrix-adjacent-distance");

    request.extension.trigger_percentile = Some(0);
    let smooth = destination(&request, 5);
    assert_eq!(
        names(&smooth.final_sequence.unwrap()),
        vec!["track-0", "bliss-row-2", "bliss-row-3", "bliss-row-4", "track-4"]
    );
    let quality = smooth.route_quality.unwrap();
    assert_eq!(quality.edges.len(), 4);
    assert_eq!(
        quality.edges[0].from_track_id.as_str(),
        "track-0"
    );
    assert_eq!(
        quality.adjacent_distance_sum,
        quality.edges.iter().map(|edge| u128::from(edge.distance)).sum()
    );
    assert_eq!(smooth.original_subsequence_preserved, Some(true));
    assert_eq!(smooth.unique_membership, Some(true));

    request.extension.trigger_percentile = Some(2 * UNIT as i64);
    request.extension.min_added_tracks = Some(1);
    assert_eq!(destination(&request, 5).added_track_count, 1);
}

#[test]
fn only_the_last_gap_of_a_queue_is_extended() {
    let mut request = destined(&[6, 0, 4], "exact");
    request.extension.additional_track_count = Some(2);
    let found = analyze(&request, 7, None).unwrap();
    assert_eq!(found.gaps.len(), 1);
    let report = match found.selection {
        SelectionReport::Destination(report) => report,
        _ => panic!("expected a route to a destination"),
    };
    assert!(report.feasible);
    assert_eq!(report.added_track_count, 2);
    assert_eq!(report.target_met, None);
    let sequence = report.final_sequence.unwrap();
    let ids = names(&sequence);
    assert_eq!(ids.len(), 5);
    assert_eq!(&ids[..2], ["track-6", "track-0"]);
    assert_eq!(ids[4], "track-4");
    assert_eq!(report.route_quality.unwrap().edges.len(), 3);
    assert_eq!(report.decisions.len(), 2);
}

#[test]
fn exact_destinations_are_all_or_nothing() {
    let mut request = destined(&[0, 2], "exact");
    request.extension.additional_track_count = Some(3);
    let missed = destination(&request, 4);
    assert!(!missed.feasible);
    assert!(missed.final_sequence.is_none() && missed.route_quality.is_none());
    assert!(missed.decisions.is_empty());
    let reason = missed.infeasibility.unwrap();
    assert_eq!(reason.code, "EXACT_COUNT_INFEASIBLE");
    assert_eq!(reason.structural_upper_bound, 2);
    assert_eq!(reason.requested_added_tracks, 3);
}

#[test]
fn conflicts_already_in_the_queue_do_not_matter() {
    let (engine, mut library) = library(4);
    for track in &mut library[..2] {
        track.route_track.artist_key = "same".to_owned();
    }
    let mut request = destined(&[0, 1], "automatic");
    request.extension.max_added_tracks = Some(1);
    request.extension.trigger_percentile = Some(2 * UNIT as i64);
    let found = analyze_bridge_request(
        &request,
        &no_evidence(),
        &scorer(&engine),
        |from: usize, to: usize| engine.distance(&[from], 0, &[from], to),
        &library,
        None,
    )
    .unwrap();
    assert!(matches!(
        found.selection,
        SelectionReport::Destination(report) if report.feasible
    ));
}

#[test]
fn playlists_without_a_learned_matrix_are_scored() {
    let (engine, _) = library(4);
    let mut request = request("optimize_order", "none", &[0, 1, 3]);
    request.artifacts.learned_matrix = None;
    let refused = score_request(&request, vec![0, 1, 3], &scorer(&engine)).unwrap_err();
    assert_eq!(refused.code, "MATRIX_REQUIRED");

    request.scoring.feature_weights = Some(vec![UNIT as i64; 23]);
    let report = score_request(&request, vec![0, 1, 3], &scorer(&engine)).unwrap();
    assert_eq!(report.legs.len(), 2);
    assert_eq!(report.legs[0].algorithm, "feature-weights");
    assert_eq!(report.legs[1].algorithm, "variance");
    assert_eq!(report.legs[0].distance, engine.distance(&[0], 20, &[0], 1));
    assert_eq!(report.legs[1].distance, engine.distance(&[0, 1], 20, &[0, 1], 3));
    assert_eq!(report.legs[1].seed_start, 0);
    assert_eq!(
        report.objective,
        report.transition_sum + 2 * u128::from(report.worst_transition)
    );

    request.scoring.adaptive = Some(AdaptiveSettings {
        seed_limit: 2,
        learned_percent: 101,
    });
    assert_eq!(
        score_request(&request, vec![0, 1, 3], &scorer(&engine))
            .unwrap_err()
            .code,
        "ADAPTIVE_SCORING_FAILED"
    );
}

#[test]
fn varied_growth_is_reproducible() {
    let mut growing = request("preserve_order", "seed_growth", &[0, 1]);
    growing.extension.target_track_count = Some(5);
    growing.selection.variation_percent = 100;
    let grown = |request: &Request| match analyze(request, 60, None).unwrap().selection {
        SelectionReport::SeedGrowth(report) => names(&report.final_sequence)
            .into_iter()
            .map(str::to_owned)
            .collect::<Vec<String>>(),
        _ => panic!("expected a grown selection"),
    };
    let first = grown(&growing);
    assert_eq!(first.len(), 5);
    assert_eq!(first, grown(&growing));
    let mut seen = HashSet::new();
    for seed in 0..20 {
        growing.selection.generation_seed = seed;
        let mut members = grown(&growing);
        members.sort();
        seen.insert(members);
    }
    assert!(seen.len() > 1);
    growing.selection.variation_percent = 0;
    let strict = grown(&growing);
    growing.selection.generation_seed = 99;
    assert_eq!(strict, grown(&growing));
}

#[test]
fn evidence_from_elsewhere_reserves_no_place() {
    let (engine, library) = library(6);
    let artist = |id: &str, name: &str| Entity {
        kind: EntityKind::Artist,
        id: id.to_owned(),
        mbid: None,
        name: Some(name.to_owned()),
        title: None,
    };
    let mut bundle = no_evidence();
    bundle.providers.push(ProviderState {
        provider: "fixture".to_owned(),
        dataset_or_algorithm: None,
        state: ProviderStatus::Fresh,
        request_count: None,
        failure_count: None,
        error_codes: Vec::new(),
    });
    bundle.edges.push(EvidenceEdge {
        provider: "fixture".to_owned(),
        dataset_or_algorithm: None,
        source: artist("a0", "Artist 0"),
        candidate: artist("a5", "Artist 5"),
        scope: EvidenceScope::CollectionFallback,
        raw_rank: Some(1),
        raw_score: None,
        identity_confidence: UNIT as i64,
        observed_at: None,
        cache_state: None,
    });
    let mut request = automatic("preserve_order", &[0, 2], 1);
    request.extension.shortlist_limit = Some(1);
    let adjacent = |from: usize, to: usize| engine.distance(&[from], 0, &[from], to);
    let shown = |bundle: &EvidenceBundle| {
        let found = analyze_bridge_request(
            &request,
            bundle,
            &scorer(&engine),
            adjacent,
            &library,
            None,
        )
        .unwrap();
        match found.selection {
            SelectionReport::Automatic(report) => names(&report.final_sequence)
                .into_iter()
                .map(str::to_owned)
                .collect::<Vec<String>>(),
            _ => panic!("expected an automatic selection"),
        }
    };
    assert_eq!(shown(&bundle), shown(&no_evidence()));
    assert!(!shown(&bundle).contains(&"bliss-row-6".to_owned()));
}
