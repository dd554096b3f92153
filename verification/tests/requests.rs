//! Checks of requests and of the artifacts that they name.

use std::collections::HashSet;

use bliss_playlist_optimizer::artifacts::{
    accept_cache, accept_inventory, check_artifact, check_inventory, frame_cache,
    library_cache_name, unframe_cache, verify_artifact_hash, Artifact, CacheHead,
    LocalCandidateInventory, LIBRARY_CACHE_VERSION,
};
use bliss_playlist_optimizer::destination_goal::{
    search_breadth, DestinationGoal, SearchBreadth, SearchEffort,
};
use bliss_playlist_optimizer::digest::digest_text;
use bliss_playlist_optimizer::gates::{
    check_bridge_request, check_route_request, check_score_request, plan_extension, ExtensionPlan,
};
use bliss_playlist_optimizer::library::{
    bridge_candidate_id, candidate_semantic_identity, library_rows, repeat_key,
    source_semantic_identity, usable_library, LibraryRow, LibraryTrack,
};
use bliss_playlist_optimizer::reports::{are_different, report_scores, ScoredLeg};
use bliss_playlist_optimizer::requests::{
    cache_state, check_bundle, check_measures, choose_measure, next_work, resolve_sources,
    summarize, AdaptiveSettings, Artifacts, Digests, ExtensionSettings, Measure, RepeatWindows,
    Request, RouteSettings, ScoringSettings, SearchSettings, SelectionSettings, SourceTrack, Work,
};
use bliss_playlist_optimizer::semantic::EvidenceBundle;
use bliss_playlist_optimizer::sources::{bridge_sources, eligible_candidates};
use bliss_playlist_optimizer::units::UNIT;

const DIGEST_OF_ABC: &str = "ba7816bf8f01cfea414140de5dae2223b00361a396177a9cb410ff61f20015ad";

fn artifact(path: &str) -> Artifact {
    Artifact {
        path: path.to_owned(),
        sha256: None,
        schema_identity: None,
        cache_identity: None,
    }
}

fn source(id: &str, file: &str) -> SourceTrack {
    SourceTrack {
        id: id.to_owned(),
        database_file: Some(file.to_owned()),
        title: None,
        artist: None,
        album: None,
        recording_mbid: None,
        artist_mbids: Vec::new(),
    }
}

fn row(row_id: u64, file: &str, artist: Option<&str>, album: Option<&str>) -> LibraryRow {
    LibraryRow {
        row_id,
        file: file.to_owned(),
        artist: artist.map(str::to_owned),
        album: album.map(str::to_owned),
        title: Some(format!(" Title {row_id} ")),
        features: [0; 23],
    }
}

fn library() -> Vec<LibraryTrack> {
    usable_library(&[
        row(10, "a.flac", Some(" Artist A"), Some("Album A")),
        row(11, "b.flac", Some("Artist B"), None),
        row(12, "c.flac", None, Some("Album C")),
    ])
}

fn request() -> Request {
    Request {
        job_id: "job".to_owned(),
        artifacts: Artifacts {
            database: artifact("bliss.db"),
            learned_matrix: Some(artifact("matrix.json")),
            local_candidate_inventory: None,
        },
        source_tracks: vec![source("one", "a.flac"), source("two", "b.flac")],
        scoring: ScoringSettings {
            algorithm: "adaptive".to_owned(),
            adaptive: Some(AdaptiveSettings {
                seed_limit: 3,
                learned_percent: 20,
            }),
            feature_weights: None,
        },
        route: RouteSettings {
            ordering_policy: "optimize_order".to_owned(),
            objective: "bottleneck_then_sum".to_owned(),
            start_track_id: None,
            destination_track_id: None,
            search: SearchSettings {
                deterministic_seed: 1,
                restart_count: 2,
                time_budget_ms: None,
            },
        },
        repeat_windows: RepeatWindows {
            artist: 1,
            album: 1,
            track: 1,
        },
        extension: ExtensionSettings {
            mode: "none".to_owned(),
            additional_track_count: None,
            target_track_count: None,
            allow_opening_track: None,
            allow_closing_track: None,
            candidate_limit: None,
            max_tracks_per_gap: None,
            max_added_tracks: None,
            trigger_percentile: None,
            shortlist_limit: None,
            destination_mode: None,
            min_added_tracks: None,
            search_effort: None,
        },
        selection: SelectionSettings::default(),
        semantic_evidence: artifact("evidence.json"),
    }
}

fn bridging(mode: &str) -> Request {
    let mut request = request();
    request.extension.mode = mode.to_owned();
    request
}

#[test]
fn digests_are_written_in_lower_hex() {
    assert_eq!(digest_text(b"abc"), DIGEST_OF_ABC);
    assert_eq!(
        digest_text(b""),
        "e3b0c44298fc1c149afbf4c8996fb92427ae41e4649b934ca495991b7852b855"
    );
}

#[test]
fn artifacts_are_bound_to_their_digest() {
    let mut database = artifact("bliss.db");
    assert_eq!(
        check_artifact(&database, "database", b"abc").unwrap(),
        DIGEST_OF_ABC
    );
    database.sha256 = Some(DIGEST_OF_ABC.to_uppercase());
    assert!(verify_artifact_hash(&database, "database", DIGEST_OF_ABC).is_ok());
    let failure = check_artifact(&database, "database", b"abd").unwrap_err();
    assert_eq!(failure.code, "ARTIFACT_HASH_MISMATCH");
}

#[test]
fn cached_libraries_are_identity_bound_and_round_trip() {
    let payload = b"library".to_vec();
    let mut framed = frame_cache(&payload);
    assert_eq!(unframe_cache(&framed), Some(payload));
    let last = framed.len() - 1;
    framed[last] ^= 0x01;
    assert_eq!(unframe_cache(&framed), None);
    assert_eq!(unframe_cache(b"short"), None);
    assert_eq!(unframe_cache(&[]), None);

    let mut database = artifact("bliss.db");
    database.cache_identity = Some("fixture-identity-v1".to_owned());
    let head = CacheHead {
        format_version: LIBRARY_CACHE_VERSION,
        database_path: "bliss.db".to_owned(),
        database_identity: "fixture-identity-v1".to_owned(),
        database_sha256: DIGEST_OF_ABC.to_owned(),
        metadata_count: 2,
        route_track_count: 2,
    };
    assert!(accept_cache(&head, &database));
    database.cache_identity = Some("changed".to_owned());
    assert!(!accept_cache(&head, &database));
    database.cache_identity = None;
    assert!(!accept_cache(&head, &database));
    assert_ne!(library_cache_name("bliss.db"), library_cache_name("other.db"));
    assert!(library_cache_name("abc").contains(DIGEST_OF_ABC));
}

#[test]
fn inventories_are_database_bound() {
    let library = library();
    let rows = library_rows(&library);
    let mut database = artifact("bliss.db");
    database.cache_identity = Some("inventory-fixture-v1".to_owned());
    let mut named = artifact("inventory.json");
    named.schema_identity = Some("lms-local-candidate-inventory-v1".to_owned());
    assert!(check_inventory(&named, &database).is_ok());
    let mut inventory = LocalCandidateInventory {
        schema_identity: "lms-local-candidate-inventory-v1".to_owned(),
        database_cache_identity: "inventory-fixture-v1".to_owned(),
        allowed_row_ids: vec![10, 11],
    };
    let accepted = accept_inventory(&inventory, &database, &rows, false).unwrap();
    assert_eq!(accepted.len(), 2);
    assert!(accepted.contains(&10));

    inventory.allowed_row_ids.push(99);
    assert_eq!(
        accept_inventory(&inventory, &database, &rows, false).unwrap_err().code,
        "CANDIDATE_INVENTORY_UNKNOWN_ROW"
    );
    assert_eq!(
        accept_inventory(&inventory, &database, &rows, true).map(|rows| rows.len()),
        Ok(3)
    );
    inventory.allowed_row_ids.pop();
    database.cache_identity = Some("changed".to_owned());
    assert_eq!(
        accept_inventory(&inventory, &database, &rows, false).unwrap_err().code,
        "CANDIDATE_INVENTORY_DATABASE_MISMATCH"
    );
    database.cache_identity = None;
    assert_eq!(
        check_inventory(&named, &database).unwrap_err().code,
        "CANDIDATE_INVENTORY_DATABASE_IDENTITY_REQUIRED"
    );
    named.schema_identity = Some("other".to_owned());
    assert_eq!(
        check_inventory(&named, &database).unwrap_err().code,
        "CANDIDATE_INVENTORY_SCHEMA_MISMATCH"
    );
}

/// The work that a request takes, or the code of the failure.
fn work_for(request: &Request, has_cache: bool, hit: bool) -> Result<Vec<Work>, &'static str> {
    let mut done = Work::Begin;
    let mut all = Vec::new();
    while done != Work::Done {
        done = next_work(request, "TracksV2", has_cache, done, hit).map_err(|error| error.code)?;
        all.push(done);
    }
    Ok(all)
}

#[test]
fn requests_are_prepared_step_by_step() {
    let mut request = request();
    assert_eq!(
        work_for(&request, false, false),
        Ok(vec![
            Work::ReadDatabase,
            Work::ReadMatrix,
            Work::ReadEvidence,
            Work::ResolveSources,
            Work::Done,
        ])
    );
    request.artifacts.database.cache_identity = Some("identity".to_owned());
    assert_eq!(
        work_for(&request, true, false).unwrap()[..2],
        [Work::ReadCache, Work::ReadDatabase]
    );
    assert_eq!(
        work_for(&request, true, true).unwrap()[..2],
        [Work::ReadCache, Work::ReadMatrix]
    );
    request.artifacts.learned_matrix = None;
    assert_eq!(work_for(&request, false, false), Err("MATRIX_REQUIRED"));
    request.artifacts.learned_matrix = Some(artifact("matrix.json"));
    request.semantic_evidence.schema_identity = Some("other".to_owned());
    assert_eq!(
        work_for(&request, false, false),
        Err("SEMANTIC_SCHEMA_MISMATCH")
    );
    request.artifacts.database.schema_identity = Some("other".to_owned());
    assert_eq!(
        work_for(&request, false, false),
        Err("DATABASE_SCHEMA_MISMATCH")
    );
    assert_eq!(cache_state(true, true, true), "hit");
    assert_eq!(cache_state(true, true, false), "miss");
    assert_eq!(cache_state(true, false, false), "disabled");
}

#[test]
fn sources_are_distinct_and_known() {
    let library = library();
    let code = |sources: &[SourceTrack], rows: Option<&HashSet<u64>>| {
        resolve_sources(sources, &library, rows).map_err(|failure| failure.code)
    };
    assert_eq!(
        code(&[source("two", "b.flac"), source("one", "a.flac")], None),
        Ok(vec![1, 0])
    );
    assert_eq!(
        code(&[source("one", "a.flac"), source("one", "b.flac")], None),
        Err("DUPLICATE_SOURCE_TRACK")
    );
    assert_eq!(
        code(&[source("one", "a.flac"), source("two", "a.flac")], None),
        Err("DUPLICATE_SOURCE_TRACK")
    );
    assert_eq!(
        code(&[source("one", "missing.flac")], None),
        Err("TRACK_NOT_ANALYZED")
    );
    let mut nameless = source("one", "a.flac");
    nameless.database_file = None;
    assert_eq!(code(&[nameless], None), Err("TRACK_IDENTITY_INCOMPLETE"));
    let local = HashSet::from([11]);
    assert_eq!(
        code(&[source("one", "a.flac")], Some(&local)),
        Err("SOURCE_NOT_IN_LOCAL_CANDIDATE_INVENTORY")
    );
}

#[test]
fn candidates_are_local_and_new() {
    let library = library();
    let sources = [source("one", "a.flac")];
    let found = bridge_sources(&sources, &library).unwrap();
    assert_eq!(found.places, vec![0]);
    assert_eq!(
        eligible_candidates(&found, &sources, &library, None),
        vec![1, 2]
    );
    let local = HashSet::from([10, 12]);
    assert_eq!(
        eligible_candidates(&found, &sources, &library, Some(&local)),
        vec![2]
    );
}

#[test]
fn libraries_hold_folded_keys() {
    let library = library();
    assert_eq!(library[0].artist_key, "artist a");
    assert_eq!(library[0].title_key, "title 10");
    assert_eq!(library[0].route_track.artist_key, "artist a");
    assert_eq!(repeat_key("  MiXed "), "mixed");
    assert_eq!(bridge_candidate_id(42), "bliss-row-42");
    let identity = candidate_semantic_identity(0, &library[0]);
    assert_eq!(identity.candidate, 0);
    assert_eq!(identity.track.recording_id, "bliss-row-10");
    let mut known = source("one", "a.flac");
    known.recording_mbid = Some("mbid".to_owned());
    known.artist = Some("Artist A".to_owned());
    let identity = source_semantic_identity(&known, &library[0]);
    assert_eq!(identity.recording_id, "one");
    assert_eq!(identity.recording_mbid.as_deref(), Some("mbid"));
    assert_eq!(identity.artist_name, "artist a");
}

#[test]
fn scoring_and_routing_refuse_what_they_do_not_support() {
    assert!(check_score_request(&request()).is_ok());
    assert!(check_route_request(&request()).is_ok());
    let refused = |spoil: fn(&mut Request)| {
        let mut request = request();
        spoil(&mut request);
        check_route_request(&request).unwrap_err().code
    };
    assert_eq!(
        refused(|request| request.scoring.algorithm = "euclidean".to_owned()),
        "SCORING_ALGORITHM_UNSUPPORTED"
    );
    assert_eq!(
        refused(|request| request.route.ordering_policy = "preserve_order".to_owned()),
        "ROUTE_POLICY_UNSUPPORTED"
    );
    assert_eq!(
        refused(|request| request.route.objective = "sum".to_owned()),
        "ROUTE_OBJECTIVE_UNSUPPORTED"
    );
    assert_eq!(
        refused(|request| request.route.start_track_id = Some("one".to_owned())),
        "ROUTE_LOCK_UNSUPPORTED"
    );
    assert_eq!(
        refused(|request| request.route.search.time_budget_ms = Some(5)),
        "TIME_BUDGET_UNSUPPORTED"
    );
    assert_eq!(
        refused(|request| request.extension.mode = "automatic".to_owned()),
        "EXTENSION_MODE_UNSUPPORTED"
    );
    assert_eq!(
        refused(|request| request.scoring.adaptive = None),
        "ADAPTIVE_SETTINGS_REQUIRED"
    );
    let mut unlearned = request();
    unlearned.artifacts.learned_matrix = None;
    assert_eq!(
        check_score_request(&unlearned).unwrap_err().code,
        "MATRIX_REQUIRED"
    );
}

#[test]
fn bridging_refuses_what_its_mode_does_not_support() {
    assert!(check_bridge_request(&bridging("automatic")).is_ok());
    let refused = |mode: &str, spoil: fn(&mut Request)| {
        let mut request = bridging(mode);
        spoil(&mut request);
        check_bridge_request(&request).unwrap_err().code
    };
    assert_eq!(refused("none", |_| {}), "EXTENSION_MODE_UNSUPPORTED");
    assert_eq!(
        refused("automatic", |request| request.extension.max_tracks_per_gap = Some(1)),
        "MAX_TRACKS_PER_GAP_UNSUPPORTED"
    );
    assert_eq!(
        refused("automatic", |request| request.extension.allow_opening_track = Some(true)),
        "ENDPOINT_SLOTS_UNSUPPORTED"
    );
    assert_eq!(
        refused("exact_count", |request| request.extension.max_tracks_per_gap = Some(2)),
        "MULTI_TRACK_GAPS_REQUIRE_PRESERVE_ORDER"
    );
}

#[test]
fn plans_need_their_settings() {
    let mut settings = bridging("automatic").extension;
    assert_eq!(
        plan_extension(&settings).unwrap_err().code,
        "AUTOMATIC_BRIDGE_BUDGET_REQUIRED"
    );
    settings.max_added_tracks = Some(3);
    assert_eq!(
        plan_extension(&settings).unwrap_err().code,
        "AUTOMATIC_TRIGGER_REQUIRED"
    );
    settings.trigger_percentile = Some(UNIT as i64 / 2);
    assert_eq!(
        plan_extension(&settings).unwrap(),
        ExtensionPlan::Automatic {
            max_added_tracks: 3,
            trigger_percentile: UNIT as i64 / 2
        }
    );
    let mut exact = bridging("exact_count").extension;
    assert_eq!(
        plan_extension(&exact).unwrap_err().code,
        "EXACT_COUNT_REQUIRED"
    );
    exact.additional_track_count = Some(2);
    assert_eq!(
        plan_extension(&exact).unwrap(),
        ExtensionPlan::Exact {
            requested_added_tracks: 2
        }
    );
    assert_eq!(
        plan_extension(&bridging("seed_growth").extension).unwrap(),
        ExtensionPlan::SeedGrowth
    );
}

#[test]
fn validated_requests_are_summed_up() {
    let digests = || Digests {
        request: "r".to_owned(),
        database: "d".to_owned(),
        learned_matrix: Some("m".to_owned()),
        local_candidate_inventory: None,
        semantic_evidence: "s".to_owned(),
    };
    let rows = HashSet::from([10, 11]);
    let summary = summarize(&request(), "TracksV2", digests(), Some(&rows));
    assert_eq!(summary.job_id, "job");
    assert_eq!(summary.database_schema, "TracksV2");
    assert_eq!(summary.digests, digests());
    assert_eq!(summary.local_candidate_track_count, Some(2));
    assert_eq!(summary.source_track_count, 2);
    let spoilt = EvidenceBundle {
        schema_version: 2,
        frozen_at: String::new(),
        providers: Vec::new(),
        edges: Vec::new(),
    };
    assert_eq!(
        check_bundle(&spoilt).unwrap_err().code,
        "SEMANTIC_EVIDENCE_INVALID"
    );
}

#[test]
fn scores_name_the_tracks_of_each_leg() {
    let sources = [
        source("one", "a.flac"),
        source("two", "b.flac"),
        source("three", "c.flac"),
    ];
    let leg = |position: usize, seed_start: usize, distance: u64| ScoredLeg {
        position,
        seed_start,
        algorithm: "adaptive".to_owned(),
        distance,
    };
    let report = report_scores(&[leg(1, 0, 3), leg(2, 1, 5)], &sources);
    assert_eq!(report.source_track_ids, vec!["one", "two", "three"]);
    assert_eq!(report.legs[0].seed_track_ids, vec!["one"]);
    assert_eq!(report.legs[0].candidate_track_id, "two");
    assert_eq!(report.legs[1].seed_track_ids, vec!["two"]);
    assert_eq!(report.legs[1].candidate_track_id, "three");
    assert_eq!(report.transition_sum, 8);
    assert_eq!(report.worst_transition, 5);
    assert_eq!(report.objective, 18);
    assert!(are_different(&["a".to_owned(), "b".to_owned()]));
    assert!(!are_different(&["a".to_owned(), "a".to_owned()]));
}

#[test]
fn weights_serve_where_no_matrix_is_learned() {
    let mut weighted = request();
    weighted.artifacts.learned_matrix = None;
    weighted.scoring.feature_weights = Some(vec![UNIT as i64; 23]);
    assert!(check_score_request(&weighted).is_ok());
    assert!(check_route_request(&weighted).is_ok());
    weighted.scoring.feature_weights = Some(vec![UNIT as i64; 22]);
    assert_eq!(
        check_score_request(&weighted).unwrap_err().code,
        "INVALID_REQUEST"
    );

    let mut fixed = request();
    fixed.scoring.algorithm = "static".to_owned();
    fixed.scoring.adaptive = None;
    assert_eq!(
        check_score_request(&fixed).unwrap_err().code,
        "FEATURE_WEIGHTS_REQUIRED"
    );
    fixed.scoring.feature_weights = Some(vec![UNIT as i64; 23]);
    let settings = check_score_request(&fixed).unwrap();
    assert_eq!((settings.seed_limit, settings.learned_percent), (1, 0));
    assert!(check_measures(&fixed.scoring, false).is_ok());
}

#[test]
fn windows_decide_what_they_are_measured_by() {
    assert_eq!(choose_measure("static", true, 5), Measure::FeatureWeights);
    assert_eq!(choose_measure("adaptive", true, 1), Measure::LearnedMatrix);
    assert_eq!(choose_measure("adaptive", true, 2), Measure::Blend);
    assert_eq!(choose_measure("adaptive", false, 1), Measure::FeatureWeights);
    assert_eq!(choose_measure("adaptive", false, 2), Measure::Variance);
}

fn destined() -> Request {
    let mut request = bridging("destination_route");
    request.route.ordering_policy = "queue_destination".to_owned();
    request.route.start_track_id = Some("one".to_owned());
    request.route.destination_track_id = Some("two".to_owned());
    request.extension.destination_mode = Some("automatic".to_owned());
    request.extension.max_added_tracks = Some(8);
    request.extension.trigger_percentile = Some(UNIT as i64 / 2);
    request
}

#[test]
fn destinations_are_locked_at_the_end_of_the_playlist() {
    assert!(check_bridge_request(&destined()).is_ok());
    let refused = |spoil: fn(&mut Request)| {
        let mut request = destined();
        spoil(&mut request);
        check_bridge_request(&request).unwrap_err().code
    };
    assert_eq!(
        refused(|request| request.route.start_track_id = None),
        "DESTINATION_LOCKS_REQUIRED"
    );
    assert_eq!(
        refused(|request| request.route.destination_track_id = Some("one".to_owned())),
        "DESTINATION_LOCK_MISMATCH"
    );
    assert_eq!(
        refused(|request| request.route.ordering_policy = "preserve_order".to_owned()),
        "DESTINATION_POLICY_MISMATCH"
    );
    assert_eq!(
        refused(|request| request.extension.mode = "automatic".to_owned()),
        "ROUTE_LOCK_UNSUPPORTED"
    );
    let mut plain = bridging("automatic");
    plain.extension.search_effort = Some("fast".to_owned());
    assert_eq!(
        check_bridge_request(&plain).unwrap_err().code,
        "DESTINATION_SETTINGS_UNSUPPORTED"
    );
}

#[test]
fn destination_plans_are_bounded() {
    assert_eq!(
        plan_extension(&destined().extension),
        Ok(ExtensionPlan::Destination {
            goal: DestinationGoal::Automatic {
                min_added_tracks: 0,
                max_added_tracks: 8,
                trigger_percentile: UNIT as i64 / 2,
            },
            effort: SearchEffort::Balanced,
        })
    );
    let refused = |spoil: fn(&mut Request)| {
        let mut request = destined();
        spoil(&mut request);
        plan_extension(&request.extension).unwrap_err().code
    };
    assert_eq!(
        refused(|request| request.extension.destination_mode = None),
        "DESTINATION_MODE_REQUIRED"
    );
    assert_eq!(
        refused(|request| request.extension.destination_mode = Some("near".to_owned())),
        "DESTINATION_MODE_UNSUPPORTED"
    );
    assert_eq!(
        refused(|request| request.extension.max_added_tracks = None),
        "AUTOMATIC_BRIDGE_BUDGET_REQUIRED"
    );
    assert_eq!(
        refused(|request| request.extension.max_added_tracks = Some(9)),
        "DESTINATION_BUDGET_EXCEEDED"
    );
    assert_eq!(
        refused(|request| {
            request.extension.max_added_tracks = Some(2);
            request.extension.min_added_tracks = Some(3);
        }),
        "DESTINATION_BOUNDS_INVALID"
    );
    assert_eq!(
        refused(|request| request.extension.trigger_percentile = None),
        "AUTOMATIC_TRIGGER_REQUIRED"
    );
    assert_eq!(
        refused(|request| request.extension.search_effort = Some("slow".to_owned())),
        "SEARCH_EFFORT_UNSUPPORTED"
    );
    assert_eq!(
        refused(|request| request.extension.destination_mode = Some("exact".to_owned())),
        "EXACT_COUNT_REQUIRED"
    );
    let mut exact = destined();
    exact.extension.destination_mode = Some("exact".to_owned());
    exact.extension.additional_track_count = Some(3);
    exact.extension.search_effort = Some("thorough".to_owned());
    assert_eq!(
        plan_extension(&exact.extension),
        Ok(ExtensionPlan::Destination {
            goal: DestinationGoal::Exact { added_tracks: 3 },
            effort: SearchEffort::Thorough,
        })
    );
}

#[test]
fn efforts_bound_the_search() {
    let bounds = |effort: SearchEffort| {
        let SearchBreadth {
            pool_limit,
            shortlist_limit,
            expansion_limit,
            beam_width,
        } = search_breadth(effort);
        (pool_limit, shortlist_limit, expansion_limit, beam_width)
    };
    assert_eq!(bounds(SearchEffort::Fast), (65_536, 128, 6, 32));
    assert_eq!(bounds(SearchEffort::Balanced), (131_072, 256, 8, 64));
    assert_eq!(bounds(SearchEffort::Thorough), (262_144, 512, 16, 192));
}
