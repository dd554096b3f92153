//! Bridges over single gaps and tracks at the ends of a route.

use bliss_playlist_optimizer::bridge::{
    build_frozen_reference, evaluate_candidate, evaluate_candidate_in_context,
    evaluate_endpoint_candidate, evaluate_gap, gap_context_matrix, rank_candidates,
    rank_endpoint_candidates, shortlist_candidates, BridgeConfig, BridgeError,
    CandidateScoringContext, EndpointSlot, FrozenReference, GapContextMode,
    ShortlistScoringContext, DEFAULT_MAX_DETOUR_PERCENTILE, DEFAULT_MAX_LEG_PERCENTILE,
};
use bliss_playlist_optimizer::contextual::{
    adaptive_distance_from_seeds, adaptive_distance_with_matrix, prepare_adaptive_context,
    scorer_at, AdaptiveScorer, ContextualError,
};
use bliss_playlist_optimizer::route::RouteTrack;
use bliss_playlist_optimizer::units::UNIT;

/// An acoustic engine with the identity as its learned matrix.
struct Engine {
    features: Vec<[f32; 23]>,
}

impl Engine {
    fn weights(&self, seeds: &[usize], percent: u16) -> [f64; 23] {
        if seeds.len() < 2 {
            return [1.0; 23];
        }
        let mean = self.mean(seeds);
        let mut spread = [0.0_f64; 23];
        for seed in seeds {
            for (index, value) in self.features[*seed].iter().enumerate() {
                spread[index] += (f64::from(*value) - mean[index]).powi(2);
            }
        }
        let mut inverse = [0.0_f64; 23];
        for (index, value) in spread.iter().enumerate() {
            inverse[index] = 1.0 / (value / seeds.len() as f64 + 1e-6);
        }
        let scale = 23.0 / inverse.iter().sum::<f64>();
        let learned = f64::from(percent) / 100.0;
        std::array::from_fn(|index| learned + (1.0 - learned) * inverse[index] * scale)
    }

    fn mean(&self, seeds: &[usize]) -> [f64; 23] {
        std::array::from_fn(|index| {
            seeds
                .iter()
                .map(|seed| f64::from(self.features[*seed][index]))
                .sum::<f64>()
                / seeds.len() as f64
        })
    }

    fn distance(&self, matrix: &[usize], percent: u16, seeds: &[usize], candidate: usize) -> u64 {
        let weights = self.weights(matrix, percent);
        let mean = self.mean(seeds);
        let total: f64 = (0..23)
            .map(|index| {
                let apart = f64::from(self.features[candidate][index]) - mean[index];
                weights[index] * apart * apart
            })
            .sum();
        (total.sqrt() * UNIT as f64).round() as u64
    }
}

fn scorer(
    engine: &Engine,
) -> AdaptiveScorer<
    impl Fn(&[usize], u16) -> Result<(), ContextualError> + Copy + '_,
    impl Fn(&[usize], u16, &[usize], usize) -> u64 + Copy + '_,
> {
    AdaptiveScorer::new(
        |_: &[usize], percent: u16| {
            if percent > 100 {
                Err(ContextualError::InvalidLearnedPercent(percent))
            } else {
                Ok(())
            }
        },
        move |matrix: &[usize], percent: u16, seeds: &[usize], candidate: usize| {
            engine.distance(matrix, percent, seeds, candidate)
        },
    )
}

fn ranked(value: f32) -> i32 {
    let bits = value.to_bits() as i32;
    if bits < 0 {
        bits ^ i32::MAX
    } else {
        bits
    }
}

fn features(value: f32) -> [f32; 23] {
    std::array::from_fn(|index| value + index as f32 / 100.0)
}

fn track(features: &[f32; 23], artist: &str, album: &str) -> RouteTrack {
    RouteTrack {
        features: std::array::from_fn(|index| ranked(features[index])),
        artist_key: artist.to_owned(),
        album_key: album.to_owned(),
    }
}

fn corpus(rows: &[(f32, &str, &str)]) -> (Engine, Vec<RouteTrack>) {
    let engine = Engine {
        features: rows.iter().map(|row| features(row.0)).collect(),
    };
    let tracks = rows
        .iter()
        .zip(engine.features.iter())
        .map(|(row, features)| track(features, row.1, row.2))
        .collect();
    (engine, tracks)
}

fn config() -> BridgeConfig {
    BridgeConfig {
        seed_limit: 2,
        learned_percent: 20,
        artist_window: 1,
        album_window: 1,
        max_leg_percentile: DEFAULT_MAX_LEG_PERCENTILE,
        max_detour_percentile: DEFAULT_MAX_DETOUR_PERCENTILE,
        gap_context_mode: GapContextMode::Rolling,
    }
}

fn library() -> (Engine, Vec<RouteTrack>) {
    corpus(&[
        (0.0, "a", "album-a"),
        (1.0, "b", "album-b"),
        (2.0, "c", "album-c"),
        (1.2, "a", "album-d"),
        (4.0, "e", "album-e"),
        (9.0, "f", "album-f"),
    ])
}

fn workers(count: usize) -> rayon::ThreadPool {
    rayon::ThreadPoolBuilder::new()
        .num_threads(count)
        .build()
        .unwrap()
}

#[test]
fn frozen_reference_and_two_sided_scoring_match_the_bridge_contract() {
    let (engine, tracks) = library();
    let scorer = scorer(&engine);
    let route = [0, 2, 4];
    let reference = build_frozen_reference(&route, &route, &tracks, &scorer, &config()).unwrap();
    assert_eq!(reference.len(), 3);

    let direct = evaluate_gap(&route, 1, &tracks, &scorer, &config(), &reference).unwrap();
    let bridge = evaluate_candidate(&route, 1, 1, &tracks, &scorer, &config(), &reference).unwrap();
    assert!(bridge.accepted);
    assert_ne!(bridge.right_distance, direct.direct_distance);

    let repeated =
        evaluate_candidate(&route, 1, 3, &tracks, &scorer, &config(), &reference).unwrap();
    assert!(!repeated.repeat_safe);
    assert!(!repeated.accepted);

    let existing =
        evaluate_candidate(&route, 1, 0, &tracks, &scorer, &config(), &reference).unwrap();
    assert!(!existing.repeat_safe);
}

#[test]
fn frozen_gap_context_reuses_one_matrix_while_the_rolling_mode_reselects_it() {
    let (mut engine, tracks) = library();
    engine.features[0] = std::array::from_fn(|index| if index % 2 == 0 { 0.2 } else { 2.0 });
    engine.features[2] = std::array::from_fn(|index| if index % 3 == 0 { 3.0 } else { 0.4 });
    engine.features[1] = std::array::from_fn(|index| if index % 5 == 0 { 1.5 } else { 4.0 });
    engine.features[4] = std::array::from_fn(|index| index as f32 / 7.0);
    let scorer = scorer(&engine);
    let route = [0, 2, 4];
    let reference = FrozenReference::from_distances(vec![0, 100 * UNIT]).unwrap();
    let rolling_config = BridgeConfig {
        seed_limit: 3,
        learned_percent: 20,
        artist_window: 0,
        album_window: 0,
        max_leg_percentile: UNIT,
        max_detour_percentile: 2 * UNIT,
        gap_context_mode: GapContextMode::Rolling,
    };
    let frozen_config = BridgeConfig {
        gap_context_mode: GapContextMode::Frozen,
        ..rolling_config
    };
    let frozen_matrix = gap_context_matrix(&route, 2, &tracks, &scorer, &frozen_config)
        .unwrap()
        .unwrap();

    let rolling = evaluate_candidate_in_context(
        &route,
        2,
        1,
        &tracks,
        &CandidateScoringContext {
            scorer: &scorer,
            config: &rolling_config,
            reference: &reference,
            frozen_matrix: None,
        },
    )
    .unwrap();
    let frozen = evaluate_candidate_in_context(
        &route,
        2,
        1,
        &tracks,
        &CandidateScoringContext {
            scorer: &scorer,
            config: &frozen_config,
            reference: &reference,
            frozen_matrix: Some(&frozen_matrix),
        },
    )
    .unwrap();

    let close = UNIT / 1_000_000;
    assert!(rolling.left_distance.abs_diff(frozen.left_distance) < close);
    assert!(rolling.right_distance.abs_diff(frozen.right_distance) > close);
    assert!(
        gap_context_matrix(&route, 2, &tracks, &scorer, &rolling_config)
            .unwrap()
            .is_none()
    );
}

#[test]
fn destination_candidate_cannot_use_explicit_destination_repeat_exemption() {
    let (engine, tracks) = corpus(&[
        (0.0, "same-artist", "source-album"),
        (2.0, "same-artist", "destination-album"),
        (1.0, "other-artist", "bridge-album"),
        (1.1, "same-artist", "other-album"),
        (1.2, "album-conflict-artist", "destination-album"),
    ]);
    let scorer = scorer(&engine);
    let route = [0, 1];
    let config = BridgeConfig {
        seed_limit: 1,
        learned_percent: 20,
        artist_window: 5,
        album_window: 5,
        max_leg_percentile: UNIT,
        max_detour_percentile: 2 * UNIT,
        gap_context_mode: GapContextMode::Rolling,
    };
    let reference =
        build_frozen_reference(&route, &[0, 1, 2, 3, 4], &tracks, &scorer, &config).unwrap();

    let permitted =
        evaluate_candidate(&route, 1, 2, &tracks, &scorer, &config, &reference).unwrap();
    assert!(permitted.repeat_safe);

    let conflicts_with_destination =
        evaluate_candidate(&route, 1, 3, &tracks, &scorer, &config, &reference).unwrap();
    assert!(!conflicts_with_destination.repeat_safe);
    assert!(!conflicts_with_destination.accepted);
    let conflicts_with_destination_album =
        evaluate_candidate(&route, 1, 4, &tracks, &scorer, &config, &reference).unwrap();
    assert!(!conflicts_with_destination_album.repeat_safe);
    assert!(!conflicts_with_destination_album.accepted);
}

#[test]
fn candidate_ranking_is_identical_with_one_and_four_workers() {
    let (engine, tracks) = library();
    let scorer = scorer(&engine);
    let route = [0, 2, 4];
    let reference = build_frozen_reference(&route, &route, &tracks, &scorer, &config()).unwrap();
    let candidates = [5, 3, 1, 0];
    let rank = || {
        rank_candidates(
            &route,
            1,
            &candidates,
            &tracks,
            &scorer,
            &config(),
            &reference,
        )
    };
    let one = workers(1).install(rank).unwrap();
    let four = workers(4).install(rank).unwrap();
    assert_eq!(one, four);
    assert_eq!(one[0].candidate, 1);
    assert!(one[0].accepted);
}

#[test]
fn acoustic_shortlist_is_worker_deterministic_and_retains_the_strict_winner() {
    let (engine, tracks) = library();
    let scorer = scorer(&engine);
    let route = [0, 2, 4];
    let reference = build_frozen_reference(&route, &route, &tracks, &scorer, &config()).unwrap();
    let candidates = [5, 3, 1];
    let exhaustive = rank_candidates(
        &route,
        1,
        &candidates,
        &tracks,
        &scorer,
        &config(),
        &reference,
    )
    .unwrap();
    let shortlist = || {
        shortlist_candidates(
            &route,
            1,
            &candidates,
            2,
            ShortlistScoringContext {
                tracks: &tracks,
                scorer: &scorer,
                config: &config(),
                reference: &reference,
            },
        )
    };
    let one = workers(1).install(shortlist).unwrap();
    let four = workers(4).install(shortlist).unwrap();
    assert_eq!(one, four);
    assert!(one.contains(&exhaustive[0].candidate));
}

#[test]
fn acoustic_shortlist_has_high_strict_winner_recall_on_contextual_corpus() {
    let engine = Engine {
        features: (0..768)
            .map(|track_index| {
                std::array::from_fn(|feature_index| {
                    let x = track_index as f32 * 0.017 + feature_index as f32 * 0.113;
                    x.sin() + (x * 0.37).cos() * 0.4 + track_index as f32 / 4096.0
                })
            })
            .collect(),
    };
    let tracks = engine
        .features
        .iter()
        .enumerate()
        .map(|(index, features)| {
            track(
                features,
                &format!("artist-{index}"),
                &format!("album-{index}"),
            )
        })
        .collect::<Vec<_>>();
    let scorer = scorer(&engine);
    let config = BridgeConfig {
        seed_limit: 3,
        learned_percent: 20,
        artist_window: 0,
        album_window: 0,
        max_leg_percentile: UNIT,
        max_detour_percentile: 2 * UNIT,
        gap_context_mode: GapContextMode::Rolling,
    };
    let candidates = (64..tracks.len()).collect::<Vec<_>>();
    let mut retained = 0usize;
    let trials = 16usize;
    for trial in 0..trials {
        let base = trial * 3;
        let route = [base, base + 7, base + 19, base + 31];
        let position = 1 + trial % 3;
        let reference = build_frozen_reference(&route, &route, &tracks, &scorer, &config).unwrap();
        let strict = rank_candidates(
            &route,
            position,
            &candidates,
            &tracks,
            &scorer,
            &config,
            &reference,
        )
        .unwrap();
        let shortlist = shortlist_candidates(
            &route,
            position,
            &candidates,
            128,
            ShortlistScoringContext {
                tracks: &tracks,
                scorer: &scorer,
                config: &config,
                reference: &reference,
            },
        )
        .unwrap();
        retained += usize::from(shortlist.contains(&strict[0].candidate));
    }
    assert!(
        retained >= 15,
        "strict winner retained in {retained} of {trials} trials"
    );
}

#[test]
fn endpoint_scoring_is_one_sided_repeat_safe_and_worker_deterministic() {
    let (engine, tracks) = library();
    let scorer = scorer(&engine);
    let route = [0, 2, 4];
    let reference = build_frozen_reference(&route, &route, &tracks, &scorer, &config()).unwrap();
    let candidates = [5, 3, 1, 0];

    let opening = evaluate_endpoint_candidate(
        &route,
        EndpointSlot::Opening,
        1,
        &tracks,
        &scorer,
        &config(),
        &reference,
    )
    .unwrap();
    let closing = evaluate_endpoint_candidate(
        &route,
        EndpointSlot::Closing,
        1,
        &tracks,
        &scorer,
        &config(),
        &reference,
    )
    .unwrap();
    assert!(opening.accepted);
    assert!(closing.accepted);
    assert_ne!(opening.distance, closing.distance);

    let existing = evaluate_endpoint_candidate(
        &route,
        EndpointSlot::Opening,
        0,
        &tracks,
        &scorer,
        &config(),
        &reference,
    )
    .unwrap();
    assert!(!existing.repeat_safe);
    assert!(!existing.accepted);

    let rank = || {
        rank_endpoint_candidates(
            &route,
            EndpointSlot::Opening,
            &candidates,
            &tracks,
            &scorer,
            &config(),
            &reference,
        )
    };
    let one = workers(1).install(rank).unwrap();
    let four = workers(4).install(rank).unwrap();
    assert_eq!(one, four);
}

#[test]
fn invalid_public_indexes_fail_without_panicking() {
    let (engine, tracks) = library();
    assert_eq!(
        evaluate_gap(
            &[0, 99],
            1,
            &tracks,
            &scorer(&engine),
            &config(),
            &FrozenReference::from_distances(vec![UNIT]).unwrap(),
        ),
        Err(BridgeError::InvalidTrackIndex(99))
    );
}

#[test]
fn percentiles_count_the_distances_below() {
    let reference = FrozenReference::from_distances(vec![40, 10, 30, 20, 50]).unwrap();
    assert_eq!(reference.len(), 5);
    assert!(!reference.is_empty());
    assert_eq!(reference.percentile(10), Ok(0));
    assert_eq!(reference.percentile(30), Ok(UNIT / 2));
    assert_eq!(reference.percentile(50), Ok(UNIT));
    assert!(reference.percentile(20).unwrap() <= reference.percentile(40).unwrap());
    assert_eq!(
        FrozenReference::from_distances(Vec::new()),
        Err(BridgeError::EmptyReference)
    );
}

#[test]
fn gaps_outside_the_route_and_empty_routes_are_refused() {
    let (engine, tracks) = library();
    let scorer = scorer(&engine);
    let reference = FrozenReference::from_distances(vec![UNIT]).unwrap();
    for position in [0, 3] {
        assert_eq!(
            evaluate_gap(&[0, 2, 4], position, &tracks, &scorer, &config(), &reference),
            Err(BridgeError::InvalidGap)
        );
    }
    assert_eq!(
        build_frozen_reference(&[0], &[0], &tracks, &scorer, &config()),
        Err(BridgeError::EmptyReference)
    );
    let spoilt = BridgeConfig {
        learned_percent: 101,
        ..config()
    };
    assert_eq!(
        evaluate_gap(&[0, 2], 1, &tracks, &scorer, &spoilt, &reference),
        Err(BridgeError::Scoring(
            ContextualError::InvalidLearnedPercent(101)
        ))
    );
    assert_eq!(
        BridgeError::Scoring(ContextualError::InvalidLearnedPercent(101)).message(),
        "adaptive bridge scoring failed: learned matrix percentage 101 is outside 0..=100"
    );
    assert_eq!(
        BridgeError::InvalidTrackIndex(99).message(),
        "invalid track index 99"
    );
}

#[test]
fn a_prepared_context_measures_as_its_seeds_do() {
    let (engine, _) = library();
    let scorer = scorer(&engine);
    let context = prepare_adaptive_context(&[0, 2], &scorer, 20).unwrap();
    let direct = adaptive_distance_from_seeds(&[0, 2], 4, &scorer, 20).unwrap();
    assert_eq!(context.distance_to(4, &scorer), direct);
    assert_eq!(
        adaptive_distance_with_matrix(&[0, 2], 4, &scorer, context.matrix()),
        Ok(direct)
    );
    assert_eq!(
        adaptive_distance_from_seeds(&[], 4, &scorer, 20),
        Err(ContextualError::EmptySeeds)
    );
    assert_eq!(
        ContextualError::EmptySeeds.message(),
        "adaptive scoring requires at least one seed"
    );
    assert_eq!(
        ContextualError::MatrixUnavailable.message(),
        "no adaptive matrix was selected for the seed context"
    );
}

#[test]
fn a_scorer_for_some_tracks_measures_them_in_the_engine() {
    let (engine, _) = library();
    let whole = scorer(&engine);
    let part = scorer_at(&whole, vec![4, 2, 0]);
    assert_eq!(
        adaptive_distance_from_seeds(&[0, 1], 2, &part, 20),
        adaptive_distance_from_seeds(&[4, 2], 0, &whole, 20)
    );
}
