//! Ordering fixed sets of tracks and growing them.

use std::collections::HashSet;

use bliss_playlist_optimizer::contextual::{AdaptiveScorer, ContextualError};
use bliss_playlist_optimizer::route::{
    arc_targets, evaluate_adaptive_sequence, intensity_values, optimize_adaptive_route,
    repeat_violations, RouteError, RouteTrack, SearchConfig,
};
use bliss_playlist_optimizer::seed_growth::{select_seed_growth, Preference};
use bliss_playlist_optimizer::units::{EPSILON, UNIT};

/// An acoustic engine with the identity as its learned matrix.
struct Engine {
    features: Vec<[f32; 23]>,
}

impl Engine {
    fn weights(&self, seeds: &[usize], percent: u16) -> [f64; 23] {
        if seeds.len() < 2 {
            return [1.0; 23];
        }
        let mean = self.mean(seeds);
        let mut spread = [0.0_f64; 23];
        for seed in seeds {
            for (index, value) in self.features[*seed].iter().enumerate() {
                spread[index] += (f64::from(*value) - mean[index]).powi(2);
            }
        }
        let mut inverse = [0.0_f64; 23];
        for (index, value) in spread.iter().enumerate() {
            inverse[index] = 1.0 / (value / seeds.len() as f64 + 1e-6);
        }
        let scale = 23.0 / inverse.iter().sum::<f64>();
        let learned = f64::from(percent) / 100.0;
        std::array::from_fn(|index| learned + (1.0 - learned) * inverse[index] * scale)
    }

    fn mean(&self, seeds: &[usize]) -> [f64; 23] {
        std::array::from_fn(|index| {
            seeds
                .iter()
                .map(|seed| f64::from(self.features[*seed][index]))
                .sum::<f64>()
                / seeds.len() as f64
        })
    }

    fn distance(&self, matrix: &[usize], percent: u16, seeds: &[usize], candidate: usize) -> u64 {
        let weights = self.weights(matrix, percent);
        let mean = self.mean(seeds);
        let total: f64 = (0..23)
            .map(|index| {
                let apart = f64::from(self.features[candidate][index]) - mean[index];
                weights[index] * apart * apart
            })
            .sum();
        (total.sqrt() * UNIT as f64).round() as u64
    }
}

fn scorer(
    engine: &Engine,
) -> AdaptiveScorer<
    impl Fn(&[usize], u16) -> Result<(), ContextualError> + Copy + '_,
    impl Fn(&[usize], u16, &[usize], usize) -> u64 + Copy + '_,
> {
    AdaptiveScorer::new(
        |_: &[usize], percent: u16| {
            if percent > 100 {
                Err(ContextualError::InvalidLearnedPercent(percent))
            } else {
                Ok(())
            }
        },
        move |matrix: &[usize], percent: u16, seeds: &[usize], candidate: usize| {
            engine.distance(matrix, percent, seeds, candidate)
        },
    )
}

fn ranked(value: f32) -> i32 {
    let bits = value.to_bits() as i32;
    if bits < 0 {
        bits ^ i32::MAX
    } else {
        bits
    }
}

fn rank_all(features: &[f32; 23]) -> [i32; 23] {
    std::array::from_fn(|index| ranked(features[index]))
}

fn corpus(rows: &[(f32, &str)]) -> (Engine, Vec<RouteTrack>) {
    let engine = Engine {
        features: rows
            .iter()
            .map(|row| std::array::from_fn(|index| row.0 * (index + 1) as f32 / 10.0))
            .collect(),
    };
    let tracks = rows
        .iter()
        .zip(engine.features.iter())
        .map(|(row, features)| RouteTrack {
            features: rank_all(features),
            artist_key: row.1.to_owned(),
            album_key: format!("album-{}", row.0),
        })
        .collect();
    (engine, tracks)
}

fn config() -> SearchConfig {
    SearchConfig {
        seed_limit: 3,
        learned_percent: 20,
        deterministic_seed: 2026,
        restart_count: 8,
        artist_window: 1,
        album_window: 1,
    }
}

fn workers(count: usize) -> rayon::ThreadPool {
    rayon::ThreadPoolBuilder::new()
        .num_threads(count)
        .build()
        .unwrap()
}

#[test]
fn parallel_restarts_are_deterministic_and_preserve_membership() {
    let (engine, tracks) = corpus(&[
        (0.0, "a"),
        (3.0, "b"),
        (1.0, "c"),
        (4.0, "d"),
        (2.0, "e"),
    ]);
    let scorer = scorer(&engine);
    let order = || optimize_adaptive_route(&tracks, &scorer, &config());
    let one_worker = workers(1).install(order).unwrap();
    let four_workers = workers(4).install(order).unwrap();
    assert_eq!(one_worker, four_workers);
    let first = one_worker;
    let mut members = first.selected.route.clone();
    members.sort_unstable();
    assert_eq!(members, (0..tracks.len()).collect::<Vec<_>>());
    assert!(first.violations.is_empty());
}

#[test]
fn reports_infeasible_repeat_windows() {
    let (engine, tracks) = corpus(&[(0.0, "same"), (1.0, "same"), (2.0, "same")]);
    assert_eq!(
        optimize_adaptive_route(&tracks, &scorer(&engine), &config()),
        Err(RouteError::Infeasible)
    );
}

#[test]
fn a_search_reports_both_candidates_and_all_tasks() {
    let (engine, tracks) = corpus(&[(0.0, "a"), (3.0, "b"), (1.0, "c"), (2.0, "d")]);
    let result = optimize_adaptive_route(&tracks, &scorer(&engine), &config()).unwrap();
    assert_eq!(result.search_tasks, 21);
    assert_eq!(result.primary.strategy, "adaptive");
    assert_eq!(result.arc.strategy, "adaptive-arc");
    assert_eq!(
        result.primary.metrics.objective,
        result.primary.metrics.transition_sum
            + 2 * u128::from(result.primary.metrics.worst_transition)
    );
    assert!(result.selected == result.primary || result.selected == result.arc);
    assert!(result.selected.metrics.objective * 100 <= result.primary.metrics.objective * 108);
    assert!(result.selected.metrics.arc_error <= result.primary.metrics.arc_error);
}

#[test]
fn searches_that_cannot_start_say_why() {
    let (engine, tracks) = corpus(&[(0.0, "a"), (1.0, "b")]);
    let scorer = scorer(&engine);
    assert_eq!(
        optimize_adaptive_route(&tracks[..1], &scorer, &config()),
        Err(RouteError::TooFewTracks)
    );
    let none = SearchConfig {
        seed_limit: 0,
        ..config()
    };
    assert_eq!(
        optimize_adaptive_route(&tracks, &scorer, &none),
        Err(RouteError::InvalidSeedLimit)
    );
    let spoilt = SearchConfig {
        learned_percent: 101,
        ..config()
    };
    assert_eq!(
        optimize_adaptive_route(&tracks, &scorer, &spoilt),
        Err(RouteError::InvalidLearnedPercent(101))
    );
    assert_eq!(
        RouteError::InvalidLearnedPercent(101).message(),
        "learned matrix percentage 101 is outside 0..=100"
    );
    assert_eq!(
        evaluate_adaptive_sequence(&[0, 9], &tracks, &scorer, 3, 20),
        Err(RouteError::Scoring(
            "invalid track index 9 for 2 tracks".to_owned()
        ))
    );
}

#[test]
fn a_sequence_is_measured_as_it_stands() {
    let engine = Engine {
        features: vec![[0.0; 23], [1.0; 23], [3.0; 23]],
    };
    let tracks: Vec<RouteTrack> = (0..3)
        .map(|index| RouteTrack {
            features: rank_all(&engine.features[index]),
            artist_key: String::new(),
            album_key: String::new(),
        })
        .collect();
    let metrics = evaluate_adaptive_sequence(&[0, 1, 2], &tracks, &scorer(&engine), 1, 20).unwrap();
    let step = (23.0_f64.sqrt() * UNIT as f64).round() as u64;
    let leap = (2.0 * 23.0_f64.sqrt() * UNIT as f64).round() as u64;
    assert_eq!(metrics.transition_sum, u128::from(step + leap));
    assert_eq!(metrics.worst_transition, leap);
    assert_eq!(metrics.objective, u128::from(step + 3 * leap));
    assert_eq!(metrics.arc_error, 0);
}

#[test]
fn repeats_are_listed_within_their_windows_alone() {
    let (_, tracks) = corpus(&[(0.0, "same"), (1.0, "b"), (2.0, "same")]);
    let wide = SearchConfig {
        artist_window: 2,
        ..config()
    };
    let found = repeat_violations(&[0, 1, 2], &tracks, &wide);
    assert_eq!(found.len(), 1);
    assert_eq!(found[0].kind, "artist");
    assert_eq!(found[0].positions, [0, 2]);
    assert!(repeat_violations(&[0, 1, 2], &tracks, &config()).is_empty());
}

#[test]
fn the_arc_rises_and_falls() {
    let targets = arc_targets(11);
    assert_eq!(targets.len(), 11);
    assert_eq!(targets[0], UNIT / 100 * 25);
    assert_eq!(targets[7], UNIT / 100 * 85);
    assert_eq!(targets[10], UNIT / 100 * 35);
    assert!(targets[..8].windows(2).all(|pair| pair[0] < pair[1]));
    assert!(targets[7..].windows(2).all(|pair| pair[0] > pair[1]));
    let (_, tracks) = corpus(&[(0.0, "a"), (3.0, "b"), (1.0, "c")]);
    let values = intensity_values(&tracks);
    assert!(values[0] < values[2] && values[2] < values[1]);
}

fn growing() -> (Engine, Vec<RouteTrack>, SearchConfig) {
    let engine = Engine {
        features: (0..32)
            .map(|index| {
                std::array::from_fn(|feature| index as f32 / 100.0 + feature as f32 / 1000.0)
            })
            .collect(),
    };
    let tracks = engine
        .features
        .iter()
        .enumerate()
        .map(|(index, features)| RouteTrack {
            features: rank_all(features),
            artist_key: format!("artist-{index}"),
            album_key: format!("album-{index}"),
        })
        .collect();
    let config = SearchConfig {
        seed_limit: 3,
        learned_percent: 20,
        deterministic_seed: 20260721,
        restart_count: 0,
        artist_window: 5,
        album_window: 10,
    };
    (engine, tracks, config)
}

fn preference(variation_percent: u8, generation_seed: u64) -> Preference<'static> {
    Preference {
        variation_percent,
        generation_seed,
        supports: &[],
    }
}

#[test]
fn seed_growth_reaches_exact_target_without_relevance_drift() {
    let (engine, tracks, config) = growing();
    let candidates = (2..tracks.len()).collect::<Vec<_>>();
    let growth = select_seed_growth(
        25,
        &[0, 1],
        &[0, 1],
        &candidates,
        &tracks,
        &scorer(&engine),
        &config,
        &preference(0, 0),
    )
    .unwrap();
    let grown = growth.route;
    assert_eq!(grown.len(), 25);
    assert_eq!(growth.additions.len(), 23);
    assert_eq!(grown.iter().collect::<HashSet<_>>().len(), 25);
    assert_eq!(
        grown
            .iter()
            .filter(|index| **index == 0 || **index == 1)
            .copied()
            .collect::<Vec<_>>(),
        vec![0, 1]
    );
    assert!(repeat_violations(&grown, &tracks, &config).is_empty());
}

#[test]
fn additions_come_by_their_distance_from_the_sources_alone() {
    let (engine, tracks, config) = growing();
    let scorer = scorer(&engine);
    let candidates = [9, 3, 2, 30];
    let preference = preference(0, 7);
    let growth = select_seed_growth(
        5, &[0, 1], &[0, 1], &candidates, &tracks, &scorer, &config, &preference,
    )
    .unwrap();
    let added: Vec<usize> = growth.additions.iter().map(|item| item.candidate).collect();
    assert_eq!(added, vec![2, 3, 9]);
    assert!(growth
        .additions
        .windows(2)
        .all(|pair| pair[0].distance <= pair[1].distance));
    for addition in &growth.additions {
        assert_eq!(
            addition.distance,
            engine.distance(&[0, 1], 20, &[0, 1], addition.candidate)
        );
    }
}

#[test]
fn evidence_moves_additions_a_little() {
    let (engine, tracks, config) = growing();
    let scorer = scorer(&engine);
    let candidates: Vec<usize> = (2..tracks.len()).collect();
    let mut supports = vec![0; tracks.len()];
    let added = |supports: &[u64], variation_percent: u8| {
        let preference = Preference {
            variation_percent,
            generation_seed: 3,
            supports,
        };
        let growth = select_seed_growth(
            4, &[0, 1], &[0, 1], &candidates, &tracks, &scorer, &config, &preference,
        )
        .unwrap();
        let added: Vec<usize> = growth.additions.iter().map(|item| item.candidate).collect();
        added
    };
    let strict = added(&supports, 0);
    assert_eq!(strict.len(), 2);
    let near = candidates
        .iter()
        .copied()
        .find(|candidate| !strict.contains(candidate))
        .unwrap();
    supports[near] = UNIT;
    assert!(added(&supports, 0).contains(&near));
    let far = tracks.len() - 1;
    supports[near] = 0;
    supports[far] = UNIT;
    assert_eq!(added(&supports, 0), strict);
    assert_eq!(added(&supports, 60).len(), 2);
}

#[test]
fn targets_that_cannot_be_reached_are_refused() {
    let (engine, mut tracks, config) = growing();
    let scorer = scorer(&engine);
    let grow = |target: usize, candidates: &[usize], tracks: &[RouteTrack], config: &SearchConfig| {
        let preference = preference(0, 0);
        select_seed_growth(
            target, &[0, 1], &[0, 1], candidates, tracks, &scorer, config, &preference,
        )
    };
    let small = grow(2, &[2, 3], &tracks, &config).unwrap_err();
    assert_eq!(small.code, "SEED_GROWTH_TARGET_INVALID");
    assert_eq!(
        small.message,
        "seed-growth target 2 must exceed the 2 source tracks"
    );
    let few = grow(5, &[2, 3], &tracks, &config).unwrap_err();
    assert_eq!(few.code, "SEED_GROWTH_INFEASIBLE");
    assert_eq!(
        few.message,
        "seed growth needs 3 additions but only 2 local analyzed candidates are eligible"
    );
    let spoilt = SearchConfig {
        learned_percent: 101,
        ..config
    };
    assert_eq!(
        grow(3, &[2], &tracks, &spoilt).unwrap_err().code,
        "SEED_GROWTH_SCORING_FAILED"
    );
    tracks[1].artist_key = "artist-0".to_owned();
    let crowded = grow(3, &[2, 3], &tracks, &config).unwrap_err();
    assert_eq!(crowded.code, "SEED_GROWTH_INFEASIBLE");
    assert_eq!(
        crowded.message,
        "the source membership exceeds the requested target's repeat-window capacity"
    );
    tracks[1].artist_key = "artist-1".to_owned();
    tracks[2].artist_key = "artist-0".to_owned();
    let unfit = grow(3, &[2], &tracks, &config).unwrap_err();
    assert_eq!(
        unfit.message,
        "repeat-safe membership selection found 0 of 1 required additions"
    );
}

fn neighbors(route: &[usize]) -> Vec<Vec<usize>> {
    let mut found = Vec::new();
    for start in 0..route.len() {
        for end in start + 1..route.len() {
            let mut turned = route.to_vec();
            turned[start..=end].reverse();
            found.push(turned);
        }
        for place in 0..route.len() {
            let mut moved = route.to_vec();
            let track = moved.remove(start);
            moved.insert(place, track);
            if moved != route {
                found.push(moved);
            }
        }
    }
    found
}

#[test]
fn no_reversal_or_move_improves_on_a_found_route() {
    let (engine, tracks) = corpus(&[
        (0.0, "a"),
        (3.0, "b"),
        (1.0, "a"),
        (4.0, "c"),
        (2.0, "b"),
        (5.5, "d"),
    ]);
    let config = config();
    let scorer = scorer(&engine);
    let result = optimize_adaptive_route(&tracks, &scorer, &config).unwrap();
    let mut weighed = 0;
    for candidate in neighbors(&result.primary.route) {
        if !repeat_violations(&candidate, &tracks, &config).is_empty() {
            continue;
        }
        let metrics = evaluate_adaptive_sequence(
            &candidate,
            &tracks,
            &scorer,
            config.seed_limit,
            config.learned_percent,
        )
        .unwrap();
        assert!(result.primary.metrics.objective <= metrics.objective + u128::from(EPSILON));
        weighed += 1;
    }
    assert!(weighed > 0);
}

#[test]
fn both_candidates_of_a_search_keep_the_windows() {
    let (engine, tracks) = corpus(&[
        (0.0, "a"),
        (0.5, "a"),
        (4.0, "b"),
        (4.5, "b"),
        (8.0, "c"),
    ]);
    let result = optimize_adaptive_route(&tracks, &scorer(&engine), &config()).unwrap();
    for route in [&result.primary.route, &result.arc.route, &result.selected.route] {
        assert_eq!(route.len(), 5);
        assert!(repeat_violations(route, &tracks, &config()).is_empty());
    }
    assert!(!repeat_violations(&[0, 1, 2, 3, 4], &tracks, &config()).is_empty());
}
