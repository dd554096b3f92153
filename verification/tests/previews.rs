//! Selections of bridges for whole playlists.

use bliss_playlist_optimizer::bridge::{
    build_frozen_reference, evaluate_candidate, BridgeConfig, BridgeError, EndpointSlot,
    FrozenReference, GapContextMode,
};
use bliss_playlist_optimizer::contextual::{AdaptiveScorer, ContextualError};
use bliss_playlist_optimizer::exact_endpoints::{
    select_exact_count_bridges_with_endpoints, ExactEndpointSlot, ExactEndpointSlots,
};
use bliss_playlist_optimizer::exact_multi::select_exact_count_bridges;
use bliss_playlist_optimizer::preview::{
    select_automatic_bridges, AutomaticGap, AutomaticSelectionConfig, DecisionReason,
    ExactScoringContext, ExactSelectionConfig, Guidance, PreviewError,
};
use bliss_playlist_optimizer::route::RouteTrack;
use bliss_playlist_optimizer::semantic::{
    CandidateSemantics, GapEvidence, SemanticPool, SemanticTier,
};
use bliss_playlist_optimizer::units::UNIT;
use bliss_playlist_optimizer::variation::{variation_key, varied_pool_length};

/// An acoustic engine with the identity as its learned matrix.
struct Engine {
    features: Vec<[f32; 23]>,
}

impl Engine {
    fn weights(&self, seeds: &[usize], percent: u16) -> [f64; 23] {
        if seeds.len() < 2 {
            return [1.0; 23];
        }
        let mean = self.mean(seeds);
        let mut spread = [0.0_f64; 23];
        for seed in seeds {
            for (index, value) in self.features[*seed].iter().enumerate() {
                spread[index] += (f64::from(*value) - mean[index]).powi(2);
            }
        }
        let mut inverse = [0.0_f64; 23];
        for (index, value) in spread.iter().enumerate() {
            inverse[index] = 1.0 / (value / seeds.len() as f64 + 1e-6);
        }
        let scale = 23.0 / inverse.iter().sum::<f64>();
        let learned = f64::from(percent) / 100.0;
        std::array::from_fn(|index| learned + (1.0 - learned) * inverse[index] * scale)
    }

    fn mean(&self, seeds: &[usize]) -> [f64; 23] {
        std::array::from_fn(|index| {
            seeds
                .iter()
                .map(|seed| f64::from(self.features[*seed][index]))
                .sum::<f64>()
                / seeds.len() as f64
        })
    }

    fn distance(&self, matrix: &[usize], percent: u16, seeds: &[usize], candidate: usize) -> u64 {
        let weights = self.weights(matrix, percent);
        let mean = self.mean(seeds);
        let total: f64 = (0..23)
            .map(|index| {
                let apart = f64::from(self.features[candidate][index]) - mean[index];
                weights[index] * apart * apart
            })
            .sum();
        (total.sqrt() * UNIT as f64).round() as u64
    }
}

fn scorer(
    engine: &Engine,
) -> AdaptiveScorer<
    impl Fn(&[usize], u16) -> Result<(), ContextualError> + Copy + '_,
    impl Fn(&[usize], u16, &[usize], usize) -> u64 + Copy + '_,
> {
    AdaptiveScorer::new(
        |_: &[usize], percent: u16| {
            if percent > 100 {
                Err(ContextualError::InvalidLearnedPercent(percent))
            } else {
                Ok(())
            }
        },
        move |matrix: &[usize], percent: u16, seeds: &[usize], candidate: usize| {
            engine.distance(matrix, percent, seeds, candidate)
        },
    )
}

fn ranked(value: f32) -> i32 {
    let bits = value.to_bits() as i32;
    if bits < 0 {
        bits ^ i32::MAX
    } else {
        bits
    }
}

fn features(value: f32) -> [f32; 23] {
    std::array::from_fn(|index| value + index as f32 / 100.0)
}

fn track(features: &[f32; 23], artist: &str, album: &str) -> RouteTrack {
    RouteTrack {
        features: std::array::from_fn(|index| ranked(features[index])),
        artist_key: artist.to_owned(),
        album_key: album.to_owned(),
    }
}

fn corpus(rows: &[(f32, &str)]) -> (Engine, Vec<RouteTrack>) {
    let engine = Engine {
        features: rows.iter().map(|row| features(row.0)).collect(),
    };
    let tracks = rows
        .iter()
        .zip(engine.features.iter())
        .map(|(row, features)| track(features, row.1, &format!("album-{}", row.1)))
        .collect();
    (engine, tracks)
}

fn workers(count: usize) -> rayon::ThreadPool {
    rayon::ThreadPoolBuilder::new()
        .num_threads(count)
        .build()
        .unwrap()
}

fn semantics(candidate: usize) -> CandidateSemantics {
    CandidateSemantics {
        candidate,
        tier: SemanticTier::BlissOnly,
        evidence: Vec::new(),
    }
}

fn gap(position: usize, left: usize, right: usize, candidates: &[usize]) -> AutomaticGap {
    AutomaticGap {
        original_position: position,
        left,
        right,
        direct_distance: 10 * UNIT,
        direct_percentile: UNIT,
        semantics: GapEvidence {
            pool: SemanticPool::BlissOnly,
            candidates: candidates.iter().copied().map(semantics).collect(),
        },
    }
}

fn bridging(seed_limit: usize, max_leg_percentile: u64, max_detour_percentile: u64) -> BridgeConfig {
    BridgeConfig {
        seed_limit,
        learned_percent: 20,
        artist_window: 1,
        album_window: 1,
        max_leg_percentile,
        max_detour_percentile,
        gap_context_mode: GapContextMode::Rolling,
    }
}

fn automatic(max_added_tracks: usize) -> AutomaticSelectionConfig {
    AutomaticSelectionConfig {
        max_added_tracks,
        trigger_percentile: UNIT as i64 / 100 * 70,
        track_guidance_percent: 0,
        artist_guidance_percent: 0,
        variation_percent: 0,
        generation_seed: 20_260_721,
    }
}

fn exact(requested_added_tracks: usize, max_tracks_per_gap: usize) -> ExactSelectionConfig {
    ExactSelectionConfig {
        requested_added_tracks,
        candidate_limit: 2,
        beam_width: 16,
        max_tracks_per_gap,
        track_guidance_percent: 0,
        artist_guidance_percent: 0,
        variation_percent: 0,
        generation_seed: 20_260_721,
    }
}

#[test]
fn bounded_variation_is_reproducible_and_seeded() {
    let strict = Guidance::default();
    let low = Guidance {
        variation_percent: 1,
        seed: 101,
        minimum_pool: 9,
        ..strict
    };
    let full = Guidance {
        variation_percent: 100,
        seed: 101,
        minimum_pool: 9,
        ..strict
    };
    let pool = |accepted: usize, variation: Guidance| {
        varied_pool_length(
            accepted,
            variation.variation_percent,
            variation.minimum_pool,
        )
    };
    assert_eq!(pool(0, full), 0);
    assert_eq!(pool(20, strict), 1);
    assert_eq!(pool(20, low), 9);
    assert_eq!(pool(20, full), 20);
    assert_eq!(pool(100, full), 32);

    let route = [3, 8, 13];
    let ordered = |seed| {
        let mut candidates = (1..=16).collect::<Vec<_>>();
        candidates.sort_by_key(|candidate| variation_key(seed, &route, 2, *candidate));
        candidates
    };
    assert_eq!(ordered(101), ordered(101));
    assert_ne!(ordered(101), ordered(202));
}

#[test]
fn selection_is_left_to_right_budgeted_and_worker_deterministic() {
    let (engine, tracks) = corpus(&[
        (0.0, "a"),
        (1.0, "bridge-a"),
        (2.0, "b"),
        (3.0, "bridge-b"),
        (4.0, "c"),
    ]);
    let scorer = scorer(&engine);
    let route = [0, 2, 4];
    let config = bridging(2, UNIT / 100 * 70, UNIT / 100 * 130);
    let reference = build_frozen_reference(&route, &route, &tracks, &scorer, &config).unwrap();
    let gaps = [gap(1, 0, 2, &[1]), gap(2, 2, 4, &[3])];
    let select = || {
        select_automatic_bridges(
            &route,
            &gaps,
            &automatic(1),
            &ExactScoringContext {
                tracks: &tracks,
                scorer: &scorer,
                config: &config,
                reference: &reference,
            },
        )
    };
    let one = workers(1).install(select).unwrap();
    let four = workers(4).install(select).unwrap();
    assert_eq!(one, four);
    assert_eq!(one.final_route, vec![0, 1, 2, 4]);
    assert_eq!(one.decisions[0].reason, DecisionReason::Selected);
    assert_eq!(one.decisions[1].reason, DecisionReason::BudgetExhausted);
    assert!(
        one.decisions[0]
            .selected
            .as_ref()
            .unwrap()
            .evaluation
            .detour_percentile
            < UNIT
    );
}

#[test]
fn below_threshold_gap_is_a_visible_no_op() {
    let (engine, tracks) = corpus(&[(0.0, "a"), (1.0, "b"), (2.0, "c")]);
    let scorer = scorer(&engine);
    let route = [0, 2];
    let config = bridging(1, UNIT / 100 * 70, UNIT / 100 * 130);
    let reference = build_frozen_reference(&route, &route, &tracks, &scorer, &config).unwrap();
    let mut smooth = gap(1, 0, 2, &[1]);
    smooth.direct_percentile = UNIT / 100 * 70;
    let selected = select_automatic_bridges(
        &route,
        &[smooth],
        &automatic(1),
        &ExactScoringContext {
            tracks: &tracks,
            scorer: &scorer,
            config: &config,
            reference: &reference,
        },
    )
    .unwrap();
    assert_eq!(selected.final_route, route);
    assert_eq!(selected.decisions[0].reason, DecisionReason::BelowThreshold);
}

#[test]
fn exact_count_search_is_worker_deterministic_and_not_partial() {
    let (engine, tracks) = corpus(&[
        (0.0, "a"),
        (1.0, "bridge-a"),
        (2.0, "b"),
        (3.0, "bridge-b"),
        (4.0, "c"),
    ]);
    let scorer = scorer(&engine);
    let route = [0, 2, 4];
    let config = bridging(2, UNIT / 100 * 70, UNIT / 100 * 130);
    let reference = build_frozen_reference(&route, &route, &tracks, &scorer, &config).unwrap();
    let gaps = [gap(1, 0, 2, &[1]), gap(2, 2, 4, &[3])];
    let select = |requested: usize| {
        select_exact_count_bridges(
            &route,
            &gaps,
            &exact(requested, 1),
            &ExactScoringContext {
                tracks: &tracks,
                scorer: &scorer,
                config: &config,
                reference: &reference,
            },
        )
    };
    let one = workers(1).install(|| select(2)).unwrap();
    let four = workers(4).install(|| select(2)).unwrap();
    assert_eq!(one, four);
    assert_eq!(one.final_route, Some(vec![0, 1, 2, 3, 4]));
    assert_eq!(
        one.decisions
            .iter()
            .map(|decision| decision.reason)
            .collect::<Vec<_>>(),
        vec![DecisionReason::Selected, DecisionReason::Selected]
    );

    let impossible = select(3).unwrap();
    assert_eq!(impossible.final_route, None);
    assert!(impossible.decisions.is_empty());
    assert_eq!(impossible.stats.maximum_additions_found, 2);
    assert_eq!(impossible.stats.structural_upper_bound, 2);
}

#[test]
fn exact_count_can_route_multiple_bridges_inside_one_preserved_gap() {
    let (engine, tracks) = corpus(&[
        (0.0, "anchor-a"),
        (0.7, "bridge-a"),
        (1.3, "bridge-b"),
        (2.0, "anchor-b"),
    ]);
    let scorer = scorer(&engine);
    let route = [0, 3];
    let config = bridging(2, UNIT, 2 * UNIT);
    let reference =
        build_frozen_reference(&route, &[0, 1, 2, 3], &tracks, &scorer, &config).unwrap();
    let gaps = [gap(1, 0, 3, &[1, 2])];
    let select = |per_gap: usize| {
        select_exact_count_bridges(
            &route,
            &gaps,
            &exact(2, per_gap),
            &ExactScoringContext {
                tracks: &tracks,
                scorer: &scorer,
                config: &config,
                reference: &reference,
            },
        )
    };
    let one = workers(1).install(|| select(2)).unwrap();
    let four = workers(4).install(|| select(2)).unwrap();

    assert_eq!(one, four);
    let final_route = one.final_route.unwrap();
    assert_eq!(final_route.first(), Some(&0));
    assert_eq!(final_route.last(), Some(&3));
    assert_eq!(final_route.len(), 4);
    assert!(final_route.contains(&1));
    assert!(final_route.contains(&2));
    assert_eq!(one.decisions.len(), 2);
    assert!(one
        .decisions
        .iter()
        .all(|decision| decision.reason == DecisionReason::Selected));
    assert_eq!(one.stats.max_tracks_per_gap, 2);
    assert_eq!(one.stats.structural_upper_bound, 2);

    let single_per_gap = select(1).unwrap();
    assert!(single_per_gap.final_route.is_none());
    assert_eq!(single_per_gap.stats.structural_upper_bound, 1);
}

#[test]
fn exact_count_can_build_a_path_when_no_single_bridge_reaches_both_anchors() {
    let (engine, tracks) = corpus(&[
        (0.0, "anchor-a"),
        (1.0, "bridge-a"),
        (2.0, "bridge-b"),
        (3.0, "anchor-b"),
    ]);
    let scorer = scorer(&engine);
    let route = [0, 3];
    let config = bridging(1, UNIT / 100 * 25, UNIT / 100 * 50);
    let reference =
        build_frozen_reference(&route, &[0, 1, 2, 3], &tracks, &scorer, &config).unwrap();
    let gaps = [gap(1, 0, 3, &[1, 2])];
    let select = |requested: usize| {
        select_exact_count_bridges(
            &route,
            &gaps,
            &ExactSelectionConfig {
                generation_seed: 20_260_811,
                ..exact(requested, 2)
            },
            &ExactScoringContext {
                tracks: &tracks,
                scorer: &scorer,
                config: &config,
                reference: &reference,
            },
        )
        .unwrap()
    };
    assert_eq!(select(1).final_route, None);

    let two_bridges = select(2);
    assert_eq!(two_bridges.final_route, Some(vec![0, 1, 2, 3]));
    assert_eq!(two_bridges.stats.maximum_additions_found, 2);
}

#[test]
fn explicit_endpoint_slots_make_an_otherwise_impossible_count_deterministic() {
    let (engine, tracks) = corpus(&[
        (1.0, "anchor-a"),
        (0.0, "opening"),
        (3.0, "closing"),
        (2.0, "anchor-b"),
    ]);
    let scorer = scorer(&engine);
    let route = [0, 3];
    let config = bridging(2, UNIT, 2 * UNIT);
    let reference =
        build_frozen_reference(&route, &[0, 1, 2, 3], &tracks, &scorer, &config).unwrap();
    let context = ExactScoringContext {
        tracks: &tracks,
        scorer: &scorer,
        config: &config,
        reference: &reference,
    };
    let without_endpoints =
        select_exact_count_bridges(&route, &[], &exact(2, 1), &context).unwrap();
    assert!(without_endpoints.final_route.is_none());
    assert_eq!(without_endpoints.stats.structural_upper_bound, 0);

    let slot = |anchor: usize, candidate: usize| ExactEndpointSlot {
        anchor,
        semantics: GapEvidence {
            pool: SemanticPool::BlissOnly,
            candidates: vec![semantics(candidate)],
        },
    };
    let endpoints = ExactEndpointSlots {
        opening: Some(slot(0, 1)),
        closing: Some(slot(3, 2)),
    };
    let select = || {
        select_exact_count_bridges_with_endpoints(&route, &[], &exact(2, 1), &endpoints, &context)
    };
    let one = workers(1).install(select).unwrap();
    let four = workers(4).install(select).unwrap();

    assert_eq!(one, four);
    assert_eq!(one.final_route, Some(vec![1, 0, 3, 2]));
    assert_eq!(one.endpoint_decisions.len(), 2);
    assert!(one
        .endpoint_decisions
        .iter()
        .all(|decision| decision.reason == DecisionReason::Selected));
    assert_eq!(one.stats.structural_upper_bound, 2);
}

#[test]
fn every_reason_for_leaving_a_gap_alone_is_given() {
    let (engine, tracks) = corpus(&[
        (0.0, "a"),
        (1.0, "bridge"),
        (2.0, "b"),
        (50.0, "far"),
        (1.0, "a"),
    ]);
    let scorer = scorer(&engine);
    let route = [0, 2];
    let wide = bridging(2, 2 * UNIT, 4 * UNIT);
    let narrow = bridging(2, 0, 0);
    let reference = FrozenReference::from_distances(vec![1, 2]).unwrap();
    let reason = |gap: AutomaticGap, budget: usize, config: &BridgeConfig| {
        select_automatic_bridges(
            &route,
            &[gap],
            &automatic(budget),
            &ExactScoringContext {
                tracks: &tracks,
                scorer: &scorer,
                config,
                reference: &reference,
            },
        )
        .unwrap()
        .decisions[0]
            .reason
    };
    assert_eq!(
        reason(gap(1, 0, 2, &[]), 1, &wide),
        DecisionReason::NoEligibleCandidate
    );
    assert_eq!(
        reason(gap(1, 0, 2, &[1]), 0, &wide),
        DecisionReason::BudgetExhausted
    );
    assert_eq!(
        reason(gap(1, 0, 2, &[4]), 1, &wide),
        DecisionReason::RepeatConflict
    );
    assert_eq!(
        reason(gap(1, 0, 2, &[3]), 1, &narrow),
        DecisionReason::AcousticRejected
    );
    assert_eq!(
        reason(gap(1, 0, 2, &[3]), 1, &wide),
        DecisionReason::NoImprovement
    );
    let mut far_apart = gap(1, 0, 2, &[1]);
    far_apart.direct_distance = 1_000 * UNIT;
    assert_eq!(reason(far_apart, 1, &wide), DecisionReason::Selected);
}

#[test]
fn a_gap_that_is_not_on_the_route_is_refused() {
    let (engine, tracks) = corpus(&[(0.0, "a"), (1.0, "b"), (2.0, "c")]);
    let scorer = scorer(&engine);
    let config = bridging(2, UNIT, 2 * UNIT);
    let reference = FrozenReference::from_distances(vec![UNIT]).unwrap();
    let refused = select_automatic_bridges(
        &[0, 2],
        &[gap(7, 2, 0, &[1])],
        &automatic(1),
        &ExactScoringContext {
            tracks: &tracks,
            scorer: &scorer,
            config: &config,
            reference: &reference,
        },
    );
    assert_eq!(refused, Err(PreviewError::InvalidOriginalGap(7)));
    assert_eq!(
        PreviewError::InvalidOriginalGap(7).message(),
        "original gap 7 is absent from the evolving route"
    );
    assert_eq!(
        PreviewError::Scoring(BridgeError::InvalidGap).message(),
        "automatic bridge scoring failed: bridge position is not an internal gap"
    );
}

#[test]
fn earlier_decisions_stand_whatever_comes_later() {
    let (engine, tracks) = corpus(&[
        (0.0, "a"),
        (1.0, "bridge-a"),
        (2.0, "b"),
        (3.0, "bridge-b"),
        (4.0, "c"),
    ]);
    let scorer = scorer(&engine);
    let route = [0, 2, 4];
    let config = bridging(2, UNIT, 2 * UNIT);
    let reference = FrozenReference::from_distances(vec![UNIT, 4 * UNIT, 9 * UNIT]).unwrap();
    let context = ExactScoringContext {
        tracks: &tracks,
        scorer: &scorer,
        config: &config,
        reference: &reference,
    };
    let select = |gaps: &[AutomaticGap]| {
        select_automatic_bridges(&route, gaps, &automatic(2), &context).unwrap()
    };
    let both = select(&[gap(2, 2, 4, &[3]), gap(1, 0, 2, &[1])]);
    let first = select(&[gap(1, 0, 2, &[1])]);
    assert_eq!(both.decisions.len(), 2);
    assert_eq!(both.decisions[0].reason, DecisionReason::Selected);
    assert_eq!(first.decisions[..], both.decisions[..1]);
}

#[test]
fn without_variation_the_seed_has_no_say() {
    let (engine, tracks) = corpus(&[
        (0.0, "a"),
        (0.9, "bridge-a"),
        (1.1, "bridge-b"),
        (1.0, "bridge-c"),
        (2.0, "b"),
    ]);
    let scorer = scorer(&engine);
    let route = [0, 4];
    let config = bridging(2, UNIT, 2 * UNIT);
    let reference = FrozenReference::from_distances(vec![UNIT, 9 * UNIT, 90 * UNIT]).unwrap();
    let context = ExactScoringContext {
        tracks: &tracks,
        scorer: &scorer,
        config: &config,
        reference: &reference,
    };
    let gaps = [gap(1, 0, 4, &[1, 2, 3])];
    let select = |generation_seed: u64, requested: usize| {
        (
            select_automatic_bridges(
                &route,
                &gaps,
                &AutomaticSelectionConfig {
                    generation_seed,
                    ..automatic(1)
                },
                &context,
            )
            .unwrap(),
            select_exact_count_bridges(
                &route,
                &gaps,
                &ExactSelectionConfig {
                    generation_seed,
                    ..exact(requested, 2)
                },
                &context,
            )
            .unwrap(),
        )
    };
    assert_eq!(select(1, 1), select(2, 1));
    assert_eq!(select(1, 2), select(77, 2));
}

#[test]
fn a_track_for_both_ends_counts_once_in_the_bound() {
    let (engine, tracks) = corpus(&[(1.0, "anchor-a"), (0.0, "opening"), (2.0, "anchor-b")]);
    let scorer = scorer(&engine);
    let route = [0, 2];
    let config = bridging(2, UNIT, 2 * UNIT);
    let reference = build_frozen_reference(&route, &[0, 1, 2], &tracks, &scorer, &config).unwrap();
    let context = ExactScoringContext {
        tracks: &tracks,
        scorer: &scorer,
        config: &config,
        reference: &reference,
    };
    let slot = |anchor: usize| {
        Some(ExactEndpointSlot {
            anchor,
            semantics: GapEvidence {
                pool: SemanticPool::BlissOnly,
                candidates: vec![semantics(1)],
            },
        })
    };
    let ends = ExactEndpointSlots {
        opening: slot(0),
        closing: slot(2),
    };
    let two =
        select_exact_count_bridges_with_endpoints(&route, &[], &exact(2, 1), &ends, &context)
            .unwrap();
    assert_eq!(two.stats.structural_upper_bound, 1);
    assert_eq!(two.final_route, None);
    assert!(two.endpoint_decisions.is_empty());
    let one =
        select_exact_count_bridges_with_endpoints(&route, &[], &exact(1, 1), &ends, &context)
            .unwrap();
    assert_eq!(one.stats.structural_upper_bound, 1);
    assert_eq!(one.final_route.map(|route| route.len()), Some(3));
}

#[test]
fn published_decisions_describe_the_final_route() {
    let (engine, tracks) = corpus(&[
        (0.0, "a"),
        (1.0, "bridge-a"),
        (2.0, "b"),
        (3.0, "bridge-b"),
        (4.0, "c"),
    ]);
    let scorer = scorer(&engine);
    let route = [0, 2, 4];
    let config = bridging(2, UNIT, 2 * UNIT);
    let reference = build_frozen_reference(&route, &route, &tracks, &scorer, &config).unwrap();
    let gaps = [gap(1, 0, 2, &[1]), gap(2, 2, 4, &[3])];
    for per_gap in [1, 2] {
        let selection = select_exact_count_bridges(
            &route,
            &gaps,
            &exact(2, per_gap),
            &ExactScoringContext {
                tracks: &tracks,
                scorer: &scorer,
                config: &config,
                reference: &reference,
            },
        )
        .unwrap();
        let found = selection.final_route.unwrap();
        assert_eq!(found, vec![0, 1, 2, 3, 4]);
        for decision in &selection.decisions {
            let selected = decision.selected.as_ref().unwrap();
            let at = decision.route_position;
            assert_eq!(found[at], selected.evaluation.candidate);
            assert!(selected.evaluation.accepted);
            let mut without = found.clone();
            without.remove(at);
            let anew = evaluate_candidate(
                &without,
                at,
                selected.evaluation.candidate,
                &tracks,
                &scorer,
                &config,
                &reference,
            )
            .unwrap();
            assert_eq!(anew, selected.evaluation);
        }
    }
}

#[test]
fn no_gap_takes_more_tracks_than_it_may() {
    let (engine, tracks) = corpus(&[
        (0.0, "anchor-a"),
        (0.5, "bridge-a"),
        (1.0, "bridge-b"),
        (1.5, "bridge-c"),
        (2.0, "anchor-b"),
        (3.0, "bridge-d"),
        (4.0, "anchor-c"),
    ]);
    let scorer = scorer(&engine);
    let route = [0, 4, 6];
    let config = bridging(2, UNIT, 2 * UNIT);
    let reference =
        build_frozen_reference(&route, &[0, 1, 2, 3, 4, 5, 6], &tracks, &scorer, &config).unwrap();
    let gaps = [gap(1, 0, 4, &[1, 2, 3]), gap(2, 4, 6, &[5])];
    for per_gap in [1, 2, 3] {
        let selection = select_exact_count_bridges(
            &route,
            &gaps,
            &exact(per_gap + 1, per_gap),
            &ExactScoringContext {
                tracks: &tracks,
                scorer: &scorer,
                config: &config,
                reference: &reference,
            },
        )
        .unwrap();
        assert_eq!(
            selection.final_route.as_ref().map(Vec::len),
            Some(route.len() + per_gap + 1)
        );
        for place in [1, 2] {
            let taken = selection
                .decisions
                .iter()
                .filter(|decision| decision.original_position == place)
                .filter(|decision| decision.selected.is_some())
                .count();
            assert!(taken <= per_gap);
        }
    }
}

#[test]
fn a_trigger_below_zero_leaves_no_gap_out() {
    let (engine, tracks) = corpus(&[(0.0, "a"), (1.0, "b"), (2.0, "c")]);
    let scorer = scorer(&engine);
    let route = [0, 2];
    let config = bridging(1, UNIT, 2 * UNIT);
    let reference = build_frozen_reference(&route, &route, &tracks, &scorer, &config).unwrap();
    let reason = |trigger_percentile: i64| {
        let mut smooth = gap(1, 0, 2, &[]);
        smooth.direct_percentile = 0;
        select_automatic_bridges(
            &route,
            &[smooth],
            &AutomaticSelectionConfig {
                trigger_percentile,
                ..automatic(1)
            },
            &ExactScoringContext {
                tracks: &tracks,
                scorer: &scorer,
                config: &config,
                reference: &reference,
            },
        )
        .unwrap()
        .decisions[0]
            .reason
    };
    assert_eq!(reason(0), DecisionReason::BelowThreshold);
    assert_eq!(reason(-1), DecisionReason::NoEligibleCandidate);
}

#[test]
fn an_end_that_is_not_offered_takes_no_track() {
    let (engine, tracks) = corpus(&[
        (1.0, "anchor-a"),
        (0.0, "opening"),
        (3.0, "closing"),
        (2.0, "anchor-b"),
    ]);
    let scorer = scorer(&engine);
    let route = [0, 3];
    let config = bridging(2, UNIT, 2 * UNIT);
    let reference =
        build_frozen_reference(&route, &[0, 1, 2, 3], &tracks, &scorer, &config).unwrap();
    let offered = ExactEndpointSlots {
        opening: Some(ExactEndpointSlot {
            anchor: 0,
            semantics: GapEvidence {
                pool: SemanticPool::BlissOnly,
                candidates: vec![semantics(1), semantics(2)],
            },
        }),
        closing: None,
    };
    let select = |count: usize| {
        select_exact_count_bridges_with_endpoints(
            &route,
            &[],
            &exact(count, 1),
            &offered,
            &ExactScoringContext {
                tracks: &tracks,
                scorer: &scorer,
                config: &config,
                reference: &reference,
            },
        )
        .unwrap()
    };
    let one = select(1);
    let found = one.final_route.unwrap();
    assert_eq!(found[1..], route);
    assert_eq!(one.endpoint_decisions.len(), 1);
    assert_eq!(one.endpoint_decisions[0].slot, EndpointSlot::Opening);
    let chosen = one.endpoint_decisions[0].selected.as_ref().unwrap();
    assert_eq!(chosen.evaluation.candidate, found[0]);
    assert!(chosen.evaluation.percentile <= config.max_leg_percentile);
    assert!(select(2).final_route.is_none());
}
