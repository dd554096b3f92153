//! Routes to a destination and back.

use bliss_playlist_optimizer::bridge::{BridgeConfig, FrozenReference, GapContextMode};
use bliss_playlist_optimizer::coarse_pool::narrow_pool;
use bliss_playlist_optimizer::contextual::{AdaptiveScorer, ContextualError};
use bliss_playlist_optimizer::destination::{
    select_destination_bridge_routes, select_destination_waypoint_routes, DestinationRepeatContext,
};
use bliss_playlist_optimizer::preview::{
    AutomaticGap, ExactScoringContext, ExactSelectionConfig, PreviewError,
};
use bliss_playlist_optimizer::route::RouteTrack;
use bliss_playlist_optimizer::semantic::{
    CandidateSemantics, GapEvidence, SemanticPool, SemanticTier,
};
use bliss_playlist_optimizer::units::UNIT;

/// An acoustic engine with the identity as its learned matrix.
struct Engine {
    features: Vec<[f32; 23]>,
}

impl Engine {
    fn weights(&self, seeds: &[usize], percent: u16) -> [f64; 23] {
        if seeds.len() < 2 {
            return [1.0; 23];
        }
        let mean = self.mean(seeds);
        let mut spread = [0.0_f64; 23];
        for seed in seeds {
            for (index, value) in self.features[*seed].iter().enumerate() {
                spread[index] += (f64::from(*value) - mean[index]).powi(2);
            }
        }
        let mut inverse = [0.0_f64; 23];
        for (index, value) in spread.iter().enumerate() {
            inverse[index] = 1.0 / (value / seeds.len() as f64 + 1e-6);
        }
        let scale = 23.0 / inverse.iter().sum::<f64>();
        let learned = f64::from(percent) / 100.0;
        std::array::from_fn(|index| learned + (1.0 - learned) * inverse[index] * scale)
    }

    fn mean(&self, seeds: &[usize]) -> [f64; 23] {
        std::array::from_fn(|index| {
            seeds
                .iter()
                .map(|seed| f64::from(self.features[*seed][index]))
                .sum::<f64>()
                / seeds.len() as f64
        })
    }

    fn distance(&self, matrix: &[usize], percent: u16, seeds: &[usize], candidate: usize) -> u64 {
        let weights = self.weights(matrix, percent);
        let mean = self.mean(seeds);
        let total: f64 = (0..23)
            .map(|index| {
                let apart = f64::from(self.features[candidate][index]) - mean[index];
                weights[index] * apart * apart
            })
            .sum();
        (total.sqrt() * UNIT as f64).round() as u64
    }
}

fn scorer(
    engine: &Engine,
) -> AdaptiveScorer<
    impl Fn(&[usize], u16) -> Result<(), ContextualError> + Copy + '_,
    impl Fn(&[usize], u16, &[usize], usize) -> u64 + Copy + '_,
> {
    AdaptiveScorer::new(
        |_: &[usize], percent: u16| {
            if percent > 100 {
                Err(ContextualError::InvalidLearnedPercent(percent))
            } else {
                Ok(())
            }
        },
        move |matrix: &[usize], percent: u16, seeds: &[usize], candidate: usize| {
            engine.distance(matrix, percent, seeds, candidate)
        },
    )
}

fn ranked(value: f32) -> i32 {
    let bits = value.to_bits() as i32;
    if bits < 0 {
        bits ^ i32::MAX
    } else {
        bits
    }
}

fn features(value: f32) -> [f32; 23] {
    std::array::from_fn(|index| value + index as f32 / 100.0)
}

fn library() -> (Engine, Vec<RouteTrack>) {
    let engine = Engine {
        features: (0..7).map(|index| features(index as f32)).collect(),
    };
    let tracks = engine
        .features
        .iter()
        .enumerate()
        .map(|(index, features)| RouteTrack {
            features: std::array::from_fn(|place| ranked(features[place])),
            artist_key: format!("artist-{index}"),
            album_key: format!("album-{index}"),
        })
        .collect();
    (engine, tracks)
}

fn gap(left: usize, right: usize, candidates: &[usize]) -> AutomaticGap {
    AutomaticGap {
        original_position: 1,
        left,
        right,
        direct_distance: 10 * UNIT,
        direct_percentile: UNIT,
        semantics: GapEvidence {
            pool: SemanticPool::BlissOnly,
            candidates: candidates
                .iter()
                .map(|candidate| CandidateSemantics {
                    candidate: *candidate,
                    tier: SemanticTier::BlissOnly,
                    evidence: Vec::new(),
                })
                .collect(),
        },
    }
}

const BRIDGING: BridgeConfig = BridgeConfig {
    seed_limit: 1,
    learned_percent: 20,
    artist_window: 1,
    album_window: 1,
    max_leg_percentile: 2 * UNIT,
    max_detour_percentile: 4 * UNIT,
    gap_context_mode: GapContextMode::Rolling,
};

const SELECTION: ExactSelectionConfig = ExactSelectionConfig {
    requested_added_tracks: 1,
    candidate_limit: 4,
    beam_width: 8,
    max_tracks_per_gap: 1,
    track_guidance_percent: 0,
    artist_guidance_percent: 0,
    variation_percent: 0,
    generation_seed: 7,
};

const FRESH: DestinationRepeatContext<'static> = DestinationRepeatContext {
    history_route: &[],
    track_window: 0,
};

fn apart(left: usize, right: usize) -> u64 {
    left.abs_diff(right) as u64
}

#[test]
fn destinations_are_reached_with_each_number_of_tracks() {
    let (engine, tracks) = library();
    let scorer = scorer(&engine);
    let reference = FrozenReference::from_distances(vec![UNIT, 2 * UNIT]).unwrap();
    let context = ExactScoringContext {
        tracks: &tracks,
        scorer: &scorer,
        config: &BRIDGING,
        reference: &reference,
    };
    let options = select_destination_bridge_routes(
        &[0, 3],
        &gap(0, 3, &[1, 2, 5]),
        2,
        &SELECTION,
        FRESH,
        &context,
        apart,
    )
    .unwrap();
    assert_eq!(options.len(), 3);
    for (count, option) in options.iter().enumerate() {
        assert_eq!(option.added_track_count, count);
        let route = option.selection.final_route.as_ref().unwrap();
        assert_eq!(route.len(), count + 2);
        assert_eq!((route[0], route[count + 1]), (0, 3));
    }
    assert_eq!(options[0].adjacent_worst_transition, 3);
    assert_eq!(options[2].selection.final_route, Some(vec![0, 1, 2, 3]));
    assert_eq!(options[2].adjacent_worst_transition, 1);
    assert_eq!(options[2].adjacent_transition_sum, 3);
}

#[test]
fn excursions_pass_the_waypoint_and_come_back() {
    let (engine, tracks) = library();
    let scorer = scorer(&engine);
    let reference = FrozenReference::from_distances(vec![UNIT, 2 * UNIT]).unwrap();
    let context = ExactScoringContext {
        tracks: &tracks,
        scorer: &scorer,
        config: &BRIDGING,
        reference: &reference,
    };
    let options = select_destination_waypoint_routes(
        &[0, 4, 6],
        &[gap(0, 4, &[2]), gap(4, 6, &[5])],
        2,
        &SELECTION,
        FRESH,
        &context,
        apart,
    )
    .unwrap();
    assert_eq!(
        options
            .iter()
            .map(|option| option.added_track_count)
            .collect::<Vec<_>>(),
        vec![0, 1, 2]
    );
    assert_eq!(options[1].selection.final_route, Some(vec![0, 2, 4, 6]));
    assert_eq!(options[2].selection.final_route, Some(vec![0, 2, 4, 5, 6]));
    assert_eq!(options[2].adjacent_worst_transition, 2);
    assert_eq!(options[2].adjacent_transition_sum, 6);
}

#[test]
fn spoilt_destinations_are_refused() {
    let (engine, tracks) = library();
    let scorer = scorer(&engine);
    let reference = FrozenReference::from_distances(vec![UNIT]).unwrap();
    let context = ExactScoringContext {
        tracks: &tracks,
        scorer: &scorer,
        config: &BRIDGING,
        reference: &reference,
    };
    let search = |route: &[usize], gap: &AutomaticGap, budget: usize, beam_width: usize| {
        select_destination_bridge_routes(
            route,
            gap,
            budget,
            &ExactSelectionConfig {
                beam_width,
                ..SELECTION
            },
            FRESH,
            &context,
            apart,
        )
    };
    assert_eq!(
        search(&[0, 3], &gap(0, 2, &[1]), 1, 8),
        Err(PreviewError::FinalRouteInvalid(
            "destination search requires the final source transition as its only gap"
        ))
    );
    assert_eq!(
        search(&[0, 3], &gap(0, 3, &[1]), 1_000, 8),
        Err(PreviewError::InvalidExactConfig(
            "destination bridge budget exceeds the supported limit"
        ))
    );
    assert_eq!(
        search(&[0, 3], &gap(0, 3, &[1]), 1, 0),
        Err(PreviewError::InvalidExactConfig(
            "destination candidate and beam limits must be at least one"
        ))
    );
    assert_eq!(
        select_destination_waypoint_routes(
            &[0, 3],
            &[],
            1,
            &SELECTION,
            FRESH,
            &context,
            apart
        ),
        Err(PreviewError::FinalRouteInvalid(
            "waypoint destination search requires two locked adjacent gaps"
        ))
    );
}

#[test]
fn large_libraries_are_narrowed_to_what_is_near_the_way() {
    let tracks: Vec<usize> = (0..100).collect();
    let apart = |from: usize, to: usize| from.abs_diff(to) as u64;
    assert_eq!(narrow_pool(&tracks, &apart, 10, 90, 100), tracks);
    let pool = narrow_pool(&tracks, &apart, 10, 90, 9);
    assert_eq!(pool, vec![9, 10, 11, 49, 50, 51, 89, 90, 91]);
    assert!(narrow_pool(&tracks, &apart, 10, 90, 2).is_empty());
}
