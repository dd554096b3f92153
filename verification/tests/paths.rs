//! Paths between two anchors.

use bliss_playlist_optimizer::anchored_path::{
    search_anchored_paths, AnchoredPathCandidate, AnchoredPathError, AnchoredPathRequest,
    AnchoredPathSearchConfig,
};
use bliss_playlist_optimizer::route::RouteTrack;
use bliss_playlist_optimizer::units::UNIT;

fn ranked(value: f32) -> i32 {
    let bits = value.to_bits() as i32;
    if bits < 0 {
        bits ^ i32::MAX
    } else {
        bits
    }
}

fn track(value: f32, artist: &str, album: &str) -> RouteTrack {
    RouteTrack {
        features: std::array::from_fn(|index| ranked(value + index as f32 / 100.0)),
        artist_key: artist.to_owned(),
        album_key: album.to_owned(),
    }
}

fn config(max_intermediates: usize) -> AnchoredPathSearchConfig {
    AnchoredPathSearchConfig {
        max_intermediates,
        candidate_limit: 16,
        beam_width: 64,
        alternatives_per_count: 1,
        variation_percent: 0,
        generation_seed: 42,
        artist_window: 1,
        album_window: 1,
        track_window: 8,
    }
}

#[test]
fn returns_direct_and_bounded_intermediate_options() {
    let tracks = [
        track(0.0, "a", "a"),
        track(1.0, "b", "b"),
        track(2.0, "c", "c"),
        track(3.0, "d", "d"),
    ];
    let candidates = [
        AnchoredPathCandidate {
            track: 1,
            semantic_support: 0,
        },
        AnchoredPathCandidate {
            track: 2,
            semantic_support: 0,
        },
    ];
    let options = search_anchored_paths(
        AnchoredPathRequest {
            route_prefix: &[0],
            immutable_history: &[],
            unavailable_tracks: &[0, 3],
            left_anchor: 0,
            right_anchor: 3,
            candidates: &candidates,
            tracks: &tracks,
            config: config(2),
        },
        |left: usize, right: usize| left.abs_diff(right) as u64 * UNIT,
    )
    .unwrap();

    assert_eq!(options.len(), 3);
    assert_eq!(options[0].route, vec![0, 3]);
    assert_eq!(options[1].intermediates.len(), 1);
    assert_eq!(options[2].route, vec![0, 1, 2, 3]);
}

#[test]
fn immutable_history_duplicates_are_tolerated_but_generated_repeats_are_not() {
    let tracks = [
        track(0.0, "a", "a"),
        track(1.0, "b", "b"),
        track(2.0, "c", "c"),
    ];
    let candidates = [AnchoredPathCandidate {
        track: 1,
        semantic_support: 0,
    }];
    let options = search_anchored_paths(
        AnchoredPathRequest {
            route_prefix: &[0],
            immutable_history: &[0, 0],
            unavailable_tracks: &[0, 2],
            left_anchor: 0,
            right_anchor: 2,
            candidates: &candidates,
            tracks: &tracks,
            config: AnchoredPathSearchConfig {
                artist_window: 0,
                album_window: 0,
                ..config(1)
            },
        },
        |left: usize, right: usize| left.abs_diff(right) as u64 * UNIT,
    )
    .unwrap();
    assert_eq!(options[1].route, vec![0, 1, 2]);

    let repeated_generated_track = search_anchored_paths(
        AnchoredPathRequest {
            route_prefix: &[0],
            immutable_history: &[1, 1],
            unavailable_tracks: &[0, 2],
            left_anchor: 0,
            right_anchor: 2,
            candidates: &candidates,
            tracks: &tracks,
            config: AnchoredPathSearchConfig {
                artist_window: 0,
                album_window: 0,
                ..config(1)
            },
        },
        |left: usize, right: usize| left.abs_diff(right) as u64 * UNIT,
    )
    .unwrap();
    assert_eq!(repeated_generated_track.len(), 1);
}

#[test]
fn can_retain_multiple_alternatives_for_an_outer_multi_gap_planner() {
    let tracks = [
        track(0.0, "a", "a"),
        track(1.0, "b", "b"),
        track(1.0, "c", "c"),
        track(2.0, "d", "d"),
    ];
    let candidates = [
        AnchoredPathCandidate {
            track: 1,
            semantic_support: 0,
        },
        AnchoredPathCandidate {
            track: 2,
            semantic_support: 0,
        },
    ];
    let options = search_anchored_paths(
        AnchoredPathRequest {
            route_prefix: &[0],
            immutable_history: &[],
            unavailable_tracks: &[0, 3],
            left_anchor: 0,
            right_anchor: 3,
            candidates: &candidates,
            tracks: &tracks,
            config: AnchoredPathSearchConfig {
                alternatives_per_count: 2,
                ..config(1)
            },
        },
        |left: usize, right: usize| {
            u64::from(tracks[left].features[0].abs_diff(tracks[right].features[0]))
        },
    )
    .unwrap();

    let one_intermediate = options
        .iter()
        .filter(|option| option.intermediates.len() == 1)
        .collect::<Vec<_>>();
    assert_eq!(one_intermediate.len(), 2);
    assert_ne!(
        one_intermediate[0].intermediates,
        one_intermediate[1].intermediates
    );
}

#[test]
fn longer_paths_are_weighed_by_their_transitions() {
    let tracks = [
        track(0.0, "a", "a"),
        track(1.0, "b", "b"),
        track(5.0, "c", "c"),
    ];
    let options = search_anchored_paths(
        AnchoredPathRequest {
            route_prefix: &[0],
            immutable_history: &[],
            unavailable_tracks: &[0, 2],
            left_anchor: 0,
            right_anchor: 2,
            candidates: &[AnchoredPathCandidate {
                track: 1,
                semantic_support: 0,
            }],
            tracks: &tracks,
            config: config(1),
        },
        |left: usize, right: usize| 3 * left.abs_diff(right) as u64,
    )
    .unwrap();
    assert_eq!(options.len(), 2);
    assert_eq!(options[0].transition_sum, 6);
    assert_eq!(options[0].worst_transition, 6);
    assert_eq!(options[1].transition_sum, 6);
    assert_eq!(options[1].worst_transition, 3);
}

#[test]
fn spoilt_path_requests_say_why() {
    let tracks = [track(0.0, "a", "a"), track(1.0, "b", "b")];
    let search = |prefix: &[usize], right: usize, config: AnchoredPathSearchConfig| {
        search_anchored_paths(
            AnchoredPathRequest {
                route_prefix: prefix,
                immutable_history: &[],
                unavailable_tracks: &[],
                left_anchor: 0,
                right_anchor: right,
                candidates: &[],
                tracks: &tracks,
                config,
            },
            |_: usize, _: usize| UNIT,
        )
    };
    assert!(matches!(
        search(
            &[0],
            1,
            AnchoredPathSearchConfig {
                beam_width: 0,
                ..config(1)
            }
        ),
        Err(AnchoredPathError::InvalidConfig(_))
    ));
    assert!(matches!(
        search(&[1], 1, config(1)),
        Err(AnchoredPathError::InvalidRoute(_))
    ));
    assert_eq!(
        search(&[0], 5, config(1)),
        Err(AnchoredPathError::InvalidTrackIndex(5))
    );
    assert_eq!(
        AnchoredPathError::InvalidTrackIndex(5).message(),
        "anchored path references unknown track index 5"
    );
}

#[test]
fn alternatives_come_close_to_the_best_path() {
    let tracks = [
        track(0.0, "a", "a"),
        track(1.0, "b", "b"),
        track(2.0, "c", "c"),
        track(3.0, "d", "d"),
        track(4.0, "e", "e"),
    ];
    let candidates: Vec<AnchoredPathCandidate> = (1..4)
        .map(|track| AnchoredPathCandidate {
            track,
            semantic_support: 0,
        })
        .collect();
    let leg = |track: usize| match track {
        1 => UNIT,
        2 => UNIT + UNIT / 100,
        _ => UNIT + UNIT / 2,
    };
    let search = |variation_percent: u8| {
        search_anchored_paths(
            AnchoredPathRequest {
                route_prefix: &[0],
                immutable_history: &[],
                unavailable_tracks: &[0, 4],
                left_anchor: 0,
                right_anchor: 4,
                candidates: &candidates,
                tracks: &tracks,
                config: AnchoredPathSearchConfig {
                    alternatives_per_count: 3,
                    variation_percent,
                    ..config(1)
                },
            },
            |left: usize, right: usize| {
                if left == 0 && right == 4 {
                    4 * UNIT
                } else if left == 0 {
                    leg(right)
                } else {
                    leg(left)
                }
            },
        )
        .unwrap()
    };
    let strict = search(0);
    assert_eq!(strict.len(), 3);
    assert_eq!(strict[1].intermediates, vec![1]);
    assert_eq!(strict[2].intermediates, vec![2]);
    let varied = search(100);
    assert_eq!(varied.len(), 3);
    assert!(varied
        .iter()
        .all(|option| option.intermediates != vec![3usize]));
}

#[test]
fn without_pruning_the_first_option_of_a_count_is_the_best() {
    let tracks: Vec<RouteTrack> = (0..6)
        .map(|index| track(index as f32, &format!("artist-{index}"), &format!("album-{index}")))
        .collect();
    let candidates: Vec<AnchoredPathCandidate> = (1..5)
        .map(|track| AnchoredPathCandidate {
            track,
            semantic_support: 0,
        })
        .collect();
    let distance = |left: usize, right: usize| ((left * 7 + right * 11) % 13 + 1) as u64 * UNIT;
    let options = search_anchored_paths(
        AnchoredPathRequest {
            route_prefix: &[0],
            immutable_history: &[],
            unavailable_tracks: &[0, 5],
            left_anchor: 0,
            right_anchor: 5,
            candidates: &candidates,
            tracks: &tracks,
            config: config(2),
        },
        distance,
    )
    .unwrap();
    let measured = |path: &[usize]| {
        let legs: Vec<u64> = path
            .windows(2)
            .map(|pair| distance(pair[0], pair[1]))
            .collect();
        let sum: u128 = legs.iter().map(|leg| u128::from(*leg)).sum();
        (*legs.iter().max().unwrap(), sum)
    };
    let best = (1..5)
        .flat_map(|first| (1..5).map(move |second| (first, second)))
        .filter(|(first, second)| first != second)
        .map(|(first, second)| measured(&[0, first, second, 5]))
        .min()
        .unwrap();
    let first = options
        .iter()
        .find(|option| option.intermediates.len() == 2)
        .unwrap();
    assert_eq!(measured(&first.route), best);
    assert_eq!((first.worst_transition, first.transition_sum), best);
}
