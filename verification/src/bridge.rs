//! Scoring tracks as bridges over the gaps of a route.

use crate::contextual::{
    adaptive_distance_from_seeds, adaptive_distance_with_matrix, context_distance, context_prepared,
    matrix_distance, prepare_adaptive_context, AdaptiveScorer, ContextMatrix, ContextMatrixView,
    ContextualError, Scoring,
};
use crate::route::{
    album_clash, albums_clash, artist_clash, artists_clash, recent, recent_window, RouteTrack,
};
use crate::sequences::{copied, find_outside, first_outside, holds, in_range};
use crate::sorting::{
    is_sorted, sort_by, stable_sort, stable_sort_is_sorted, stable_sort_same_members,
};
use crate::text::{decimal, text_around, text_with_number};
use crate::units::{fraction, fraction_is_monotone, fraction_units, lemma_fraction_bound, UNIT};
use vstd::prelude::*;

verus! {

/// The percentile that no leg of a bridge exceeds unless asked otherwise.
pub const DEFAULT_MAX_LEG_PERCENTILE: u64 = 700_000_000_000;

/// The summed percentile that no bridge exceeds unless asked otherwise.
pub const DEFAULT_MAX_DETOUR_PERCENTILE: u64 = 1_300_000_000_000;

/// Whether the matrix follows the growing route or stays that of the gap.
#[derive(Clone, Copy, Debug, Default, PartialEq, Eq, Structural)]
pub enum GapContextMode {
    #[default]
    Rolling,
    Frozen,
}

/// How bridges are scored and accepted.
#[derive(Clone, Copy, Debug, PartialEq, Eq)]
pub struct BridgeConfig {
    pub seed_limit: usize,
    pub learned_percent: u16,
    pub artist_window: usize,
    pub album_window: usize,
    pub max_leg_percentile: u64,
    pub max_detour_percentile: u64,
    pub gap_context_mode: GapContextMode,
}

/// Why a bridge cannot be scored.
#[derive(Clone, Copy, Debug, PartialEq, Eq, Structural)]
pub enum BridgeError {
    InvalidGap,
    InvalidTrackIndex(usize),
    EmptyReference,
    Scoring(ContextualError),
}

impl BridgeError {
    /// The text of the message for this error.
    pub open spec fn text(self) -> Seq<char> {
        match self {
            BridgeError::InvalidGap => "bridge position is not an internal gap"@,
            BridgeError::InvalidTrackIndex(index) => "invalid track index "@ + decimal(index as int)
                + ""@,
            BridgeError::EmptyReference => "frozen bridge reference distribution is empty"@,
            BridgeError::Scoring(error) => "adaptive bridge scoring failed: "@ + error.text() + ""@,
        }
    }

    /// Says what went wrong.
    pub fn message(&self) -> (text: String)
        ensures
            text@ == self.text(),
    {
        match self {
            BridgeError::InvalidGap => "bridge position is not an internal gap".to_owned(),
            BridgeError::InvalidTrackIndex(index) => text_with_number(
                "invalid track index ",
                *index as u64,
                "",
            ),
            BridgeError::EmptyReference => {
                "frozen bridge reference distribution is empty".to_owned()
            },
            BridgeError::Scoring(error) => text_around(
                "adaptive bridge scoring failed: ",
                error.message().as_str(),
                "",
            ),
        }
    }
}

/// The transition across a gap as it stands.
#[derive(Clone, Copy, Debug, PartialEq, Eq)]
pub struct BridgeGap {
    pub position: usize,
    pub direct_distance: u64,
    pub direct_percentile: u64,
}

/// How one track does as a bridge over one gap.
#[derive(Clone, Copy, Debug, PartialEq, Eq)]
pub struct BridgeCandidateEvaluation {
    pub candidate: usize,
    pub left_distance: u64,
    pub right_distance: u64,
    pub left_percentile: u64,
    pub right_percentile: u64,
    pub max_percentile: u64,
    pub detour_percentile: u64,
    pub repeat_safe: bool,
    pub accepted: bool,
}

/// Which end of a route a track is put at.
#[derive(Clone, Copy, Debug, PartialEq, Eq, Structural)]
pub enum EndpointSlot {
    Opening,
    Closing,
}

/// How one track does at one end of a route.
#[derive(Clone, Copy, Debug, PartialEq, Eq)]
pub struct EndpointCandidateEvaluation {
    pub candidate: usize,
    pub distance: u64,
    pub percentile: u64,
    pub repeat_safe: bool,
    pub accepted: bool,
}

// The reference distribution.

/// Smaller numbers first.
pub open spec fn smallest_first() -> spec_fn(u64, u64) -> bool {
    |a: u64, b: u64| a <= b
}

/// How many of the first `count` distances lie below `value`.
pub open spec fn count_below(distances: Seq<u64>, value: u64, count: int) -> int
    decreases count,
{
    if count <= 0 {
        0
    } else {
        count_below(distances, value, count - 1) + (if distances[count - 1] < value {
            1int
        } else {
            0int
        })
    }
}

/// The share of a distribution that lies below `value`.
pub open spec fn percentile_of(distances: Seq<u64>, value: u64) -> Result<u64, BridgeError> {
    if distances.len() == 0 {
        Err(BridgeError::EmptyReference)
    } else {
        Ok(
            fraction(
                count_below(distances, value, distances.len() as int),
                if distances.len() > 2 {
                    distances.len() - 1
                } else {
                    1
                },
            ) as u64,
        )
    }
}

/// Below a boundary everything counts and above it nothing does.
proof fn lemma_count_below(distances: Seq<u64>, value: u64, boundary: int, count: int)
    requires
        0 <= boundary <= distances.len(),
        0 <= count <= distances.len(),
        forall|i: int| 0 <= i < boundary ==> #[trigger] distances[i] < value,
        forall|i: int| boundary <= i < distances.len() ==> #[trigger] distances[i] >= value,
    ensures
        count_below(distances, value, count) == (if count < boundary {
            count
        } else {
            boundary
        }),
    decreases count,
{
    if count > 0 {
        lemma_count_below(distances, value, boundary, count - 1);
    }
}

proof fn lemma_count_monotone(distances: Seq<u64>, smaller: u64, larger: u64, count: int)
    requires
        smaller <= larger,
        0 <= count <= distances.len(),
    ensures
        0 <= count_below(distances, smaller, count) <= count_below(distances, larger, count)
            <= count,
    decreases count,
{
    if count > 0 {
        lemma_count_monotone(distances, smaller, larger, count - 1);
    }
}

/// A larger distance never has a smaller percentile, and no percentile exceeds two.
pub proof fn percentile_is_monotone(distances: Seq<u64>, smaller: u64, larger: u64)
    requires
        smaller <= larger,
        distances.len() > 0,
    ensures
        percentile_of(distances, smaller)->Ok_0 <= percentile_of(distances, larger)->Ok_0,
        percentile_of(distances, larger)->Ok_0 <= 2 * UNIT,
{
    let count = distances.len() as int;
    let span = if count > 2 {
        count - 1
    } else {
        1
    };
    lemma_count_monotone(distances, smaller, larger, count);
    fraction_is_monotone(
        count_below(distances, smaller, count),
        count_below(distances, larger, count),
        span,
    );
    lemma_fraction_bound(count_below(distances, smaller, count), span);
    lemma_fraction_bound(count_below(distances, larger, count), span);
}

/// A frozen distribution of distances that percentiles refer to.
#[derive(Debug, PartialEq, Eq)]
pub struct FrozenReference {
    distances: Vec<u64>,
}

impl View for FrozenReference {
    type V = Seq<u64>;

    closed spec fn view(&self) -> Seq<u64> {
        self.distances@
    }
}

impl Clone for FrozenReference {
    fn clone(&self) -> (copy: Self)
        ensures
            copy@ == self@,
    {
        proof {
            use_type_invariant(self);
        }
        FrozenReference { distances: vstd::slice::slice_to_vec(self.distances.as_slice()) }
    }
}

impl FrozenReference {
    #[verifier::type_invariant]
    spec fn ordered(&self) -> bool {
        is_sorted(self.distances@, smallest_first())
    }

    /// Freezes a distribution.
    pub fn from_distances(distances: Vec<u64>) -> (reference: Result<Self, BridgeError>)
        ensures
            match frozen_distances(distances@) {
                Ok(ordered) => reference is Ok && reference->Ok_0@ == ordered,
                Err(error) => reference is Err && reference->Err_0 == error,
            },
    {
        if distances.len() == 0 {
            return Err(BridgeError::EmptyReference);
        }
        proof {
            stable_sort_is_sorted(distances@, smallest_first());
        }
        let leq = |a: &u64, b: &u64| -> (first: bool)
            ensures
                first == smallest_first()(*a, *b),
            { *a <= *b };
        let distances = sort_by(distances, &leq, Ghost(smallest_first()));
        Ok(FrozenReference { distances })
    }

    /// The number of distances.
    pub fn len(&self) -> (len: usize)
        ensures
            len == self@.len(),
    {
        self.distances.len()
    }

    /// Whether there is no distance.
    pub fn is_empty(&self) -> (empty: bool)
        ensures
            empty == (self@.len() == 0),
    {
        self.distances.len() == 0
    }

    /// The share of the distribution that lies below `value`.
    pub fn percentile(&self, value: u64) -> (percentile: Result<u64, BridgeError>)
        ensures
            percentile == percentile_of(self@, value),
            percentile matches Ok(share) ==> share <= 2 * UNIT,
    {
        if self.distances.len() == 0 {
            return Err(BridgeError::EmptyReference);
        }
        proof {
            use_type_invariant(self);
        }
        let mut low: usize = 0;
        let mut high: usize = self.distances.len();
        while low < high
            invariant
                low <= high <= self.distances@.len(),
                is_sorted(self.distances@, smallest_first()),
                forall|i: int| 0 <= i < low ==> #[trigger] self.distances@[i] < value,
                forall|i: int|
                    high <= i < self.distances@.len() ==> #[trigger] self.distances@[i] >= value,
            decreases high - low,
        {
            let middle: usize = low + (high - low) / 2;
            if self.distances[middle] < value {
                proof {
                    assert forall|i: int| 0 <= i < middle + 1 implies #[trigger] self.distances@[i]
                        < value by {
                        if i < middle {
                            assert(smallest_first()(
                                self.distances@[i],
                                self.distances@[middle as int],
                            ));
                        }
                    }
                }
                low = middle + 1;
            } else {
                proof {
                    assert forall|i: int|
                        middle <= i < self.distances@.len() implies #[trigger] self.distances@[i]
                        >= value by {
                        if middle < i {
                            assert(smallest_first()(
                                self.distances@[middle as int],
                                self.distances@[i],
                            ));
                        }
                    }
                }
                high = middle;
            }
        }
        let len: usize = self.distances.len();
        let span: usize = if len > 2 { len - 1 } else { 1 };
        proof {
            lemma_count_below(self.distances@, value, low as int, len as int);
        }
        Ok(fraction_units(low as u128, span as u128))
    }
}

/// The frozen form of a distribution.
pub open spec fn frozen_distances(distances: Seq<u64>) -> Result<Seq<u64>, BridgeError> {
    if distances.len() == 0 {
        Err(BridgeError::EmptyReference)
    } else {
        Ok(stable_sort(distances, smallest_first()))
    }
}

// Scoring.

/// Everything that scoring a bridge looks at.
pub struct BridgeModel {
    pub scoring: Scoring,
    pub tracks: Seq<RouteTrack>,
    pub config: BridgeConfig,
    pub reference: Seq<u64>,
}

/// Whether every number names a track, or the first that does not.
pub open spec fn checked_indices(indices: Seq<usize>, track_count: int) -> Result<(), BridgeError> {
    if first_outside(indices, track_count) < indices.len() {
        Err(BridgeError::InvalidTrackIndex(indices[first_outside(indices, track_count)]))
    } else {
        Ok(())
    }
}

/// Checks that every number names a track.
pub fn validate_indices(indices: &[usize], track_count: usize) -> (valid: Result<(), BridgeError>)
    ensures
        valid == checked_indices(indices@, track_count as int),
        valid is Ok == in_range(indices@, track_count as int),
{
    match find_outside(indices, track_count) {
        Some(index) => Err(BridgeError::InvalidTrackIndex(index)),
        None => Ok(()),
    }
}

/// A scoring result as a bridge error.
pub open spec fn as_bridge_error<T>(result: Result<T, ContextualError>) -> Result<T, BridgeError> {
    match result {
        Ok(value) => Ok(value),
        Err(error) => Err(BridgeError::Scoring(error)),
    }
}

/// Whether a track at `inserted` repeats nothing within the windows around it.
pub open spec fn windows_safe_at(
    route: Seq<usize>,
    tracks: Seq<RouteTrack>,
    inserted: int,
    artist_window: usize,
    album_window: usize,
) -> bool {
    forall|other: int|
        0 <= other < route.len() && other != inserted ==> position_safe(
            route,
            tracks,
            inserted,
            artist_window,
            album_window,
            other,
        )
}

/// Whether the tracks at two positions are far enough apart or differ.
pub open spec fn position_safe(
    route: Seq<usize>,
    tracks: Seq<RouteTrack>,
    inserted: int,
    artist_window: usize,
    album_window: usize,
    other: int,
) -> bool {
    let distance = crate::route::gap_between(other, inserted);
    &&& !(distance <= artist_window && artist_clash(tracks, route[other], route[inserted]))
    &&& !(distance <= album_window && album_clash(tracks, route[other], route[inserted]))
}

/// Decides whether a track repeats nothing within the windows around it.
pub fn repeat_windows_safe_at(
    route: &[usize],
    tracks: &[RouteTrack],
    inserted: usize,
    artist_window: usize,
    album_window: usize,
) -> (safe: bool)
    requires
        in_range(route@, tracks@.len() as int),
        inserted < route@.len(),
    ensures
        safe == windows_safe_at(route@, tracks@, inserted as int, artist_window, album_window),
{
    let mut other: usize = 0;
    while other < route.len()
        invariant
            other <= route@.len(),
            in_range(route@, tracks@.len() as int),
            inserted < route@.len(),
            forall|i: int|
                0 <= i < other && i != inserted ==> position_safe(
                    route@,
                    tracks@,
                    inserted as int,
                    artist_window,
                    album_window,
                    i,
                ),
        decreases route@.len() - other,
    {
        if other != inserted {
            let distance: usize = if other > inserted { other - inserted } else { inserted - other };
            let artist_repeat: bool = artist_window > 0 && distance <= artist_window
                && artists_clash(tracks, route[other], route[inserted]);
            let album_repeat: bool = album_window > 0 && distance <= album_window && albums_clash(
                tracks,
                route[other],
                route[inserted],
            );
            if artist_repeat || album_repeat {
                assert(!position_safe(
                    route@,
                    tracks@,
                    inserted as int,
                    artist_window,
                    album_window,
                    other as int,
                ));
                return false;
            }
        }
        other += 1;
    }
    true
}

impl BridgeModel {
    /// The distance of `candidate` from the recent tracks of `prefix`, under a
    /// given matrix or the window's own.
    pub open spec fn distance(
        self,
        prefix: Seq<usize>,
        candidate: usize,
        matrix: Option<ContextMatrixView>,
    ) -> Result<u64, BridgeError> {
        if candidate >= self.tracks.len() {
            Err(BridgeError::InvalidTrackIndex(candidate))
        } else {
            match checked_indices(prefix, self.tracks.len() as int) {
                Err(error) => Err(error),
                Ok(_) => {
                    let seeds = recent(prefix, self.config.seed_limit);
                    as_bridge_error(
                        match matrix {
                            None => context_distance(
                                self.scoring,
                                seeds,
                                self.config.learned_percent,
                                candidate,
                            ),
                            Some(matrix) => matrix_distance(
                                self.scoring,
                                matrix,
                                seeds,
                                candidate,
                            ),
                        },
                    )
                },
            }
        }
    }

    /// The matrix of the seed window at the end of `prefix`.
    pub open spec fn prepared(self, prefix: Seq<usize>) -> Result<ContextMatrixView, BridgeError> {
        match checked_indices(prefix, self.tracks.len() as int) {
            Err(error) => Err(error),
            Ok(_) => {
                let seeds = recent(prefix, self.config.seed_limit);
                match context_prepared(self.scoring, seeds, self.config.learned_percent) {
                    Err(error) => Err(BridgeError::Scoring(error)),
                    Ok(_) => Ok(
                        ContextMatrixView { seeds, learned_percent: self.config.learned_percent },
                    ),
                }
            },
        }
    }

    /// The matrix that a gap is frozen to, if it is.
    pub open spec fn gap_matrix(self, route: Seq<usize>, position: int) -> Result<
        Option<ContextMatrixView>,
        BridgeError,
    > {
        if self.config.gap_context_mode == GapContextMode::Rolling {
            Ok(None)
        } else if position == 0 || position >= route.len() {
            Err(BridgeError::InvalidGap)
        } else {
            match self.prepared(route.take(position)) {
                Err(error) => Err(error),
                Ok(matrix) => Ok(Some(matrix)),
            }
        }
    }

    /// How the transition into `position` does as it stands.
    pub open spec fn gap(self, route: Seq<usize>, position: usize) -> Result<
        BridgeGap,
        BridgeError,
    > {
        match checked_indices(route, self.tracks.len() as int) {
            Err(error) => Err(error),
            Ok(_) => if position == 0 || position >= route.len() {
                Err(BridgeError::InvalidGap)
            } else {
                match self.distance(route.take(position as int), route[position as int], None) {
                    Err(error) => Err(error),
                    Ok(direct_distance) => match percentile_of(self.reference, direct_distance) {
                        Err(error) => Err(error),
                        Ok(direct_percentile) => Ok(
                            BridgeGap { position, direct_distance, direct_percentile },
                        ),
                    },
                }
            },
        }
    }

    /// Whether `candidate` is new to `route` and repeats nothing at `position`.
    pub open spec fn insert_safe(self, route: Seq<usize>, position: int, candidate: usize) -> bool {
        !route.contains(candidate) && windows_safe_at(
            route.insert(position, candidate),
            self.tracks,
            position,
            self.config.artist_window,
            self.config.album_window,
        )
    }

    /// The verdict on a candidate whose two legs have been measured.
    pub open spec fn judged(
        self,
        route: Seq<usize>,
        position: int,
        candidate: usize,
        left_distance: u64,
        right_distance: u64,
        left_percentile: u64,
        right_percentile: u64,
    ) -> BridgeCandidateEvaluation {
        let max_percentile = if left_percentile > right_percentile {
            left_percentile
        } else {
            right_percentile
        };
        let detour_percentile = (left_percentile + right_percentile) as u64;
        let repeat_safe = self.insert_safe(route, position, candidate);
        BridgeCandidateEvaluation {
            candidate,
            left_distance,
            right_distance,
            left_percentile,
            right_percentile,
            max_percentile,
            detour_percentile,
            repeat_safe,
            accepted: repeat_safe && max_percentile <= self.config.max_leg_percentile
                && detour_percentile <= self.config.max_detour_percentile,
        }
    }

    /// How `candidate` does in front of the track at `position`.
    pub open spec fn evaluation(
        self,
        route: Seq<usize>,
        position: int,
        candidate: usize,
        matrix: Option<ContextMatrixView>,
    ) -> Result<BridgeCandidateEvaluation, BridgeError> {
        match checked_indices(route, self.tracks.len() as int) {
            Err(error) => Err(error),
            Ok(_) => if candidate >= self.tracks.len() {
                Err(BridgeError::InvalidTrackIndex(candidate))
            } else if position == 0 || position >= route.len() {
                Err(BridgeError::InvalidGap)
            } else {
                match self.distance(route.take(position), candidate, matrix) {
                    Err(error) => Err(error),
                    Ok(left) => match self.distance(
                        route.take(position).push(candidate),
                        route[position],
                        matrix,
                    ) {
                        Err(error) => Err(error),
                        Ok(right) => match percentile_of(self.reference, left) {
                            Err(error) => Err(error),
                            Ok(left_share) => match percentile_of(self.reference, right) {
                                Err(error) => Err(error),
                                Ok(right_share) => Ok(
                                    self.judged(
                                        route,
                                        position,
                                        candidate,
                                        left,
                                        right,
                                        left_share,
                                        right_share,
                                    ),
                                ),
                            },
                        },
                    },
                }
            },
        }
    }

    /// The evaluations of the candidates from `at` on, behind those in `done`.
    pub open spec fn evaluations_from(
        self,
        route: Seq<usize>,
        position: int,
        candidates: Seq<usize>,
        matrix: Option<ContextMatrixView>,
        at: int,
        done: Seq<BridgeCandidateEvaluation>,
    ) -> Result<Seq<BridgeCandidateEvaluation>, BridgeError>
        decreases candidates.len() - at,
    {
        if at >= candidates.len() {
            Ok(done)
        } else {
            match self.evaluation(route, position, candidates[at], matrix) {
                Err(error) => Err(error),
                Ok(evaluation) => self.evaluations_from(
                    route,
                    position,
                    candidates,
                    matrix,
                    at + 1,
                    done.push(evaluation),
                ),
            }
        }
    }

    /// The candidates from the best bridge to the worst.
    pub open spec fn ranked(
        self,
        route: Seq<usize>,
        position: int,
        candidates: Seq<usize>,
        matrix: Option<ContextMatrixView>,
    ) -> Result<Seq<BridgeCandidateEvaluation>, BridgeError> {
        match checked_indices(route, self.tracks.len() as int) {
            Err(error) => Err(error),
            Ok(_) => match checked_indices(candidates, self.tracks.len() as int) {
                Err(error) => Err(error),
                Ok(_) => if position == 0 || position >= route.len() {
                    Err(BridgeError::InvalidGap)
                } else if matrix is None && self.prepared(route.take(position)) is Err {
                    Err(self.prepared(route.take(position))->Err_0)
                } else {
                    match self.evaluations_from(route, position, candidates, matrix, 0, seq![]) {
                        Err(error) => Err(error),
                        Ok(evaluations) => Ok(stable_sort(evaluations, best_bridge_first())),
                    }
                },
            },
        }
    }

    /// The best `limit` candidates, or all of them when there are no more.
    pub open spec fn shortlist(
        self,
        route: Seq<usize>,
        position: int,
        candidates: Seq<usize>,
        limit: int,
    ) -> Result<Seq<usize>, BridgeError> {
        match checked_indices(route, self.tracks.len() as int) {
            Err(error) => Err(error),
            Ok(_) => match checked_indices(candidates, self.tracks.len() as int) {
                Err(error) => Err(error),
                Ok(_) => if position == 0 || position >= route.len() {
                    Err(BridgeError::InvalidGap)
                } else if limit == 0 || candidates.len() == 0 {
                    Ok(seq![])
                } else if candidates.len() <= limit {
                    Ok(candidates)
                } else {
                    match self.ranked(route, position, candidates, None) {
                        Err(error) => Err(error),
                        Ok(ranked) => Ok(Seq::new(limit as nat, |i: int| ranked[i].candidate)),
                    }
                },
            },
        }
    }

    /// The distances of the candidates from `at` on to the positions from
    /// `position` on, behind those in `done`. A candidate inside the seed window
    /// is left out.
    pub open spec fn reference_from(
        self,
        route: Seq<usize>,
        candidates: Seq<usize>,
        position: int,
        at: int,
        done: Seq<u64>,
    ) -> Result<Seq<u64>, BridgeError>
        decreases route.len() - position, candidates.len() - at,
    {
        if position >= route.len() {
            Ok(done)
        } else if at >= candidates.len() {
            self.reference_from(route, candidates, position + 1, 0, done)
        } else if recent(route.take(position), self.config.seed_limit).contains(candidates[at]) {
            self.reference_from(route, candidates, position, at + 1, done)
        } else {
            match self.distance(route.take(position), candidates[at], None) {
                Err(error) => Err(error),
                Ok(distance) => self.reference_from(
                    route,
                    candidates,
                    position,
                    at + 1,
                    done.push(distance),
                ),
            }
        }
    }

    /// The reference distribution of a route.
    pub open spec fn frozen_reference(self, route: Seq<usize>, candidates: Seq<usize>) -> Result<
        Seq<u64>,
        BridgeError,
    > {
        match checked_indices(route, self.tracks.len() as int) {
            Err(error) => Err(error),
            Ok(_) => match checked_indices(candidates, self.tracks.len() as int) {
                Err(error) => Err(error),
                Ok(_) => if route.len() < 2 || self.config.seed_limit == 0 {
                    Err(BridgeError::EmptyReference)
                } else {
                    match self.reference_from(route, candidates, 1, 0, seq![]) {
                        Err(error) => Err(error),
                        Ok(distances) => frozen_distances(distances),
                    }
                },
            },
        }
    }

    /// `route` with a track put at one of its ends.
    pub open spec fn extended(
        self,
        route: Seq<usize>,
        slot: EndpointSlot,
        candidate: usize,
    ) -> Seq<usize> {
        match slot {
            EndpointSlot::Opening => route.insert(0, candidate),
            EndpointSlot::Closing => route.push(candidate),
        }
    }

    /// How `candidate` does at one end of a route.
    pub open spec fn endpoint_evaluation(
        self,
        route: Seq<usize>,
        slot: EndpointSlot,
        candidate: usize,
    ) -> Result<EndpointCandidateEvaluation, BridgeError> {
        match checked_indices(route, self.tracks.len() as int) {
            Err(error) => Err(error),
            Ok(_) => if candidate >= self.tracks.len() {
                Err(BridgeError::InvalidTrackIndex(candidate))
            } else if route.len() == 0 {
                Err(BridgeError::InvalidGap)
            } else {
                let measured = match slot {
                    EndpointSlot::Opening => self.distance(seq![candidate], route[0], None),
                    EndpointSlot::Closing => self.distance(route, candidate, None),
                };
                match measured {
                    Err(error) => Err(error),
                    Ok(distance) => match percentile_of(self.reference, distance) {
                        Err(error) => Err(error),
                        Ok(percentile) => {
                            let inserted = match slot {
                                EndpointSlot::Opening => 0,
                                EndpointSlot::Closing => route.len() as int,
                            };
                            let repeat_safe = !route.contains(candidate) && windows_safe_at(
                                self.extended(route, slot, candidate),
                                self.tracks,
                                inserted,
                                self.config.artist_window,
                                self.config.album_window,
                            );
                            Ok(
                                EndpointCandidateEvaluation {
                                    candidate,
                                    distance,
                                    percentile,
                                    repeat_safe,
                                    accepted: repeat_safe && percentile
                                        <= self.config.max_leg_percentile,
                                },
                            )
                        },
                    },
                }
            },
        }
    }

    /// The endpoint evaluations from `at` on, behind those in `done`.
    pub open spec fn endpoint_evaluations_from(
        self,
        route: Seq<usize>,
        slot: EndpointSlot,
        candidates: Seq<usize>,
        at: int,
        done: Seq<EndpointCandidateEvaluation>,
    ) -> Result<Seq<EndpointCandidateEvaluation>, BridgeError>
        decreases candidates.len() - at,
    {
        if at >= candidates.len() {
            Ok(done)
        } else {
            match self.endpoint_evaluation(route, slot, candidates[at]) {
                Err(error) => Err(error),
                Ok(evaluation) => self.endpoint_evaluations_from(
                    route,
                    slot,
                    candidates,
                    at + 1,
                    done.push(evaluation),
                ),
            }
        }
    }

    /// The candidates from the best endpoint to the worst.
    pub open spec fn ranked_endpoints(
        self,
        route: Seq<usize>,
        slot: EndpointSlot,
        candidates: Seq<usize>,
    ) -> Result<Seq<EndpointCandidateEvaluation>, BridgeError> {
        match self.endpoint_evaluations_from(route, slot, candidates, 0, seq![]) {
            Err(error) => Err(error),
            Ok(evaluations) => Ok(stable_sort(evaluations, best_endpoint_first())),
        }
    }
}

/// Accepted bridges first, then by the worse leg, the detour and the number.
pub open spec fn best_bridge_first() -> spec_fn(
    BridgeCandidateEvaluation,
    BridgeCandidateEvaluation,
) -> bool {
    |a: BridgeCandidateEvaluation, b: BridgeCandidateEvaluation| bridge_at_least(a, b)
}

/// Whether bridge `a` ranks no later than bridge `b`.
pub open spec fn bridge_at_least(
    a: BridgeCandidateEvaluation,
    b: BridgeCandidateEvaluation,
) -> bool {
    if a.accepted != b.accepted {
        a.accepted
    } else if a.max_percentile != b.max_percentile {
        a.max_percentile < b.max_percentile
    } else if a.detour_percentile != b.detour_percentile {
        a.detour_percentile < b.detour_percentile
    } else {
        a.candidate <= b.candidate
    }
}

/// Accepted endpoints first, then by percentile and number.
pub open spec fn best_endpoint_first() -> spec_fn(
    EndpointCandidateEvaluation,
    EndpointCandidateEvaluation,
) -> bool {
    |a: EndpointCandidateEvaluation, b: EndpointCandidateEvaluation| endpoint_at_least(a, b)
}

/// Whether endpoint `a` ranks no later than endpoint `b`.
pub open spec fn endpoint_at_least(
    a: EndpointCandidateEvaluation,
    b: EndpointCandidateEvaluation,
) -> bool {
    if a.accepted != b.accepted {
        a.accepted
    } else if a.percentile != b.percentile {
        a.percentile < b.percentile
    } else {
        a.candidate <= b.candidate
    }
}

// Computing scores.

/// What scoring a candidate needs besides the tracks.
pub struct CandidateScoringContext<'a, P, D> {
    pub scorer: &'a AdaptiveScorer<P, D>,
    pub config: &'a BridgeConfig,
    pub reference: &'a FrozenReference,
    pub frozen_matrix: Option<&'a ContextMatrix>,
}

/// What scoring a shortlist needs.
pub struct ShortlistScoringContext<'a, P, D> {
    pub tracks: &'a [RouteTrack],
    pub scorer: &'a AdaptiveScorer<P, D>,
    pub config: &'a BridgeConfig,
    pub reference: &'a FrozenReference,
}

/// The abstract value of a matrix that may be given.
pub open spec fn matrix_view(matrix: Option<&ContextMatrix>) -> Option<ContextMatrixView> {
    match matrix {
        None => None,
        Some(matrix) => Some(matrix@),
    }
}

impl<
    'a,
    P: Fn(&[usize], u16) -> Result<(), ContextualError>,
    D: Fn(&[usize], u16, &[usize], usize) -> u64,
> CandidateScoringContext<'a, P, D> {
    /// What this context means for a set of tracks.
    pub open spec fn model(&self, tracks: Seq<RouteTrack>) -> BridgeModel {
        BridgeModel {
            scoring: self.scorer.scoring(),
            tracks,
            config: *self.config,
            reference: self.reference@,
        }
    }

    /// The matrix that the gap is frozen to, if it is.
    pub open spec fn matrix(&self) -> Option<ContextMatrixView> {
        matrix_view(self.frozen_matrix)
    }
}

/// A model without a reference distribution, for distances alone.
pub open spec fn distance_model(
    scoring: Scoring,
    tracks: Seq<RouteTrack>,
    config: BridgeConfig,
) -> BridgeModel {
    BridgeModel { scoring, tracks, config, reference: seq![] }
}

/// Measures a candidate against the end of a prefix.
pub fn contextual_distance<
    P: Fn(&[usize], u16) -> Result<(), ContextualError>,
    D: Fn(&[usize], u16, &[usize], usize) -> u64,
>(
    prefix: &[usize],
    candidate: usize,
    tracks: &[RouteTrack],
    scorer: &AdaptiveScorer<P, D>,
    config: &BridgeConfig,
) -> (distance: Result<u64, BridgeError>)
    requires
        scorer.valid(),
    ensures
        distance == distance_model(scorer.scoring(), tracks@, *config).distance(
            prefix@,
            candidate,
            None,
        ),
{
    if candidate >= tracks.len() {
        return Err(BridgeError::InvalidTrackIndex(candidate));
    }
    match validate_indices(prefix, tracks.len()) {
        Err(error) => Err(error),
        Ok(_) => match adaptive_distance_from_seeds(
            recent_window(prefix, config.seed_limit),
            candidate,
            scorer,
            config.learned_percent,
        ) {
            Ok(distance) => Ok(distance),
            Err(error) => Err(BridgeError::Scoring(error)),
        },
    }
}

/// Measures a candidate against the end of a prefix under a given matrix.
pub fn contextual_distance_with_matrix<
    P: Fn(&[usize], u16) -> Result<(), ContextualError>,
    D: Fn(&[usize], u16, &[usize], usize) -> u64,
>(
    prefix: &[usize],
    candidate: usize,
    tracks: &[RouteTrack],
    scorer: &AdaptiveScorer<P, D>,
    matrix: &ContextMatrix,
    config: &BridgeConfig,
) -> (distance: Result<u64, BridgeError>)
    requires
        scorer.valid(),
    ensures
        distance == distance_model(scorer.scoring(), tracks@, *config).distance(
            prefix@,
            candidate,
            Some(matrix@),
        ),
{
    if candidate >= tracks.len() {
        return Err(BridgeError::InvalidTrackIndex(candidate));
    }
    match validate_indices(prefix, tracks.len()) {
        Err(error) => Err(error),
        Ok(_) => match adaptive_distance_with_matrix(
            recent_window(prefix, config.seed_limit),
            candidate,
            scorer,
            matrix,
        ) {
            Ok(distance) => Ok(distance),
            Err(error) => Err(BridgeError::Scoring(error)),
        },
    }
}

/// Measures a candidate under a given matrix or the window's own.
pub fn distance_in_context<
    P: Fn(&[usize], u16) -> Result<(), ContextualError>,
    D: Fn(&[usize], u16, &[usize], usize) -> u64,
>(
    prefix: &[usize],
    candidate: usize,
    tracks: &[RouteTrack],
    scorer: &AdaptiveScorer<P, D>,
    matrix: Option<&ContextMatrix>,
    config: &BridgeConfig,
) -> (distance: Result<u64, BridgeError>)
    requires
        scorer.valid(),
    ensures
        distance == distance_model(scorer.scoring(), tracks@, *config).distance(
            prefix@,
            candidate,
            matrix_view(matrix),
        ),
{
    match matrix {
        Some(matrix) => contextual_distance_with_matrix(
            prefix,
            candidate,
            tracks,
            scorer,
            matrix,
            config,
        ),
        None => contextual_distance(prefix, candidate, tracks, scorer, config),
    }
}

/// Selects the matrix for the end of a prefix.
fn prepared_matrix<
    P: Fn(&[usize], u16) -> Result<(), ContextualError>,
    D: Fn(&[usize], u16, &[usize], usize) -> u64,
>(
    prefix: &[usize],
    tracks: &[RouteTrack],
    scorer: &AdaptiveScorer<P, D>,
    config: &BridgeConfig,
) -> (matrix: Result<ContextMatrix, BridgeError>)
    requires
        scorer.valid(),
    ensures
        match distance_model(scorer.scoring(), tracks@, *config).prepared(prefix@) {
            Ok(view) => matrix is Ok && matrix->Ok_0@ == view,
            Err(error) => matrix is Err && matrix->Err_0 == error,
        },
{
    match validate_indices(prefix, tracks.len()) {
        Err(error) => Err(error),
        Ok(_) => match prepare_adaptive_context(
            recent_window(prefix, config.seed_limit),
            scorer,
            config.learned_percent,
        ) {
            Ok(context) => Ok(context.into_matrix()),
            Err(error) => Err(BridgeError::Scoring(error)),
        },
    }
}

/// Selects the matrix that a gap is frozen to; a rolling context has none.
pub fn gap_context_matrix<
    P: Fn(&[usize], u16) -> Result<(), ContextualError>,
    D: Fn(&[usize], u16, &[usize], usize) -> u64,
>(
    route: &[usize],
    position: usize,
    tracks: &[RouteTrack],
    scorer: &AdaptiveScorer<P, D>,
    config: &BridgeConfig,
) -> (matrix: Result<Option<ContextMatrix>, BridgeError>)
    requires
        scorer.valid(),
    ensures
        match distance_model(scorer.scoring(), tracks@, *config).gap_matrix(
            route@,
            position as int,
        ) {
            Ok(view) => matrix is Ok && matrix_of(matrix->Ok_0) == view,
            Err(error) => matrix is Err && matrix->Err_0 == error,
        },
{
    match config.gap_context_mode {
        GapContextMode::Rolling => {
            return Ok(None);
        },
        GapContextMode::Frozen => {},
    }
    if position == 0 || position >= route.len() {
        return Err(BridgeError::InvalidGap);
    }
    let prefix = vstd::slice::slice_subrange(route, 0, position);
    assert(prefix@ =~= route@.take(position as int));
    match prepared_matrix(prefix, tracks, scorer, config) {
        Ok(matrix) => Ok(Some(matrix)),
        Err(error) => Err(error),
    }
}

/// The abstract value of an owned matrix that may be given.
pub open spec fn matrix_of(matrix: Option<ContextMatrix>) -> Option<ContextMatrixView> {
    match matrix {
        None => None,
        Some(matrix) => Some(matrix@),
    }
}

/// Measures the transition into a position as it stands.
pub fn evaluate_gap<
    P: Fn(&[usize], u16) -> Result<(), ContextualError>,
    D: Fn(&[usize], u16, &[usize], usize) -> u64,
>(
    route: &[usize],
    position: usize,
    tracks: &[RouteTrack],
    scorer: &AdaptiveScorer<P, D>,
    config: &BridgeConfig,
    reference: &FrozenReference,
) -> (gap: Result<BridgeGap, BridgeError>)
    requires
        scorer.valid(),
    ensures
        gap == (BridgeModel {
            scoring: scorer.scoring(),
            tracks: tracks@,
            config: *config,
            reference: reference@,
        }).gap(route@, position),
{
    match validate_indices(route, tracks.len()) {
        Err(error) => {
            return Err(error);
        },
        Ok(_) => {},
    }
    if position == 0 || position >= route.len() {
        return Err(BridgeError::InvalidGap);
    }
    let prefix = vstd::slice::slice_subrange(route, 0, position);
    assert(prefix@ =~= route@.take(position as int));
    match contextual_distance(prefix, route[position], tracks, scorer, config) {
        Err(error) => Err(error),
        Ok(direct_distance) => match reference.percentile(direct_distance) {
            Err(error) => Err(error),
            Ok(direct_percentile) => Ok(
                BridgeGap { position, direct_distance, direct_percentile },
            ),
        },
    }
}

/// Scores one candidate in front of a position, with a rolling context.
pub fn evaluate_candidate<
    P: Fn(&[usize], u16) -> Result<(), ContextualError>,
    D: Fn(&[usize], u16, &[usize], usize) -> u64,
>(
    route: &[usize],
    position: usize,
    candidate: usize,
    tracks: &[RouteTrack],
    scorer: &AdaptiveScorer<P, D>,
    config: &BridgeConfig,
    reference: &FrozenReference,
) -> (evaluation: Result<BridgeCandidateEvaluation, BridgeError>)
    requires
        scorer.valid(),
        route@.len() < usize::MAX,
    ensures
        evaluation == (BridgeModel {
            scoring: scorer.scoring(),
            tracks: tracks@,
            config: *config,
            reference: reference@,
        }).evaluation(route@, position as int, candidate, None),
{
    let context = CandidateScoringContext { scorer, config, reference, frozen_matrix: None };
    evaluate_candidate_in_context(route, position, candidate, tracks, &context)
}

/// Scores one candidate in front of a position.
pub fn evaluate_candidate_in_context<
    P: Fn(&[usize], u16) -> Result<(), ContextualError>,
    D: Fn(&[usize], u16, &[usize], usize) -> u64,
>(
    route: &[usize],
    position: usize,
    candidate: usize,
    tracks: &[RouteTrack],
    context: &CandidateScoringContext<'_, P, D>,
) -> (evaluation: Result<BridgeCandidateEvaluation, BridgeError>)
    requires
        context.scorer.valid(),
        route@.len() < usize::MAX,
    ensures
        evaluation == context.model(tracks@).evaluation(
            route@,
            position as int,
            candidate,
            context.matrix(),
        ),
{
    match validate_indices(route, tracks.len()) {
        Err(error) => {
            return Err(error);
        },
        Ok(_) => {},
    }
    if candidate >= tracks.len() {
        return Err(BridgeError::InvalidTrackIndex(candidate));
    }
    if position == 0 || position >= route.len() {
        return Err(BridgeError::InvalidGap);
    }
    let mut tentative = copied(route);
    tentative.insert(position, candidate);
    let left_prefix = vstd::slice::slice_subrange(route, 0, position);
    let right_prefix = vstd::slice::slice_subrange(tentative.as_slice(), 0, position + 1);
    proof {
        assert(left_prefix@ =~= route@.take(position as int));
        assert(right_prefix@ =~= route@.take(position as int).push(candidate));
        assert(in_range(tentative@, tracks@.len() as int));
    }
    let left_distance: u64 = match distance_in_context(
        left_prefix,
        candidate,
        tracks,
        context.scorer,
        context.frozen_matrix,
        context.config,
    ) {
        Err(error) => {
            return Err(error);
        },
        Ok(distance) => distance,
    };
    let right_distance: u64 = match distance_in_context(
        right_prefix,
        route[position],
        tracks,
        context.scorer,
        context.frozen_matrix,
        context.config,
    ) {
        Err(error) => {
            return Err(error);
        },
        Ok(distance) => distance,
    };
    let left_percentile: u64 = match context.reference.percentile(left_distance) {
        Err(error) => {
            return Err(error);
        },
        Ok(percentile) => percentile,
    };
    let right_percentile: u64 = match context.reference.percentile(right_distance) {
        Err(error) => {
            return Err(error);
        },
        Ok(percentile) => percentile,
    };
    let max_percentile: u64 = if left_percentile > right_percentile {
        left_percentile
    } else {
        right_percentile
    };
    let detour_percentile: u64 = left_percentile + right_percentile;
    let repeat_safe: bool = !holds(route, candidate) && repeat_windows_safe_at(
        tentative.as_slice(),
        tracks,
        position,
        context.config.artist_window,
        context.config.album_window,
    );
    Ok(
        BridgeCandidateEvaluation {
            candidate,
            left_distance,
            right_distance,
            left_percentile,
            right_percentile,
            max_percentile,
            detour_percentile,
            repeat_safe,
            accepted: repeat_safe && max_percentile <= context.config.max_leg_percentile
                && detour_percentile <= context.config.max_detour_percentile,
        },
    )
}

/// Ranks candidates in front of a position, with a rolling context.
pub fn rank_candidates<
    P: Fn(&[usize], u16) -> Result<(), ContextualError>,
    D: Fn(&[usize], u16, &[usize], usize) -> u64,
>(
    route: &[usize],
    position: usize,
    candidates: &[usize],
    tracks: &[RouteTrack],
    scorer: &AdaptiveScorer<P, D>,
    config: &BridgeConfig,
    reference: &FrozenReference,
) -> (ranked: Result<Vec<BridgeCandidateEvaluation>, BridgeError>)
    requires
        scorer.valid(),
        route@.len() < usize::MAX,
    ensures
        match (BridgeModel {
            scoring: scorer.scoring(),
            tracks: tracks@,
            config: *config,
            reference: reference@,
        }).ranked(route@, position as int, candidates@, None) {
            Ok(evaluations) => ranked is Ok && ranked->Ok_0@ == evaluations,
            Err(error) => ranked is Err && ranked->Err_0 == error,
        },
{
    let context = CandidateScoringContext { scorer, config, reference, frozen_matrix: None };
    rank_candidates_in_context(route, position, candidates, tracks, &context)
}

/// Ranks candidates in front of a position.
pub fn rank_candidates_in_context<
    P: Fn(&[usize], u16) -> Result<(), ContextualError>,
    D: Fn(&[usize], u16, &[usize], usize) -> u64,
>(
    route: &[usize],
    position: usize,
    candidates: &[usize],
    tracks: &[RouteTrack],
    context: &CandidateScoringContext<'_, P, D>,
) -> (ranked: Result<Vec<BridgeCandidateEvaluation>, BridgeError>)
    requires
        context.scorer.valid(),
        route@.len() < usize::MAX,
    ensures
        match context.model(tracks@).ranked(
            route@,
            position as int,
            candidates@,
            context.matrix(),
        ) {
            Ok(evaluations) => ranked is Ok && ranked->Ok_0@ == evaluations,
            Err(error) => ranked is Err && ranked->Err_0 == error,
        },
{
    match validate_indices(route, tracks.len()) {
        Err(error) => {
            return Err(error);
        },
        Ok(_) => {},
    }
    match validate_indices(candidates, tracks.len()) {
        Err(error) => {
            return Err(error);
        },
        Ok(_) => {},
    }
    if position == 0 || position >= route.len() {
        return Err(BridgeError::InvalidGap);
    }
    if context.frozen_matrix.is_none() {
        let prefix = vstd::slice::slice_subrange(route, 0, position);
        assert(prefix@ =~= route@.take(position as int));
        match prepared_matrix(prefix, tracks, context.scorer, context.config) {
            Err(error) => {
                return Err(error);
            },
            Ok(_) => {},
        }
    }
    let mut evaluations: Vec<BridgeCandidateEvaluation> = Vec::new();
    let mut at: usize = 0;
    let ghost model = context.model(tracks@);
    while at < candidates.len()
        invariant
            context.scorer.valid(),
            route@.len() < usize::MAX,
            at <= candidates@.len(),
            model == context.model(tracks@),
            0 < position < route@.len(),
            checked_indices(route@, tracks@.len() as int) is Ok,
            checked_indices(candidates@, tracks@.len() as int) is Ok,
            !(context.matrix() is None && model.prepared(route@.take(position as int)) is Err),
            model.evaluations_from(route@, position as int, candidates@, context.matrix(), 0, seq![])
                == model.evaluations_from(
                route@,
                position as int,
                candidates@,
                context.matrix(),
                at as int,
                evaluations@,
            ),
        decreases candidates@.len() - at,
    {
        match evaluate_candidate_in_context(route, position, candidates[at], tracks, context) {
            Err(error) => {
                return Err(error);
            },
            Ok(evaluation) => {
                evaluations.push(evaluation);
            },
        }
        at += 1;
    }
    let leq = |a: &BridgeCandidateEvaluation, b: &BridgeCandidateEvaluation| -> (first: bool)
        ensures
            first == best_bridge_first()(*a, *b),
        {
            if a.accepted != b.accepted {
                a.accepted
            } else if a.max_percentile != b.max_percentile {
                a.max_percentile < b.max_percentile
            } else if a.detour_percentile != b.detour_percentile {
                a.detour_percentile < b.detour_percentile
            } else {
                a.candidate <= b.candidate
            }
        };
    Ok(sort_by(evaluations, &leq, Ghost(best_bridge_first())))
}

/// Narrows candidates down to the best ones for a gap.
pub fn shortlist_candidates<
    P: Fn(&[usize], u16) -> Result<(), ContextualError>,
    D: Fn(&[usize], u16, &[usize], usize) -> u64,
>(
    route: &[usize],
    position: usize,
    candidates: &[usize],
    limit: usize,
    context: ShortlistScoringContext<'_, P, D>,
) -> (shortlist: Result<Vec<usize>, BridgeError>)
    requires
        context.scorer.valid(),
        route@.len() < usize::MAX,
    ensures
        match (BridgeModel {
            scoring: context.scorer.scoring(),
            tracks: context.tracks@,
            config: *context.config,
            reference: context.reference@,
        }).shortlist(route@, position as int, candidates@, limit as int) {
            Ok(kept) => shortlist is Ok && shortlist->Ok_0@ == kept,
            Err(error) => shortlist is Err && shortlist->Err_0 == error,
        },
{
    match validate_indices(route, context.tracks.len()) {
        Err(error) => {
            return Err(error);
        },
        Ok(_) => {},
    }
    match validate_indices(candidates, context.tracks.len()) {
        Err(error) => {
            return Err(error);
        },
        Ok(_) => {},
    }
    if position == 0 || position >= route.len() {
        return Err(BridgeError::InvalidGap);
    }
    let mut kept: Vec<usize> = Vec::new();
    if limit == 0 || candidates.len() == 0 {
        assert(kept@ =~= seq![]);
        return Ok(kept);
    }
    if candidates.len() <= limit {
        return Ok(copied(candidates));
    }
    let ghost model = BridgeModel {
        scoring: context.scorer.scoring(),
        tracks: context.tracks@,
        config: *context.config,
        reference: context.reference@,
    };
    proof {
        lemma_ranked_members(model, route@, position as int, candidates@, None);
    }
    match rank_candidates(
        route,
        position,
        candidates,
        context.tracks,
        context.scorer,
        context.config,
        context.reference,
    ) {
        Err(error) => Err(error),
        Ok(ranked) => {
            let mut at: usize = 0;
            while at < limit
                invariant
                    at <= limit <= ranked@.len(),
                    kept@ =~= Seq::new(at as nat, |i: int| ranked@[i].candidate),
                decreases limit - at,
            {
                kept.push(ranked[at].candidate);
                at += 1;
            }
            Ok(kept)
        },
    }
}

/// Freezes the distances of a set of tracks from every position of a route.
pub fn build_frozen_reference<
    P: Fn(&[usize], u16) -> Result<(), ContextualError>,
    D: Fn(&[usize], u16, &[usize], usize) -> u64,
>(
    route: &[usize],
    original_candidates: &[usize],
    tracks: &[RouteTrack],
    scorer: &AdaptiveScorer<P, D>,
    config: &BridgeConfig,
) -> (reference: Result<FrozenReference, BridgeError>)
    requires
        scorer.valid(),
    ensures
        match distance_model(scorer.scoring(), tracks@, *config).frozen_reference(
            route@,
            original_candidates@,
        ) {
            Ok(distances) => reference is Ok && reference->Ok_0@ == distances,
            Err(error) => reference is Err && reference->Err_0 == error,
        },
{
    match validate_indices(route, tracks.len()) {
        Err(error) => {
            return Err(error);
        },
        Ok(_) => {},
    }
    match validate_indices(original_candidates, tracks.len()) {
        Err(error) => {
            return Err(error);
        },
        Ok(_) => {},
    }
    if route.len() < 2 || config.seed_limit == 0 {
        return Err(BridgeError::EmptyReference);
    }
    let ghost model = distance_model(scorer.scoring(), tracks@, *config);
    let mut distances: Vec<u64> = Vec::new();
    let mut position: usize = 1;
    while position < route.len()
        invariant
            scorer.valid(),
            1 <= position <= route@.len(),
            model == distance_model(scorer.scoring(), tracks@, *config),
            model.frozen_reference(route@, original_candidates@) == (match model.reference_from(
                route@,
                original_candidates@,
                position as int,
                0,
                distances@,
            ) {
                Err(error) => Err(error),
                Ok(distances) => frozen_distances(distances),
            }),
        decreases route@.len() - position,
    {
        let prefix = vstd::slice::slice_subrange(route, 0, position);
        assert(prefix@ =~= route@.take(position as int));
        let window = recent_window(prefix, config.seed_limit);
        let mut at: usize = 0;
        while at < original_candidates.len()
            invariant
                scorer.valid(),
                1 <= position < route@.len(),
                at <= original_candidates@.len(),
                prefix@ == route@.take(position as int),
                window@ == recent(prefix@, config.seed_limit),
                model == distance_model(scorer.scoring(), tracks@, *config),
                model.frozen_reference(route@, original_candidates@) == (
                match model.reference_from(
                    route@,
                    original_candidates@,
                    position as int,
                    at as int,
                    distances@,
                ) {
                    Err(error) => Err(error),
                    Ok(distances) => frozen_distances(distances),
                }),
            decreases original_candidates@.len() - at,
        {
            let candidate: usize = original_candidates[at];
            if !holds(window, candidate) {
                match contextual_distance(prefix, candidate, tracks, scorer, config) {
                    Err(error) => {
                        return Err(error);
                    },
                    Ok(distance) => {
                        distances.push(distance);
                    },
                }
            }
            at += 1;
        }
        position += 1;
    }
    FrozenReference::from_distances(distances)
}

/// Scores one candidate at one end of a route.
pub fn evaluate_endpoint_candidate<
    P: Fn(&[usize], u16) -> Result<(), ContextualError>,
    D: Fn(&[usize], u16, &[usize], usize) -> u64,
>(
    route: &[usize],
    slot: EndpointSlot,
    candidate: usize,
    tracks: &[RouteTrack],
    scorer: &AdaptiveScorer<P, D>,
    config: &BridgeConfig,
    reference: &FrozenReference,
) -> (evaluation: Result<EndpointCandidateEvaluation, BridgeError>)
    requires
        scorer.valid(),
        route@.len() < usize::MAX,
    ensures
        evaluation == (BridgeModel {
            scoring: scorer.scoring(),
            tracks: tracks@,
            config: *config,
            reference: reference@,
        }).endpoint_evaluation(route@, slot, candidate),
{
    match validate_indices(route, tracks.len()) {
        Err(error) => {
            return Err(error);
        },
        Ok(_) => {},
    }
    if candidate >= tracks.len() {
        return Err(BridgeError::InvalidTrackIndex(candidate));
    }
    if route.len() == 0 {
        return Err(BridgeError::InvalidGap);
    }
    let mut tentative = copied(route);
    let measured = match slot {
        EndpointSlot::Opening => {
            tentative.insert(0, candidate);
            let opening = vstd::slice::slice_subrange(tentative.as_slice(), 0, 1);
            assert(opening@ =~= seq![candidate]);
            contextual_distance(opening, route[0], tracks, scorer, config)
        },
        EndpointSlot::Closing => {
            tentative.push(candidate);
            contextual_distance(route, candidate, tracks, scorer, config)
        },
    };
    let distance: u64 = match measured {
        Err(error) => {
            return Err(error);
        },
        Ok(distance) => distance,
    };
    let percentile: u64 = match reference.percentile(distance) {
        Err(error) => {
            return Err(error);
        },
        Ok(percentile) => percentile,
    };
    let inserted: usize = match slot {
        EndpointSlot::Opening => 0,
        EndpointSlot::Closing => tentative.len() - 1,
    };
    assert(in_range(tentative@, tracks@.len() as int));
    let repeat_safe: bool = !holds(route, candidate) && repeat_windows_safe_at(
        tentative.as_slice(),
        tracks,
        inserted,
        config.artist_window,
        config.album_window,
    );
    Ok(
        EndpointCandidateEvaluation {
            candidate,
            distance,
            percentile,
            repeat_safe,
            accepted: repeat_safe && percentile <= config.max_leg_percentile,
        },
    )
}

/// Ranks candidates for one end of a route.
pub fn rank_endpoint_candidates<
    P: Fn(&[usize], u16) -> Result<(), ContextualError>,
    D: Fn(&[usize], u16, &[usize], usize) -> u64,
>(
    route: &[usize],
    slot: EndpointSlot,
    candidates: &[usize],
    tracks: &[RouteTrack],
    scorer: &AdaptiveScorer<P, D>,
    config: &BridgeConfig,
    reference: &FrozenReference,
) -> (ranked: Result<Vec<EndpointCandidateEvaluation>, BridgeError>)
    requires
        scorer.valid(),
        route@.len() < usize::MAX,
    ensures
        match (BridgeModel {
            scoring: scorer.scoring(),
            tracks: tracks@,
            config: *config,
            reference: reference@,
        }).ranked_endpoints(route@, slot, candidates@) {
            Ok(evaluations) => ranked is Ok && ranked->Ok_0@ == evaluations,
            Err(error) => ranked is Err && ranked->Err_0 == error,
        },
{
    let ghost model = BridgeModel {
        scoring: scorer.scoring(),
        tracks: tracks@,
        config: *config,
        reference: reference@,
    };
    let mut evaluations: Vec<EndpointCandidateEvaluation> = Vec::new();
    let mut at: usize = 0;
    while at < candidates.len()
        invariant
            scorer.valid(),
            route@.len() < usize::MAX,
            at <= candidates@.len(),
            model == (BridgeModel {
                scoring: scorer.scoring(),
                tracks: tracks@,
                config: *config,
                reference: reference@,
            }),
            model.endpoint_evaluations_from(route@, slot, candidates@, 0, seq![])
                == model.endpoint_evaluations_from(
                route@,
                slot,
                candidates@,
                at as int,
                evaluations@,
            ),
        decreases candidates@.len() - at,
    {
        match evaluate_endpoint_candidate(
            route,
            slot,
            candidates[at],
            tracks,
            scorer,
            config,
            reference,
        ) {
            Err(error) => {
                return Err(error);
            },
            Ok(evaluation) => {
                evaluations.push(evaluation);
            },
        }
        at += 1;
    }
    let leq = |a: &EndpointCandidateEvaluation, b: &EndpointCandidateEvaluation| -> (first: bool)
        ensures
            first == best_endpoint_first()(*a, *b),
        {
            if a.accepted != b.accepted {
                a.accepted
            } else if a.percentile != b.percentile {
                a.percentile < b.percentile
            } else {
                a.candidate <= b.candidate
            }
        };
    Ok(sort_by(evaluations, &leq, Ghost(best_endpoint_first())))
}

// Laws.

proof fn lemma_evaluations_keep_candidates(
    model: BridgeModel,
    route: Seq<usize>,
    position: int,
    candidates: Seq<usize>,
    matrix: Option<ContextMatrixView>,
    at: int,
    done: Seq<BridgeCandidateEvaluation>,
)
    requires
        done.len() == at,
        0 <= at <= candidates.len(),
        forall|i: int|
            0 <= i < at ==> model.evaluation(route, position, candidates[i], matrix) == Ok::<
                BridgeCandidateEvaluation,
                BridgeError,
            >(#[trigger] done[i]),
    ensures
        model.evaluations_from(route, position, candidates, matrix, at, done) matches Ok(
            evaluations,
        ) ==> evaluations.len() == candidates.len() && forall|i: int|
            0 <= i < candidates.len() ==> model.evaluation(route, position, candidates[i], matrix)
                == Ok::<BridgeCandidateEvaluation, BridgeError>(#[trigger] evaluations[i]),
    decreases candidates.len() - at,
{
    if at < candidates.len() {
        match model.evaluation(route, position, candidates[at], matrix) {
            Err(_) => {},
            Ok(evaluation) => {
                lemma_evaluations_keep_candidates(
                    model,
                    route,
                    position,
                    candidates,
                    matrix,
                    at + 1,
                    done.push(evaluation),
                );
            },
        }
    }
}

/// A ranking holds one true evaluation for every candidate and nothing else,
/// each no better than the ones before it.
pub proof fn lemma_ranked_members(
    model: BridgeModel,
    route: Seq<usize>,
    position: int,
    candidates: Seq<usize>,
    matrix: Option<ContextMatrixView>,
)
    ensures
        model.ranked(route, position, candidates, matrix) matches Ok(ranked) ==> {
            &&& ranked.len() == candidates.len()
            &&& is_sorted(ranked, best_bridge_first())
            &&& forall|i: int|
                0 <= i < ranked.len() ==> candidates.contains((#[trigger] ranked[i]).candidate)
                    && model.evaluation(route, position, ranked[i].candidate, matrix) == Ok::<
                    BridgeCandidateEvaluation,
                    BridgeError,
                >(ranked[i])
            &&& forall|i: int|
                0 <= i < candidates.len() ==> exists|j: int|
                    0 <= j < ranked.len() && (#[trigger] ranked[j]).candidate
                        == #[trigger] candidates[i]
        },
{
    if let Ok(ranked) = model.ranked(route, position, candidates, matrix) {
        lemma_evaluations_keep_candidates(model, route, position, candidates, matrix, 0, seq![]);
        let evaluations = model.evaluations_from(
            route,
            position,
            candidates,
            matrix,
            0,
            seq![],
        )->Ok_0;
        stable_sort_same_members(evaluations, best_bridge_first());
        stable_sort_is_sorted(evaluations, best_bridge_first());
        assert forall|i: int| 0 <= i < ranked.len() implies candidates.contains(
            (#[trigger] ranked[i]).candidate,
        ) && model.evaluation(route, position, ranked[i].candidate, matrix) == Ok::<
            BridgeCandidateEvaluation,
            BridgeError,
        >(ranked[i]) by {
            assert(ranked.contains(ranked[i]));
            assert(evaluations.contains(ranked[i]));
            let j = choose|j: int| 0 <= j < evaluations.len() && evaluations[j] == ranked[i];
            assert(model.evaluation(route, position, candidates[j], matrix) == Ok::<
                BridgeCandidateEvaluation,
                BridgeError,
            >(evaluations[j]));
            assert(evaluations[j].candidate == candidates[j]);
        }
        assert forall|i: int| 0 <= i < candidates.len() implies exists|j: int|
            0 <= j < ranked.len() && (#[trigger] ranked[j]).candidate == #[trigger] candidates[i] by {
            assert(evaluations.contains(evaluations[i]));
            assert(ranked.contains(evaluations[i]));
            let j = choose|j: int| 0 <= j < ranked.len() && ranked[j] == evaluations[i];
            assert(ranked[j].candidate == candidates[i]);
        }
    }
}

/// A shortlist holds only candidates, at most `limit` of them, and keeps the
/// winner of the full ranking.
pub proof fn shortlist_narrows_and_keeps_the_winner(
    model: BridgeModel,
    route: Seq<usize>,
    position: int,
    candidates: Seq<usize>,
    limit: int,
)
    requires
        0 <= limit,
    ensures
        model.shortlist(route, position, candidates, limit) matches Ok(kept) ==> {
            &&& kept.len() <= limit
            &&& forall|i: int| 0 <= i < kept.len() ==> candidates.contains(#[trigger] kept[i])
            &&& (model.ranked(route, position, candidates, None) matches Ok(ranked) ==> (0 < limit
                && ranked.len() > 0 ==> kept.contains(ranked[0].candidate)))
        },
{
    lemma_ranked_members(model, route, position, candidates, None);
    if let Ok(kept) = model.shortlist(route, position, candidates, limit) {
        if let Ok(ranked) = model.ranked(route, position, candidates, None) {
            if 0 < limit && ranked.len() > 0 {
                if candidates.len() <= limit {
                    assert(candidates.contains(ranked[0].candidate));
                } else {
                    assert(kept[0] == ranked[0].candidate);
                }
            }
        }
    }
}

/// Whether no two positions of a route repeat within the windows.
pub open spec fn route_safe(
    route: Seq<usize>,
    tracks: Seq<RouteTrack>,
    artist_window: usize,
    album_window: usize,
) -> bool {
    forall|at: int|
        0 <= at < route.len() ==> #[trigger] windows_safe_at(
            route,
            tracks,
            at,
            artist_window,
            album_window,
        )
}

/// Putting a repeat-safe bridge into a route without repeats leaves it without
/// repeats.
pub proof fn safe_bridge_keeps_route_safe(
    model: BridgeModel,
    route: Seq<usize>,
    position: int,
    candidate: usize,
)
    requires
        0 <= position <= route.len(),
        model.insert_safe(route, position, candidate),
        route_safe(route, model.tracks, model.config.artist_window, model.config.album_window),
    ensures
        route_safe(
            route.insert(position, candidate),
            model.tracks,
            model.config.artist_window,
            model.config.album_window,
        ),
{
    let (artists, albums) = (model.config.artist_window, model.config.album_window);
    let next = route.insert(position, candidate);
    assert forall|at: int| 0 <= at < next.len() implies #[trigger] windows_safe_at(
        next,
        model.tracks,
        at,
        artists,
        albums,
    ) by {
        assert forall|other: int| 0 <= other < next.len() && other != at implies position_safe(
            next,
            model.tracks,
            at,
            artists,
            albums,
            other,
        ) by {
            if at == position {
                assert(position_safe(next, model.tracks, position, artists, albums, other));
            } else if other == position {
                assert(position_safe(next, model.tracks, position, artists, albums, at));
            } else {
                let old_at = if at < position {
                    at
                } else {
                    at - 1
                };
                let old_other = if other < position {
                    other
                } else {
                    other - 1
                };
                assert(windows_safe_at(route, model.tracks, old_at, artists, albums));
                assert(position_safe(route, model.tracks, old_at, artists, albums, old_other));
            }
        }
    }
}

/// An accepted bridge is new to the route, repeats nothing, and keeps both
/// percentile limits; a track of the route is never accepted.
pub proof fn accepted_bridge_keeps_every_limit(
    model: BridgeModel,
    route: Seq<usize>,
    position: int,
    candidate: usize,
    matrix: Option<ContextMatrixView>,
)
    ensures
        model.evaluation(route, position, candidate, matrix) matches Ok(evaluation) ==> {
            &&& evaluation.accepted ==> evaluation.repeat_safe && evaluation.left_percentile
                <= model.config.max_leg_percentile && evaluation.right_percentile
                <= model.config.max_leg_percentile && evaluation.left_percentile
                + evaluation.right_percentile <= model.config.max_detour_percentile
            &&& route.contains(candidate) ==> !evaluation.repeat_safe && !evaluation.accepted
        },
{
    if let Ok(evaluation) = model.evaluation(route, position, candidate, matrix) {
        percentile_is_monotone(model.reference, evaluation.left_distance, evaluation.left_distance);
        percentile_is_monotone(
            model.reference,
            evaluation.right_distance,
            evaluation.right_distance,
        );
    }
}

} // verus!
