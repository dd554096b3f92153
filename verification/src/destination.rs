//! Routes to a destination, and through a waypoint and back.

use crate::anchored_path::{
    adjacency, adjacent, capped_sum, is_adjacency, larger, request_model, search_anchored_paths,
    AnchoredPathCandidate, AnchoredPathError, AnchoredPathOption, AnchoredPathOptionView,
    AnchoredPathRequest, AnchoredPathSearchConfig, PathModel,
};
use crate::anchored_path_laws::{every_option_keeps_its_promises, keeps_promises};
use crate::bridge::BridgeModel;
use crate::contextual::ContextualError;
use crate::exact::{EndpointDecision, ExactSearchStats, ExactSelection, ExactSelectionView};
use crate::exact_multi::{final_decisions, final_exact_decisions};
use crate::preview::{
    numbers_of, AutomaticGap, AutomaticGapView, ExactScoringContext, ExactSelectionConfig,
    PreviewError, PreviewErrorView, MAX_EXACT_TRACKS_PER_GAP,
};
use crate::semantic::CandidateSemanticsView;
use crate::sequences::{
    copied, find_position, lemma_views_push, lex_less, position, precedes_lexically, views,
};
use vstd::prelude::*;

verus! {

// Requests and results.

/// What was heard before the route, and how soon a track may come again.
#[derive(Clone, Copy)]
pub struct DestinationRepeatContext<'a> {
    pub history_route: &'a [usize],
    pub track_window: usize,
}

/// One route to a destination.
#[verifier::ext_equal]
pub struct DestinationRouteOptionView {
    pub added_track_count: usize,
    pub selection: ExactSelectionView,
    pub adjacent_transition_sum: nat,
    pub adjacent_worst_transition: nat,
}

/// One route to a destination.
#[derive(Debug, PartialEq, Eq)]
pub struct DestinationRouteOption {
    pub added_track_count: usize,
    pub selection: ExactSelection,
    pub adjacent_transition_sum: u128,
    pub adjacent_worst_transition: u64,
}

impl View for DestinationRouteOption {
    type V = DestinationRouteOptionView;

    open spec fn view(&self) -> DestinationRouteOptionView {
        DestinationRouteOptionView {
            added_track_count: self.added_track_count,
            selection: self.selection@,
            adjacent_transition_sum: self.adjacent_transition_sum as nat,
            adjacent_worst_transition: self.adjacent_worst_transition as nat,
        }
    }
}

impl Clone for DestinationRouteOption {
    fn clone(&self) -> (copy: Self)
        ensures
            copy@ == self@,
    {
        DestinationRouteOption {
            added_track_count: self.added_track_count,
            selection: self.selection.clone(),
            adjacent_transition_sum: self.adjacent_transition_sum,
            adjacent_worst_transition: self.adjacent_worst_transition,
        }
    }
}

/// What a refused path search means for a selection.
pub open spec fn as_preview_error(error: AnchoredPathError) -> PreviewErrorView {
    match error {
        AnchoredPathError::InvalidConfig(message) => {
            PreviewErrorView::InvalidExactConfig(message@)
        },
        AnchoredPathError::InvalidRoute(message) => PreviewErrorView::FinalRouteInvalid(message@),
        AnchoredPathError::InvalidTrackIndex(_) => PreviewErrorView::FinalRouteInvalid(
            "anchored path contains an unknown track index"@,
        ),
    }
}

/// Says what a refused path search means for a selection.
pub fn anchored_path_error(error: AnchoredPathError) -> (meant: PreviewError)
    ensures
        meant@ == as_preview_error(error),
{
    match error {
        AnchoredPathError::InvalidConfig(message) => PreviewError::InvalidExactConfig(message),
        AnchoredPathError::InvalidRoute(message) => PreviewError::FinalRouteInvalid(message),
        AnchoredPathError::InvalidTrackIndex(_) => PreviewError::FinalRouteInvalid(
            "anchored path contains an unknown track index",
        ),
    }
}

/// What a search for a destination looks at.
pub struct DestinationModel {
    pub bridge: BridgeModel,
    pub config: ExactSelectionConfig,
    pub history: Seq<usize>,
    pub track_window: usize,
    pub distance: spec_fn(usize, usize) -> u64,
}

/// A destination search.
pub struct DestinationSearch<'a, P, D, F> {
    pub config: &'a ExactSelectionConfig,
    pub repeat: DestinationRepeatContext<'a>,
    pub scoring: &'a ExactScoringContext<'a, P, D>,
    pub distance: F,
}

impl<
    'a,
    P: Fn(&[usize], u16) -> Result<(), ContextualError>,
    D: Fn(&[usize], u16, &[usize], usize) -> u64,
    F: Fn(usize, usize) -> u64 + Copy,
> DestinationSearch<'a, P, D, F> {
    /// What this search looks at.
    pub open spec fn model(&self) -> DestinationModel {
        DestinationModel {
            bridge: self.scoring.model(),
            config: *self.config,
            history: self.repeat.history_route@,
            track_window: self.repeat.track_window,
            distance: adjacency(self.distance),
        }
    }

    /// Whether the search can be run.
    pub open spec fn valid(&self) -> bool {
        self.scoring.scorer.valid() && is_adjacency(self.distance)
    }
}

/// The candidates of a gap for a path search.
pub open spec fn path_candidates(
    config: ExactSelectionConfig,
    semantics: Seq<CandidateSemanticsView>,
) -> Seq<AnchoredPathCandidate> {
    Seq::new(
        semantics.len(),
        |i: int|
            AnchoredPathCandidate {
                track: semantics[i].candidate,
                semantic_support: semantics[i].guidance_score(
                    config.track_guidance_percent,
                    config.artist_guidance_percent,
                ) as u64,
            },
    )
}

impl DestinationModel {
    /// The path search over the last transition of a route.
    pub open spec fn paths(
        self,
        original: Seq<usize>,
        gap: AutomaticGapView,
        max_added: usize,
    ) -> PathModel {
        PathModel {
            prefix: original.drop_last(),
            history: self.history,
            unavailable: original,
            left: gap.left,
            right: gap.right,
            candidates: path_candidates(self.config, gap.semantics.candidates),
            tracks: self.bridge.tracks,
            config: AnchoredPathSearchConfig {
                max_intermediates: max_added,
                candidate_limit: self.config.candidate_limit,
                beam_width: self.config.beam_width,
                alternatives_per_count: 1,
                variation_percent: self.config.variation_percent,
                generation_seed: self.config.generation_seed,
                artist_window: self.bridge.config.artist_window,
                album_window: self.bridge.config.album_window,
                track_window: self.track_window,
            },
            distance: self.distance,
        }
    }

    /// Why no search is made over the last transition, if so.
    pub open spec fn leg_refusal(
        self,
        original: Seq<usize>,
        gap: AutomaticGapView,
        max_added: usize,
    ) -> Option<PreviewErrorView> {
        if original.len() < 2 || original[original.len() - 2] != gap.left || original.last()
            != gap.right {
            Some(
                PreviewErrorView::FinalRouteInvalid(
                    "destination search requires the final source transition as its only gap"@,
                ),
            )
        } else if max_added > MAX_EXACT_TRACKS_PER_GAP {
            Some(
                PreviewErrorView::InvalidExactConfig(
                    "destination bridge budget exceeds the supported limit"@,
                ),
            )
        } else if self.config.candidate_limit == 0 || self.config.beam_width == 0 {
            Some(
                PreviewErrorView::InvalidExactConfig(
                    "destination candidate and beam limits must be at least one"@,
                ),
            )
        } else {
            None
        }
    }

    /// A path as a route to the destination.
    pub open spec fn leg_option(
        self,
        gap: AutomaticGapView,
        max_added: usize,
        path: AnchoredPathOptionView,
    ) -> Result<DestinationRouteOptionView, PreviewErrorView> {
        match final_decisions(
            self.bridge,
            self.config.guide(),
            path.route,
            seq![gap],
            seq![path.intermediates],
        ) {
            Err(error) => Err(error),
            Ok(decisions) => Ok(
                DestinationRouteOptionView {
                    added_track_count: path.intermediates.len() as usize,
                    selection: ExactSelectionView {
                        requested_added_tracks: path.intermediates.len() as usize,
                        final_route: Some(path.route),
                        decisions,
                        endpoint_decisions: seq![],
                        stats: ExactSearchStats {
                            max_tracks_per_gap: larger(max_added as nat, 1) as usize,
                            evaluated_states: path.stats.evaluated_states,
                            retained_states: path.stats.retained_states,
                            maximum_additions_found: path.intermediates.len() as usize,
                            structural_upper_bound: path.stats.structural_upper_bound,
                        },
                    },
                    adjacent_transition_sum: path.transition_sum,
                    adjacent_worst_transition: path.worst_transition,
                },
            ),
        }
    }

    /// The paths from `at` on as routes, behind those in `done`.
    pub open spec fn leg_options_from(
        self,
        gap: AutomaticGapView,
        max_added: usize,
        paths: Seq<AnchoredPathOptionView>,
        at: int,
        done: Seq<DestinationRouteOptionView>,
    ) -> Result<Seq<DestinationRouteOptionView>, PreviewErrorView>
        decreases paths.len() - at,
    {
        if at >= paths.len() {
            Ok(done)
        } else {
            match self.leg_option(gap, max_added, paths[at]) {
                Err(error) => Err(error),
                Ok(option) => self.leg_options_from(
                    gap,
                    max_added,
                    paths,
                    at + 1,
                    done.push(option),
                ),
            }
        }
    }

    /// The routes over the last transition, one for each number of tracks.
    pub open spec fn leg(
        self,
        original: Seq<usize>,
        gap: AutomaticGapView,
        max_added: usize,
    ) -> Result<Seq<DestinationRouteOptionView>, PreviewErrorView> {
        match self.leg_refusal(original, gap, max_added) {
            Some(error) => Err(error),
            None => match self.paths(original, gap, max_added).search() {
                Err(error) => Err(as_preview_error(error)),
                Ok(paths) => self.leg_options_from(gap, max_added, paths, 0, seq![]),
            },
        }
    }
}

/// What every route over the last transition of `original` looks like: the
/// tracks of the original with some more in front of the last.
pub open spec fn extends_last(
    original: Seq<usize>,
    gap: AutomaticGapView,
    max_added: int,
    option: DestinationRouteOptionView,
) -> bool {
    let route = option.selection.final_route->Some_0;
    let prefix = original.len() - 1;
    &&& option.selection.final_route is Some
    &&& option.added_track_count <= max_added
    &&& route.len() == original.len() + option.added_track_count
    &&& route.take(prefix) == original.drop_last()
    &&& route.last() == original.last()
    &&& forall|i: int|
        prefix <= i < route.len() - 1 ==> !original.contains(#[trigger] route[i]) && numbers_of(
            gap.semantics.candidates,
        ).contains(route[i])
}

impl DestinationModel {
    proof fn lemma_path_extends(
        self,
        original: Seq<usize>,
        gap: AutomaticGapView,
        max_added: usize,
        path: AnchoredPathOptionView,
    )
        requires
            self.leg_refusal(original, gap, max_added) is None,
            keeps_promises(self.paths(original, gap, max_added), path),
        ensures
            path.intermediates.len() <= max_added <= MAX_EXACT_TRACKS_PER_GAP,
            path.route.len() == original.len() + path.intermediates.len(),
            self.leg_option(gap, max_added, path) matches Ok(option) ==> extends_last(
                original,
                gap,
                max_added as int,
                option,
            ),
            forall|i: int|
                original.len() - 1 <= i < path.route.len() - 1 ==> #[trigger] path.route[i]
                    == path.intermediates[i - (original.len() - 1)],
    {
        let model = self.paths(original, gap, max_added);
        let prefix = original.len() - 1;
        assert(path.route.take(prefix) =~= original.drop_last());
        assert(path.route.last() == original.last());
        let candidates = gap.semantics.candidates;
        assert forall|i: int| prefix <= i < path.route.len() - 1 implies !original.contains(
            #[trigger] path.route[i],
        ) && numbers_of(candidates).contains(path.route[i]) by {
            let track = path.intermediates[i - prefix];
            assert(path.route[i] == track);
            assert(model.available(track));
            let j = choose|j: int|
                0 <= j < model.candidates.len() && (#[trigger] model.candidates[j]).track == track;
            assert(numbers_of(candidates)[j] == track);
        }
    }

    proof fn lemma_leg_options(
        self,
        original: Seq<usize>,
        gap: AutomaticGapView,
        max_added: usize,
        paths: Seq<AnchoredPathOptionView>,
        at: int,
        done: Seq<DestinationRouteOptionView>,
    )
        requires
            0 <= at,
            self.leg_refusal(original, gap, max_added) is None,
            forall|i: int|
                0 <= i < paths.len() ==> keeps_promises(
                    self.paths(original, gap, max_added),
                    #[trigger] paths[i],
                ),
            forall|i: int|
                0 <= i < done.len() ==> extends_last(
                    original,
                    gap,
                    max_added as int,
                    #[trigger] done[i],
                ),
        ensures
            self.leg_options_from(gap, max_added, paths, at, done) matches Ok(options)
                ==> forall|i: int|
                0 <= i < options.len() ==> extends_last(
                    original,
                    gap,
                    max_added as int,
                    #[trigger] options[i],
                ),
        decreases paths.len() - at,
    {
        if at < paths.len() {
            self.lemma_path_extends(original, gap, max_added, paths[at]);
            if let Ok(option) = self.leg_option(gap, max_added, paths[at]) {
                self.lemma_leg_options(
                    original,
                    gap,
                    max_added,
                    paths,
                    at + 1,
                    done.push(option),
                );
            }
        }
    }

    /// Every route to a destination keeps the tracks before the destination as
    /// they are, ends at it, and adds no more tracks than are allowed, none of
    /// them one of the original.
    pub proof fn every_leg_extends_the_last_transition(
        self,
        original: Seq<usize>,
        gap: AutomaticGapView,
        max_added: usize,
    )
        ensures
            self.leg(original, gap, max_added) matches Ok(options) ==> forall|i: int|
                0 <= i < options.len() ==> extends_last(
                    original,
                    gap,
                    max_added as int,
                    #[trigger] options[i],
                ),
    {
        if self.leg_refusal(original, gap, max_added) is None {
            let model = self.paths(original, gap, max_added);
            every_option_keeps_its_promises(model);
            if let Ok(paths) = model.search() {
                self.lemma_leg_options(original, gap, max_added, paths, 0, seq![]);
            }
        }
    }
}

impl<
    'a,
    P: Fn(&[usize], u16) -> Result<(), ContextualError>,
    D: Fn(&[usize], u16, &[usize], usize) -> u64,
    F: Fn(usize, usize) -> u64 + Copy,
> DestinationSearch<'a, P, D, F> {
    fn leg_option(
        &self,
        gaps: &[AutomaticGap],
        max_added: usize,
        path: &AnchoredPathOption,
    ) -> (option: Result<DestinationRouteOption, PreviewError>)
        requires
            self.valid(),
            self.config.variation_percent <= 100,
            gaps@.len() == 1,
            path.route@.len() < usize::MAX,
        ensures
            match self.model().leg_option(gaps@[0]@, max_added, path@) {
                Ok(found) => option is Ok && option->Ok_0@ == found,
                Err(error) => option is Err && option->Err_0@ == error,
            },
    {
        let requested: usize = path.intermediates.len();
        let mut lists: Vec<Vec<usize>> = Vec::new();
        lists.push(copied(path.intermediates.as_slice()));
        assert(views(lists@) =~= seq![path.intermediates@]);
        assert(views(gaps@) =~= seq![gaps@[0]@]);
        let decisions = match final_exact_decisions(
            path.route.as_slice(),
            gaps,
            lists.as_slice(),
            self.scoring,
            self.config,
        ) {
            Err(error) => {
                return Err(error);
            },
            Ok(decisions) => decisions,
        };
        let ending: Vec<EndpointDecision> = Vec::new();
        assert(views(ending@) =~= seq![]);
        Ok(
            DestinationRouteOption {
                added_track_count: requested,
                selection: ExactSelection {
                    requested_added_tracks: requested,
                    final_route: Some(copied(path.route.as_slice())),
                    decisions,
                    endpoint_decisions: ending,
                    stats: ExactSearchStats {
                        max_tracks_per_gap: if max_added > 1 {
                            max_added
                        } else {
                            1
                        },
                        evaluated_states: path.stats.evaluated_states,
                        retained_states: path.stats.retained_states,
                        maximum_additions_found: requested,
                        structural_upper_bound: path.stats.structural_upper_bound,
                    },
                },
                adjacent_transition_sum: path.transition_sum,
                adjacent_worst_transition: path.worst_transition,
            },
        )
    }
}

impl<
    'a,
    P: Fn(&[usize], u16) -> Result<(), ContextualError>,
    D: Fn(&[usize], u16, &[usize], usize) -> u64,
    F: Fn(usize, usize) -> u64 + Copy,
> DestinationSearch<'a, P, D, F> {
    fn leg(&self, original: &[usize], gap: &AutomaticGap, max_added: usize) -> (options: Result<
        Vec<DestinationRouteOption>,
        PreviewError,
    >)
        requires
            self.valid(),
            self.repeat.history_route@.len() + original@.len() + self.scoring.tracks@.len()
                + MAX_EXACT_TRACKS_PER_GAP < usize::MAX,
        ensures
            match self.model().leg(original@, gap@, max_added) {
                Ok(found) => options is Ok && views(options->Ok_0@) == found,
                Err(error) => options is Err && options->Err_0@ == error,
            },
    {
        let ghost model = self.model();
        if original.len() < 2 || original[original.len() - 2] != gap.left
            || original[original.len() - 1] != gap.right {
            return Err(
                PreviewError::FinalRouteInvalid(
                    "destination search requires the final source transition as its only gap",
                ),
            );
        }
        if max_added > MAX_EXACT_TRACKS_PER_GAP {
            return Err(
                PreviewError::InvalidExactConfig(
                    "destination bridge budget exceeds the supported limit",
                ),
            );
        }
        if self.config.candidate_limit == 0 || self.config.beam_width == 0 {
            return Err(
                PreviewError::InvalidExactConfig(
                    "destination candidate and beam limits must be at least one",
                ),
            );
        }
        let prefix = vstd::slice::slice_subrange(original, 0, original.len() - 1);
        assert(prefix@ =~= original@.drop_last());
        let mut candidates: Vec<AnchoredPathCandidate> = Vec::new();
        let mut at: usize = 0;
        while at < gap.semantics.candidates.len()
            invariant
                at <= gap.semantics.candidates@.len(),
                candidates@ =~= path_candidates(*self.config, gap@.semantics.candidates).take(
                    at as int,
                ),
            decreases gap.semantics.candidates@.len() - at,
        {
            let candidate = &gap.semantics.candidates[at];
            assert(gap@.semantics.candidates[at as int] == candidate@);
            candidates.push(
                AnchoredPathCandidate {
                    track: candidate.candidate,
                    semantic_support: candidate.guidance_score(
                        self.config.track_guidance_percent,
                        self.config.artist_guidance_percent,
                    ),
                },
            );
            at += 1;
        }
        assert(candidates@ =~= path_candidates(*self.config, gap@.semantics.candidates));
        let request = AnchoredPathRequest {
            route_prefix: prefix,
            immutable_history: self.repeat.history_route,
            unavailable_tracks: original,
            left_anchor: gap.left,
            right_anchor: gap.right,
            candidates: candidates.as_slice(),
            tracks: self.scoring.tracks,
            config: AnchoredPathSearchConfig {
                max_intermediates: max_added,
                candidate_limit: self.config.candidate_limit,
                beam_width: self.config.beam_width,
                alternatives_per_count: 1,
                variation_percent: self.config.variation_percent,
                generation_seed: self.config.generation_seed,
                artist_window: self.scoring.config.artist_window,
                album_window: self.scoring.config.album_window,
                track_window: self.repeat.track_window,
            },
        };
        let ghost path_model = model.paths(original@, gap@, max_added);
        assert(request_model(request, self.distance) == path_model);
        let paths = match search_anchored_paths(request, self.distance) {
            Err(error) => {
                return Err(anchored_path_error(error));
            },
            Ok(paths) => paths,
        };
        let ghost all = views(paths@);
        proof {
            every_option_keeps_its_promises(path_model);
        }
        let mut alone: Vec<AutomaticGap> = Vec::new();
        alone.push(gap.clone());
        let mut options: Vec<DestinationRouteOption> = Vec::new();
        let mut next: usize = 0;
        assert(views(options@) =~= seq![]);
        while next < paths.len()
            invariant
                next <= paths@.len(),
                self.valid(),
                self.config.variation_percent <= 100,
                model == self.model(),
                path_model == model.paths(original@, gap@, max_added),
                model.leg_refusal(original@, gap@, max_added) is None,
                path_model.search() == Ok::<Seq<AnchoredPathOptionView>, AnchoredPathError>(all),
                all == views(paths@),
                original@.len() + MAX_EXACT_TRACKS_PER_GAP < usize::MAX,
                alone@.len() == 1,
                alone@[0]@ == gap@,
                forall|i: int| 0 <= i < all.len() ==> keeps_promises(path_model, #[trigger] all[i]),
                model.leg_options_from(gap@, max_added, all, 0, seq![]) == model.leg_options_from(
                    gap@,
                    max_added,
                    all,
                    next as int,
                    views(options@),
                ),
            decreases paths@.len() - next,
        {
            assert(all[next as int] == paths@[next as int]@);
            proof {
                model.lemma_path_extends(original@, gap@, max_added, all[next as int]);
            }
            match self.leg_option(alone.as_slice(), max_added, &paths[next]) {
                Err(error) => {
                    return Err(error);
                },
                Ok(option) => {
                    proof {
                        lemma_views_push(options@, option);
                    }
                    options.push(option);
                },
            }
            next += 1;
        }
        Ok(options)
    }
}

/// Searches the final source transition as a bounded, fixed-matrix path.
/// Acoustic distances are supplied by one caller-owned index, so all bridge
/// counts share preprocessing and the quick action remains latency-bounded.
pub fn select_destination_bridge_routes<
    P: Fn(&[usize], u16) -> Result<(), ContextualError>,
    D: Fn(&[usize], u16, &[usize], usize) -> u64,
    F: Fn(usize, usize) -> u64 + Copy,
>(
    original_route: &[usize],
    gap: &AutomaticGap,
    max_added_tracks: usize,
    selection_config: &ExactSelectionConfig,
    repeat: DestinationRepeatContext<'_>,
    scoring: &ExactScoringContext<'_, P, D>,
    adjacent_distance: F,
) -> (options: Result<Vec<DestinationRouteOption>, PreviewError>)
    requires
        scoring.scorer.valid(),
        is_adjacency(adjacent_distance),
        repeat.history_route@.len() + original_route@.len() + scoring.tracks@.len()
            + MAX_EXACT_TRACKS_PER_GAP < usize::MAX,
    ensures
        match (DestinationModel {
            bridge: scoring.model(),
            config: *selection_config,
            history: repeat.history_route@,
            track_window: repeat.track_window,
            distance: adjacency(adjacent_distance),
        }).leg(original_route@, gap@, max_added_tracks) {
            Ok(found) => options is Ok && views(options->Ok_0@) == found,
            Err(error) => options is Err && options->Err_0@ == error,
        },
{
    let search = DestinationSearch {
        config: selection_config,
        repeat,
        scoring,
        distance: adjacent_distance,
    };
    search.leg(original_route, gap, max_added_tracks)
}

// Through a waypoint and back.

/// Whether a route first meets the start, then the waypoint and then the rejoin
/// anchor at the end of `original`.
pub open spec fn anchors_in_order(original: Seq<usize>, route: Seq<usize>) -> bool {
    let count = original.len() as int;
    position(route, original[count - 3]) < position(route, original[count - 2]) < position(
        route,
        original[count - 1],
    )
}

/// The sum and the largest of the distances between the neighbours from `at` to
/// `end`, added to what came before.
pub open spec fn walk_between(
    distance: spec_fn(usize, usize) -> u64,
    route: Seq<usize>,
    at: int,
    end: int,
    sum: nat,
    worst: nat,
) -> (nat, nat)
    decreases end - at,
{
    if at >= end {
        (sum, worst)
    } else {
        let step = distance(route[at], route[at + 1]) as nat;
        walk_between(distance, route, at + 1, end, sum + step, larger(worst, step))
    }
}

/// Whether a route is strictly better than another: by the worst transition,
/// the sum and the tracks.
pub open spec fn better_route(
    a: DestinationRouteOptionView,
    b: DestinationRouteOptionView,
) -> bool {
    if a.adjacent_worst_transition != b.adjacent_worst_transition {
        a.adjacent_worst_transition < b.adjacent_worst_transition
    } else if a.adjacent_transition_sum != b.adjacent_transition_sum {
        a.adjacent_transition_sum < b.adjacent_transition_sum
    } else {
        lex_less(a.selection.final_route->Some_0, b.selection.final_route->Some_0)
    }
}

/// The first of the best routes with `total` added tracks among the first
/// `count`.
pub open spec fn best_with(
    options: Seq<DestinationRouteOptionView>,
    total: int,
    count: int,
) -> Option<int>
    decreases count,
{
    if count <= 0 {
        None
    } else {
        let before = best_with(options, total, count - 1);
        if options[count - 1].added_track_count == total && (match before {
            None => true,
            Some(at) => better_route(options[count - 1], options[at]),
        }) {
            Some(count - 1)
        } else {
            before
        }
    }
}

/// The best route for each number of added tracks below `count`.
pub open spec fn best_routes(options: Seq<DestinationRouteOptionView>, count: int) -> Seq<
    DestinationRouteOptionView,
>
    decreases count,
{
    if count <= 0 {
        seq![]
    } else {
        match best_with(options, count - 1, options.len() as int) {
            Some(at) => best_routes(options, count - 1).push(options[at]),
            None => best_routes(options, count - 1),
        }
    }
}

impl DestinationModel {
    /// A way out and a way back as one route.
    pub open spec fn joined(
        self,
        original: Seq<usize>,
        gaps: Seq<AutomaticGapView>,
        max_added: usize,
        outward: DestinationRouteOptionView,
        returning: DestinationRouteOptionView,
    ) -> Result<DestinationRouteOptionView, PreviewErrorView> {
        let count = original.len() as int;
        let route = returning.selection.final_route->Some_0;
        let start = position(route, original[count - 3]);
        let waypoint = position(route, original[count - 2]);
        let rejoin = position(route, original[count - 1]);
        let total = outward.added_track_count + returning.added_track_count;
        match final_decisions(
            self.bridge,
            self.config.guide(),
            route,
            gaps,
            seq![route.subrange(start + 1, waypoint), route.subrange(waypoint + 1, rejoin)],
        ) {
            Err(error) => Err(error),
            Ok(decisions) => {
                let (sum, worst) = walk_between(self.distance, route, start, rejoin, 0, 0);
                Ok(
                    DestinationRouteOptionView {
                        added_track_count: total as usize,
                        selection: ExactSelectionView {
                            requested_added_tracks: total as usize,
                            final_route: Some(route),
                            decisions,
                            endpoint_decisions: seq![],
                            stats: ExactSearchStats {
                                max_tracks_per_gap: larger(max_added as nat, 1) as usize,
                                evaluated_states: capped_sum(
                                    outward.selection.stats.evaluated_states as int,
                                    returning.selection.stats.evaluated_states as int,
                                ) as usize,
                                retained_states: capped_sum(
                                    outward.selection.stats.retained_states as int,
                                    returning.selection.stats.retained_states as int,
                                ) as usize,
                                maximum_additions_found: total as usize,
                                structural_upper_bound: max_added,
                            },
                        },
                        adjacent_transition_sum: sum,
                        adjacent_worst_transition: worst,
                    },
                )
            },
        }
    }

    /// One way out with the ways back from `at` on, behind the routes in `done`.
    pub open spec fn joined_from(
        self,
        original: Seq<usize>,
        gaps: Seq<AutomaticGapView>,
        max_added: usize,
        outward: DestinationRouteOptionView,
        returning: Seq<DestinationRouteOptionView>,
        at: int,
        done: Seq<DestinationRouteOptionView>,
    ) -> Result<Seq<DestinationRouteOptionView>, PreviewErrorView>
        decreases returning.len() - at,
    {
        if at >= returning.len() {
            Ok(done)
        } else {
            match self.joined(original, gaps, max_added, outward, returning[at]) {
                Err(error) => Err(error),
                Ok(option) => self.joined_from(
                    original,
                    gaps,
                    max_added,
                    outward,
                    returning,
                    at + 1,
                    done.push(option),
                ),
            }
        }
    }

    /// The ways back from a way out.
    pub open spec fn ways_back(
        self,
        original: Seq<usize>,
        gaps: Seq<AutomaticGapView>,
        max_added: usize,
        outward: DestinationRouteOptionView,
    ) -> Result<Seq<DestinationRouteOptionView>, PreviewErrorView> {
        self.leg(
            outward.selection.final_route->Some_0.push(original.last()),
            gaps[1],
            (max_added - outward.added_track_count) as usize,
        )
    }

    /// The routes over the ways out from `at` on, behind those in `done`.
    pub open spec fn excursions_from(
        self,
        original: Seq<usize>,
        gaps: Seq<AutomaticGapView>,
        max_added: usize,
        outward: Seq<DestinationRouteOptionView>,
        at: int,
        done: Seq<DestinationRouteOptionView>,
    ) -> Result<Seq<DestinationRouteOptionView>, PreviewErrorView>
        decreases outward.len() - at,
    {
        if at >= outward.len() {
            Ok(done)
        } else {
            match self.ways_back(original, gaps, max_added, outward[at]) {
                Err(error) => Err(error),
                Ok(returning) => match self.joined_from(
                    original,
                    gaps,
                    max_added,
                    outward[at],
                    returning,
                    0,
                    done,
                ) {
                    Err(error) => Err(error),
                    Ok(joined) => self.excursions_from(
                        original,
                        gaps,
                        max_added,
                        outward,
                        at + 1,
                        joined,
                    ),
                },
            }
        }
    }

    /// Why no excursion is searched for, if so.
    pub open spec fn waypoint_refusal(
        self,
        original: Seq<usize>,
        gaps: Seq<AutomaticGapView>,
        max_added: usize,
    ) -> Option<PreviewErrorView> {
        let count = original.len() as int;
        if count < 3 || gaps.len() != 2 {
            Some(
                PreviewErrorView::FinalRouteInvalid(
                    "waypoint destination search requires two locked adjacent gaps"@,
                ),
            )
        } else if gaps[0].left != original[count - 3] || gaps[0].right != original[count - 2]
            || gaps[1].left != original[count - 2] || gaps[1].right != original[count - 1] {
            Some(
                PreviewErrorView::FinalRouteInvalid(
                    "waypoint destination gaps do not match start, waypoint, and rejoin anchors"@,
                ),
            )
        } else if max_added > MAX_EXACT_TRACKS_PER_GAP {
            Some(
                PreviewErrorView::InvalidExactConfig(
                    "waypoint bridge budget exceeds the supported total limit"@,
                ),
            )
        } else {
            None
        }
    }

    /// The routes through the waypoint, the best for each number of tracks.
    pub open spec fn excursions(
        self,
        original: Seq<usize>,
        gaps: Seq<AutomaticGapView>,
        max_added: usize,
    ) -> Result<Seq<DestinationRouteOptionView>, PreviewErrorView> {
        match self.waypoint_refusal(original, gaps, max_added) {
            Some(error) => Err(error),
            None => match self.leg(original.drop_last(), gaps[0], max_added) {
                Err(error) => Err(error),
                Ok(outward) => match self.excursions_from(
                    original,
                    gaps,
                    max_added,
                    outward,
                    0,
                    seq![],
                ) {
                    Err(error) => Err(error),
                    Ok(options) => Ok(best_routes(options, max_added + 1)),
                },
            },
        }
    }

    /// Whether every way back from a way out makes a route that meets the
    /// anchors in order.
    pub open spec fn returns_in_order(
        self,
        original: Seq<usize>,
        gaps: Seq<AutomaticGapView>,
        max_added: usize,
        outward: DestinationRouteOptionView,
    ) -> bool {
        self.ways_back(original, gaps, max_added, outward) matches Ok(returning) ==> forall|j: int|
            0 <= j < returning.len() ==> anchors_in_order(
                original,
                (#[trigger] returning[j]).selection.final_route->Some_0,
            )
    }

    /// Whether every route out and back meets the anchors in order.
    pub open spec fn excursions_in_order(
        self,
        original: Seq<usize>,
        gaps: Seq<AutomaticGapView>,
        max_added: usize,
    ) -> bool {
        self.waypoint_refusal(original, gaps, max_added) is None ==> (self.leg(
            original.drop_last(),
            gaps[0],
            max_added,
        ) matches Ok(outward) ==> forall|i: int|
            0 <= i < outward.len() ==> self.returns_in_order(
                original,
                gaps,
                max_added,
                #[trigger] outward[i],
            ))
    }

    /// A route out and back holds all of its anchors.
    proof fn lemma_joined_length(
        self,
        original: Seq<usize>,
        gaps: Seq<AutomaticGapView>,
        max_added: usize,
        outward: DestinationRouteOptionView,
        returning: DestinationRouteOptionView,
    )
        requires
            self.waypoint_refusal(original, gaps, max_added) is None,
            extends_last(original.drop_last(), gaps[0], max_added as int, outward),
            extends_last(
                outward.selection.final_route->Some_0.push(original.last()),
                gaps[1],
                max_added - outward.added_track_count,
                returning,
            ),
        ensures
            ({
                let count = original.len() as int;
                let route = returning.selection.final_route->Some_0;
                let out = outward.added_track_count as int;
                let back = returning.added_track_count as int;
                &&& route.len() == count + out + back
                &&& out + back <= max_added
                &&& 0 <= position(route, original[count - 3])
                &&& position(route, original[count - 1]) < route.len()
            }),
    {
        let route = returning.selection.final_route->Some_0;
        crate::sequences::lemma_position_from(route, original[original.len() - 3], 0);
        crate::sequences::lemma_position_from(route, original.last(), 0);
        assert(route[route.len() - 1] == original.last());
    }

    /// A search over a transition needs two different anchors.
    pub proof fn lemma_leg_anchors_differ(
        self,
        original: Seq<usize>,
        gap: AutomaticGapView,
        max_added: usize,
    )
        ensures
            self.leg(original, gap, max_added) is Ok ==> gap.left != gap.right
                && self.config.variation_percent <= 100,
    {
        if self.leg_refusal(original, gap, max_added) is None {
            let model = self.paths(original, gap, max_added);
            assert(model.search() is Ok ==> model.refusal() is None);
        }
    }
}

impl<
    'a,
    P: Fn(&[usize], u16) -> Result<(), ContextualError>,
    D: Fn(&[usize], u16, &[usize], usize) -> u64,
    F: Fn(usize, usize) -> u64 + Copy,
> DestinationSearch<'a, P, D, F> {
    fn walk(&self, route: &Vec<usize>, from: usize, to: usize) -> (measured: (u128, u64))
        requires
            self.valid(),
            from <= to < route@.len(),
        ensures
            (measured.0 as nat, measured.1 as nat) == walk_between(
                self.model().distance,
                route@,
                from as int,
                to as int,
                0,
                0,
            ),
    {
        let ghost distance = self.model().distance;
        let mut sum: u128 = 0;
        let mut worst: u64 = 0;
        let mut at: usize = from;
        while at < to
            invariant
                self.valid(),
                distance == self.model().distance,
                from <= at <= to,
                to < route@.len(),
                sum <= (at - from) * u64::MAX,
                walk_between(distance, route@, from as int, to as int, 0, 0) == walk_between(
                    distance,
                    route@,
                    at as int,
                    to as int,
                    sum as nat,
                    worst as nat,
                ),
            decreases to - at,
        {
            let step: u64 = adjacent(&self.distance, route[at], route[at + 1]);
            proof {
                let done = at - from;
                assert((done + 1) * u64::MAX == done * u64::MAX + u64::MAX) by (nonlinear_arith);
                assert((done + 1) * u64::MAX <= usize::MAX * u64::MAX) by (nonlinear_arith)
                    requires
                        0 <= done < usize::MAX,
                ;
            }
            sum = sum + step as u128;
            if step > worst {
                worst = step;
            }
            at += 1;
        }
        (sum, worst)
    }

    fn join(
        &self,
        original: &[usize],
        gaps: &[AutomaticGap],
        max_added: usize,
        outward: &DestinationRouteOption,
        returning: &DestinationRouteOption,
    ) -> (joined: Result<DestinationRouteOption, PreviewError>)
        requires
            self.valid(),
            self.config.variation_percent <= 100,
            original@.len() + MAX_EXACT_TRACKS_PER_GAP < usize::MAX,
            max_added <= MAX_EXACT_TRACKS_PER_GAP,
            original@.len() >= 3,
            returning.selection.final_route is Some,
            ({
                let count = original@.len() as int;
                let route = returning.selection.final_route->Some_0@;
                let out = outward.added_track_count as int;
                let back = returning.added_track_count as int;
                &&& route.len() == count + out + back
                &&& out + back <= max_added
                &&& 0 <= position(route, original@[count - 3])
                &&& anchors_in_order(original@, route)
                &&& position(route, original@[count - 1]) < route.len()
            }),
        ensures
            match self.model().joined(original@, views(gaps@), max_added, outward@, returning@) {
                Ok(found) => joined is Ok && joined->Ok_0@ == found,
                Err(error) => joined is Err && joined->Err_0@ == error,
            },
    {
        let count: usize = original.len();
        let total: usize = outward.added_track_count + returning.added_track_count;
        let route = match &returning.selection.final_route {
            Some(route) => copied(route.as_slice()),
            None => Vec::new(),
        };
        let start: usize = match find_position(route.as_slice(), original[count - 3]) {
            Some(at) => at,
            None => 0,
        };
        let waypoint: usize = match find_position(route.as_slice(), original[count - 2]) {
            Some(at) => at,
            None => 0,
        };
        let rejoin: usize = match find_position(route.as_slice(), original[count - 1]) {
            Some(at) => at,
            None => 0,
        };
        let mut lists: Vec<Vec<usize>> = Vec::new();
        lists.push(copied(vstd::slice::slice_subrange(route.as_slice(), start + 1, waypoint)));
        lists.push(copied(vstd::slice::slice_subrange(route.as_slice(), waypoint + 1, rejoin)));
        assert(views(lists@) =~= seq![
            route@.subrange(start + 1, waypoint as int),
            route@.subrange(waypoint + 1, rejoin as int),
        ]);
        let decisions = match final_exact_decisions(
            route.as_slice(),
            gaps,
            lists.as_slice(),
            self.scoring,
            self.config,
        ) {
            Err(error) => {
                return Err(error);
            },
            Ok(decisions) => decisions,
        };
        let (sum, worst) = self.walk(&route, start, rejoin);
        let ending: Vec<EndpointDecision> = Vec::new();
        assert(views(ending@) =~= seq![]);
        Ok(
            DestinationRouteOption {
                added_track_count: total,
                selection: ExactSelection {
                    requested_added_tracks: total,
                    final_route: Some(route),
                    decisions,
                    endpoint_decisions: ending,
                    stats: ExactSearchStats {
                        max_tracks_per_gap: if max_added > 1 {
                            max_added
                        } else {
                            1
                        },
                        evaluated_states: outward.selection.stats.evaluated_states.saturating_add(
                            returning.selection.stats.evaluated_states,
                        ),
                        retained_states: outward.selection.stats.retained_states.saturating_add(
                            returning.selection.stats.retained_states,
                        ),
                        maximum_additions_found: total,
                        structural_upper_bound: max_added,
                    },
                },
                adjacent_transition_sum: sum,
                adjacent_worst_transition: worst,
            },
        )
    }

    fn add_returns(
        &self,
        original: &[usize],
        gaps: &[AutomaticGap],
        max_added: usize,
        outward: &DestinationRouteOption,
        options: &mut Vec<DestinationRouteOption>,
    ) -> (outcome: Result<(), PreviewError>)
        requires
            self.valid(),
            self.config.variation_percent <= 100,
            self.model().waypoint_refusal(original@, views(gaps@), max_added) is None,
            self.model().returns_in_order(original@, views(gaps@), max_added, outward@),
            extends_last(original@.drop_last(), gaps@[0]@, max_added as int, outward@),
            self.repeat.history_route@.len() + original@.len() + self.scoring.tracks@.len() + 2
                * MAX_EXACT_TRACKS_PER_GAP < usize::MAX,
        ensures
            match self.model().ways_back(original@, views(gaps@), max_added, outward@) {
                Err(error) => outcome is Err && outcome->Err_0@ == error,
                Ok(returning) => match self.model().joined_from(
                    original@,
                    views(gaps@),
                    max_added,
                    outward@,
                    returning,
                    0,
                    views(old(options)@),
                ) {
                    Ok(joined) => outcome is Ok && views(final(options)@) == joined,
                    Err(error) => outcome is Err && outcome->Err_0@ == error,
                },
            },
    {
        let ghost model = self.model();
        let ghost legs = views(gaps@);
        let ghost before = views(options@);
        let ghost way = outward@.selection.final_route->Some_0;
        assert(legs[0] == gaps@[0]@ && legs[1] == gaps@[1]@);
        let mut source = match &outward.selection.final_route {
            Some(route) => copied(route.as_slice()),
            None => Vec::new(),
        };
        assert(source@ == way);
        source.push(original[original.len() - 1]);
        let remaining: usize = max_added - outward.added_track_count;
        let returning = match self.leg(source.as_slice(), &gaps[1], remaining) {
            Err(error) => {
                return Err(error);
            },
            Ok(returning) => returning,
        };
        let ghost all = views(returning@);
        proof {
            assert(source@ == way.push(original@.last()));
            model.every_leg_extends_the_last_transition(source@, legs[1], remaining);
        }
        let mut at: usize = 0;
        while at < returning.len()
            invariant
                at <= returning@.len(),
                self.valid(),
                self.config.variation_percent <= 100,
                model == self.model(),
                legs == views(gaps@),
                all == views(returning@),
                before == views(old(options)@),
                way == outward@.selection.final_route->Some_0,
                model.waypoint_refusal(original@, legs, max_added) is None,
                model.returns_in_order(original@, legs, max_added, outward@),
                extends_last(original@.drop_last(), legs[0], max_added as int, outward@),
                original@.len() + 2 * MAX_EXACT_TRACKS_PER_GAP < usize::MAX,
                model.ways_back(original@, legs, max_added, outward@) == Ok::<
                    Seq<DestinationRouteOptionView>,
                    PreviewErrorView,
                >(all),
                forall|i: int|
                    0 <= i < all.len() ==> extends_last(
                        way.push(original@.last()),
                        legs[1],
                        max_added - outward@.added_track_count,
                        #[trigger] all[i],
                    ),
                model.joined_from(original@, legs, max_added, outward@, all, 0, before)
                    == model.joined_from(
                    original@,
                    legs,
                    max_added,
                    outward@,
                    all,
                    at as int,
                    views(options@),
                ),
            decreases returning@.len() - at,
        {
            assert(all[at as int] == returning@[at as int]@);
            proof {
                model.lemma_joined_length(
                    original@,
                    legs,
                    max_added,
                    outward@,
                    all[at as int],
                );
            }
            match self.join(original, gaps, max_added, outward, &returning[at]) {
                Err(error) => {
                    return Err(error);
                },
                Ok(option) => {
                    proof {
                        lemma_views_push(options@, option);
                    }
                    options.push(option);
                },
            }
            at += 1;
        }
        Ok(())
    }
}

impl<
    'a,
    P: Fn(&[usize], u16) -> Result<(), ContextualError>,
    D: Fn(&[usize], u16, &[usize], usize) -> u64,
    F: Fn(usize, usize) -> u64 + Copy,
> DestinationSearch<'a, P, D, F> {
    fn all_excursions(
        &self,
        original: &[usize],
        gaps: &[AutomaticGap],
        max_added: usize,
        outward: &Vec<DestinationRouteOption>,
    ) -> (options: Result<Vec<DestinationRouteOption>, PreviewError>)
        requires
            self.valid(),
            self.config.variation_percent <= 100,
            self.model().waypoint_refusal(original@, views(gaps@), max_added) is None,
            forall|i: int|
                0 <= i < outward@.len() ==> extends_last(
                    original@.drop_last(),
                    gaps@[0]@,
                    max_added as int,
                    (#[trigger] outward@[i])@,
                ) && self.model().returns_in_order(
                    original@,
                    views(gaps@),
                    max_added,
                    outward@[i]@,
                ),
            self.repeat.history_route@.len() + original@.len() + self.scoring.tracks@.len() + 2
                * MAX_EXACT_TRACKS_PER_GAP < usize::MAX,
        ensures
            match self.model().excursions_from(
                original@,
                views(gaps@),
                max_added,
                views(outward@),
                0,
                seq![],
            ) {
                Ok(found) => options is Ok && views(options->Ok_0@) == found,
                Err(error) => options is Err && options->Err_0@ == error,
            },
    {
        let ghost model = self.model();
        let ghost legs = views(gaps@);
        let ghost ways = views(outward@);
        let mut options: Vec<DestinationRouteOption> = Vec::new();
        let mut at: usize = 0;
        assert(views(options@) =~= seq![]);
        while at < outward.len()
            invariant
                at <= outward@.len(),
                self.valid(),
                self.config.variation_percent <= 100,
                model == self.model(),
                legs == views(gaps@),
                ways == views(outward@),
                model.waypoint_refusal(original@, legs, max_added) is None,
                self.repeat.history_route@.len() + original@.len() + self.scoring.tracks@.len() + 2
                    * MAX_EXACT_TRACKS_PER_GAP < usize::MAX,
                forall|i: int|
                    0 <= i < outward@.len() ==> extends_last(
                        original@.drop_last(),
                        gaps@[0]@,
                        max_added as int,
                        (#[trigger] outward@[i])@,
                    ) && model.returns_in_order(original@, legs, max_added, outward@[i]@),
                model.excursions_from(original@, legs, max_added, ways, 0, seq![])
                    == model.excursions_from(
                    original@,
                    legs,
                    max_added,
                    ways,
                    at as int,
                    views(options@),
                ),
            decreases outward@.len() - at,
        {
            assert(ways[at as int] == outward@[at as int]@);
            match self.add_returns(original, gaps, max_added, &outward[at], &mut options) {
                Err(error) => {
                    return Err(error);
                },
                Ok(_) => {},
            }
            at += 1;
        }
        Ok(options)
    }
}

fn is_better(a: &DestinationRouteOption, b: &DestinationRouteOption) -> (better: bool)
    requires
        a.selection.final_route is Some,
        b.selection.final_route is Some,
    ensures
        better == better_route(a@, b@),
{
    if a.adjacent_worst_transition != b.adjacent_worst_transition {
        a.adjacent_worst_transition < b.adjacent_worst_transition
    } else if a.adjacent_transition_sum != b.adjacent_transition_sum {
        a.adjacent_transition_sum < b.adjacent_transition_sum
    } else {
        match (&a.selection.final_route, &b.selection.final_route) {
            (Some(left), Some(right)) => precedes_lexically(left.as_slice(), right.as_slice()),
            _ => false,
        }
    }
}

fn find_best_with(options: &Vec<DestinationRouteOption>, total: usize) -> (found: Option<usize>)
    requires
        forall|i: int|
            0 <= i < options@.len() ==> (#[trigger] options@[i]).selection.final_route is Some,
    ensures
        match best_with(views(options@), total as int, options@.len() as int) {
            Some(at) => found is Some && found->Some_0 == at && 0 <= at < options@.len(),
            None => found is None,
        },
{
    let ghost all = views(options@);
    let mut best: Option<usize> = None;
    let mut at: usize = 0;
    while at < options.len()
        invariant
            at <= options@.len(),
            all == views(options@),
            forall|i: int|
                0 <= i < options@.len() ==> (#[trigger] options@[i]).selection.final_route is Some,
            match best_with(all, total as int, at as int) {
                Some(index) => best is Some && best->Some_0 == index && 0 <= index
                    < options@.len(),
                None => best is None,
            },
        decreases options@.len() - at,
    {
        assert(all[at as int] == options@[at as int]@);
        if options[at].added_track_count == total {
            let better: bool = match best {
                None => true,
                Some(index) => {
                    assert(all[index as int] == options@[index as int]@);
                    is_better(&options[at], &options[index])
                },
            };
            if better {
                best = Some(at);
            }
        }
        at += 1;
    }
    best
}

/// Searches an excursion through one mandatory waypoint and back to a locked
/// rejoin anchor. The bridge budget is shared across both adjacent gaps.
/// Each outward option is carried into the return search so uniqueness and
/// repeat windows constrain the complete audible route.
pub fn select_destination_waypoint_routes<
    P: Fn(&[usize], u16) -> Result<(), ContextualError>,
    D: Fn(&[usize], u16, &[usize], usize) -> u64,
    F: Fn(usize, usize) -> u64 + Copy,
>(
    original_route: &[usize],
    gaps: &[AutomaticGap],
    max_added_tracks: usize,
    selection_config: &ExactSelectionConfig,
    repeat: DestinationRepeatContext<'_>,
    scoring: &ExactScoringContext<'_, P, D>,
    adjacent_distance: F,
) -> (options: Result<Vec<DestinationRouteOption>, PreviewError>)
    requires
        scoring.scorer.valid(),
        is_adjacency(adjacent_distance),
        (DestinationModel {
            bridge: scoring.model(),
            config: *selection_config,
            history: repeat.history_route@,
            track_window: repeat.track_window,
            distance: adjacency(adjacent_distance),
        }).excursions_in_order(original_route@, views(gaps@), max_added_tracks),
        repeat.history_route@.len() + original_route@.len() + scoring.tracks@.len() + 2
            * MAX_EXACT_TRACKS_PER_GAP < usize::MAX,
    ensures
        match (DestinationModel {
            bridge: scoring.model(),
            config: *selection_config,
            history: repeat.history_route@,
            track_window: repeat.track_window,
            distance: adjacency(adjacent_distance),
        }).excursions(original_route@, views(gaps@), max_added_tracks) {
            Ok(found) => options is Ok && views(options->Ok_0@) == found,
            Err(error) => options is Err && options->Err_0@ == error,
        },
{
    if original_route.len() < 3 || gaps.len() != 2 {
        return Err(
            PreviewError::FinalRouteInvalid(
                "waypoint destination search requires two locked adjacent gaps",
            ),
        );
    }
    let count: usize = original_route.len();
    let start: usize = original_route[count - 3];
    let waypoint: usize = original_route[count - 2];
    let rejoin: usize = original_route[count - 1];
    if gaps[0].left != start || gaps[0].right != waypoint || gaps[1].left != waypoint
        || gaps[1].right != rejoin {
        return Err(
            PreviewError::FinalRouteInvalid(
                "waypoint destination gaps do not match start, waypoint, and rejoin anchors",
            ),
        );
    }
    if max_added_tracks > MAX_EXACT_TRACKS_PER_GAP {
        return Err(
            PreviewError::InvalidExactConfig(
                "waypoint bridge budget exceeds the supported total limit",
            ),
        );
    }
    let search = DestinationSearch {
        config: selection_config,
        repeat,
        scoring,
        distance: adjacent_distance,
    };
    let ghost model = search.model();
    let ghost legs = views(gaps@);
    assert(legs[0] == gaps@[0]@ && legs[1] == gaps@[1]@);
    let source = vstd::slice::slice_subrange(original_route, 0, count - 1);
    assert(source@ =~= original_route@.drop_last());
    let outward = match search.leg(source, &gaps[0], max_added_tracks) {
        Err(error) => {
            return Err(error);
        },
        Ok(outward) => outward,
    };
    let ghost ways = views(outward@);
    proof {
        model.lemma_leg_anchors_differ(source@, legs[0], max_added_tracks);
        model.every_leg_extends_the_last_transition(source@, legs[0], max_added_tracks);
        assert forall|i: int| 0 <= i < outward@.len() implies extends_last(
            original_route@.drop_last(),
            gaps@[0]@,
            max_added_tracks as int,
            (#[trigger] outward@[i])@,
        ) && model.returns_in_order(original_route@, legs, max_added_tracks, outward@[i]@) by {
            assert(ways[i] == outward@[i]@);
        }
    }
    let options = match search.all_excursions(original_route, gaps, max_added_tracks, &outward) {
        Err(error) => {
            return Err(error);
        },
        Ok(options) => options,
    };
    let ghost all = views(options@);
    proof {
        model.lemma_excursions_have_routes(
            original_route@,
            legs,
            max_added_tracks,
            ways,
            0,
            seq![],
        );
        assert forall|i: int| 0 <= i < options@.len() implies (
        #[trigger] options@[i]).selection.final_route is Some by {
            assert(all[i].selection.final_route is Some);
        }
    }
    let mut best: Vec<DestinationRouteOption> = Vec::new();
    let mut total: usize = 0;
    assert(views(best@) =~= seq![]);
    while total <= max_added_tracks
        invariant
            total <= max_added_tracks + 1,
            max_added_tracks < usize::MAX,
            all == views(options@),
            forall|i: int|
                0 <= i < options@.len() ==> (#[trigger] options@[i]).selection.final_route is Some,
            views(best@) == best_routes(all, total as int),
        decreases max_added_tracks + 1 - total,
    {
        if let Some(index) = find_best_with(&options, total) {
            assert(all[index as int] == options@[index as int]@);
            let option = options[index].clone();
            proof {
                lemma_views_push(best@, option);
            }
            best.push(option);
        }
        total += 1;
    }
    Ok(best)
}

impl DestinationModel {
    proof fn lemma_joined_have_routes(
        self,
        original: Seq<usize>,
        gaps: Seq<AutomaticGapView>,
        max_added: usize,
        outward: DestinationRouteOptionView,
        returning: Seq<DestinationRouteOptionView>,
        at: int,
        done: Seq<DestinationRouteOptionView>,
    )
        requires
            0 <= at,
            forall|i: int|
                0 <= i < done.len() ==> (#[trigger] done[i]).selection.final_route is Some,
        ensures
            self.joined_from(original, gaps, max_added, outward, returning, at, done) matches Ok(
                options,
            ) ==> forall|i: int|
                0 <= i < options.len() ==> (#[trigger] options[i]).selection.final_route is Some,
        decreases returning.len() - at,
    {
        if at < returning.len() {
            if let Ok(option) = self.joined(original, gaps, max_added, outward, returning[at]) {
                self.lemma_joined_have_routes(
                    original,
                    gaps,
                    max_added,
                    outward,
                    returning,
                    at + 1,
                    done.push(option),
                );
            }
        }
    }

    proof fn lemma_excursions_have_routes(
        self,
        original: Seq<usize>,
        gaps: Seq<AutomaticGapView>,
        max_added: usize,
        outward: Seq<DestinationRouteOptionView>,
        at: int,
        done: Seq<DestinationRouteOptionView>,
    )
        requires
            0 <= at,
            forall|i: int|
                0 <= i < done.len() ==> (#[trigger] done[i]).selection.final_route is Some,
        ensures
            self.excursions_from(original, gaps, max_added, outward, at, done) matches Ok(options)
                ==> forall|i: int|
                0 <= i < options.len() ==> (#[trigger] options[i]).selection.final_route is Some,
        decreases outward.len() - at,
    {
        if at < outward.len() {
            if let Ok(returning) = self.ways_back(original, gaps, max_added, outward[at]) {
                self.lemma_joined_have_routes(
                    original,
                    gaps,
                    max_added,
                    outward[at],
                    returning,
                    0,
                    done,
                );
                if let Ok(joined) = self.joined_from(
                    original,
                    gaps,
                    max_added,
                    outward[at],
                    returning,
                    0,
                    done,
                ) {
                    self.lemma_excursions_have_routes(
                        original,
                        gaps,
                        max_added,
                        outward,
                        at + 1,
                        joined,
                    );
                }
            }
        }
    }
}

} // verus!
