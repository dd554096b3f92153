//! What an exact selection chooses: of the routes that it weighs in the end, one
//! with the least objective.

use crate::bridge::{BridgeCandidateEvaluation, EndpointSlot};
use crate::contextual::ContextMatrixView;
use crate::exact::{
    gap_bound, lemma_all_hold_push, DecidedState, EndpointDecisionView, ExactModel, FilledState,
    SelectedEndpointView,
};
use crate::exact_endpoints::{
    chosen_for_gaps, noted_end, opened, EndpointRecordView, EndpointRunView, ExactEndpointSlotsView,
    Inner,
};
use crate::exact_multi::{best_path_first, PathState};
use crate::preview::{
    evolving_ranked, gap_position, original_order, right_position, search_objective,
    AutomaticGapView, EvolvingAcceptance, GapDecisionView, PreviewErrorView,
};
use crate::sequences::position;
use crate::sorting::{all_hold, dedup, lemma_all_hold, stable_sort};
use crate::states::{
    advanced, best_from, lemma_kept_hold, same_state_route, the_beam_drops_only_what_scores_no_less,
    the_best_of_every_count_is_kept, the_chosen_state_scores_least, Progress, SearchStateView,
};
use vstd::prelude::*;

verus! {

/// Whether a state carries the objective of its route.
pub open spec fn carries_its_objective<R>(model: ExactModel) -> spec_fn(SearchStateView<R>) -> bool {
    |state: SearchStateView<R>|
        search_objective(model.bridge, state.route, model.original) == Ok::<nat, PreviewErrorView>(
            state.objective,
        )
}

impl ExactModel {
    /// The states that the last gap leads to with at most one track to a gap,
    /// before any is dropped.
    pub open spec fn single_weighed(
        self,
        gaps: Seq<AutomaticGapView>,
        prune: bool,
        at: int,
        progress: Progress<Seq<GapDecisionView>>,
    ) -> Seq<DecidedState>
        decreases gaps.len() - at,
    {
        if at >= gaps.len() {
            progress.states
        } else {
            match self.single_layer_from(
                progress.states,
                gaps[at],
                gaps.len() - (at + 1),
                prune,
                0,
                seq![],
            ) {
                Err(_) => seq![],
                Ok(expanded) => if at + 1 == gaps.len() {
                    expanded
                } else {
                    self.single_weighed(
                        gaps,
                        prune,
                        at + 1,
                        advanced(
                            progress,
                            expanded,
                            self.original.len() as int,
                            self.config.beam_width as int,
                        ),
                    )
                },
            }
        }
    }

    /// The states that the last gap leads to with several tracks to a gap, before
    /// any is dropped.
    pub open spec fn multi_weighed(
        self,
        gaps: Seq<AutomaticGapView>,
        at: int,
        progress: Progress<Seq<Seq<usize>>>,
    ) -> Seq<FilledState>
        decreases gaps.len() - at,
    {
        if at >= gaps.len() {
            progress.states
        } else {
            match self.multi_layer_from(progress.states, gaps[at], 0, seq![]) {
                Err(_) => seq![],
                Ok(expanded) => if at + 1 == gaps.len() {
                    expanded
                } else {
                    self.multi_weighed(
                        gaps,
                        at + 1,
                        advanced(
                            progress,
                            expanded,
                            self.original.len() as int,
                            self.config.beam_width as int,
                        ),
                    )
                },
            }
        }
    }

    /// The routes that a search weighs in the end.
    pub open spec fn weighed_routes(self, gaps: Seq<AutomaticGapView>) -> Seq<Seq<usize>> {
        let ordered = stable_sort(gaps, original_order());
        match search_objective(self.bridge, self.original, self.original) {
            Err(_) => seq![],
            Ok(objective) => if self.config.max_tracks_per_gap == 1 {
                let states = self.single_weighed(
                    ordered,
                    self.config.requested_added_tracks <= gap_bound(ordered, 1),
                    0,
                    self.beginning(objective, seq![]),
                );
                Seq::new(states.len(), |i: int| states[i].route)
            } else {
                let states = self.multi_weighed(ordered, 0, self.beginning(objective, seq![]));
                Seq::new(states.len(), |i: int| states[i].route)
            },
        }
    }
}

proof fn lemma_bridged_carry(
    model: ExactModel,
    state: DecidedState,
    gap: AutomaticGapView,
    place: int,
    followed: Seq<BridgeCandidateEvaluation>,
    next: int,
    done: Seq<DecidedState>,
)
    requires
        0 <= next,
        all_hold(done, carries_its_objective(model)),
    ensures
        model.bridged_from(state, gap, place, followed, next, done) matches Ok(states) ==> all_hold(
            states,
            carries_its_objective(model),
        ),
    decreases followed.len() - next,
{
    if next < followed.len() {
        if let Ok(bridged) = model.bridging(state, gap, place, followed[next]) {
            lemma_all_hold_push(done, bridged, carries_its_objective(model));
            lemma_bridged_carry(model, state, gap, place, followed, next + 1, done.push(bridged));
        }
    }
}

proof fn lemma_single_layer_carries(
    model: ExactModel,
    states: Seq<DecidedState>,
    gap: AutomaticGapView,
    remaining: int,
    prune: bool,
)
    requires
        all_hold(states, carries_its_objective(model)),
    ensures
        model.single_layer_from(states, gap, remaining, prune, 0, seq![]) matches Ok(expanded)
            ==> all_hold(expanded, carries_its_objective(model)),
{
    let carries = carries_its_objective::<Seq<GapDecisionView>>(model);
    assert forall|i: int| 0 <= i < states.len() implies (model.single_steps(
        #[trigger] states[i],
        gap,
        remaining,
        prune,
    ) matches Ok(steps) ==> all_hold(steps, carries)) by {
        let state = states[i];
        assert(carries(state));
        if let Some(place) = gap_position(state.route, gap) {
            let skipped = model.skipping(state, gap, place);
            assert(carries(skipped));
            let added = state.route.len() - model.original.len();
            let first = if !prune || added + remaining >= model.config.requested_added_tracks {
                seq![skipped]
            } else {
                seq![]
            };
            assert(all_hold(first, carries));
            if let Ok(matrix) = model.bridge.gap_matrix(state.route, place) {
                if let Ok(ranked) = evolving_ranked(
                    model.bridge,
                    state.route,
                    place as usize,
                    gap.semantics.candidates,
                    matrix,
                    model.config.guide(),
                    EvolvingAcceptance::FullBridge,
                ) {
                    lemma_bridged_carry(
                        model,
                        state,
                        gap,
                        place,
                        model.followed(ranked, EvolvingAcceptance::FullBridge),
                        0,
                        first,
                    );
                }
            }
        }
    }
    model.lemma_single_layer(states, gap, remaining, prune, 0, seq![], carries);
}

/// Of some states and those that are kept of them, a chosen one scores no more
/// than any of the former with the same length.
proof fn lemma_kept_winner<R>(
    model: ExactModel,
    states: Seq<SearchStateView<R>>,
    kept: Seq<SearchStateView<R>>,
    at: int,
)
    requires
        0 < model.config.beam_width,
        0 <= at < states.len(),
        states[at].route.len() == model.original.len() + model.config.requested_added_tracks,
        kept == states || kept == crate::states::kept_states(
            states,
            model.original.len() as int,
            model.config.beam_width as int,
        ),
        all_hold(states, carries_its_objective(model)),
    ensures
        model.winner(kept) matches Some(state) && {
            &&& state.objective <= states[at].objective
            &&& state.route.len() == states[at].route.len()
            &&& carries_its_objective(model)(state)
        },
{
    let original = model.original.len() as int;
    let width = model.config.beam_width as int;
    let length = Some(model.original.len() + model.config.requested_added_tracks);
    if kept == states {
        the_chosen_state_scores_least(states, length, at);
        let found = best_from(states, length, 0, None)->Some_0;
        assert(carries_its_objective::<R>(model)(states[found]));
    } else {
        lemma_kept_hold(states, carries_its_objective(model), original, width);
        the_best_of_every_count_is_kept(states, original, width, at);
        the_beam_drops_only_what_scores_no_less(states, original, width, at);
        let k = if exists|i: int|
            0 <= i < kept.len() && (#[trigger] kept[i]).route == states[at].route
                && kept[i].objective <= states[at].objective {
            choose|i: int|
                0 <= i < kept.len() && (#[trigger] kept[i]).route == states[at].route
                    && kept[i].objective <= states[at].objective
        } else {
            choose|i: int|
                0 <= i < kept.len() && (#[trigger] kept[i]).route.len() == states[at].route.len()
        };
        assert(kept[k].objective <= states[at].objective);
        the_chosen_state_scores_least(kept, length, k);
        let found = best_from(kept, length, 0, None)->Some_0;
        assert(carries_its_objective::<R>(model)(kept[found]));
    }
}

proof fn lemma_single_winner(
    model: ExactModel,
    gaps: Seq<AutomaticGapView>,
    prune: bool,
    at: int,
    progress: Progress<Seq<GapDecisionView>>,
    seen: nat,
    index: int,
)
    requires
        0 < model.config.beam_width,
        0 <= at <= gaps.len(),
        all_hold(progress.states, carries_its_objective(model)),
        0 <= index < model.single_weighed(gaps, prune, at, progress).len(),
        model.single_weighed(gaps, prune, at, progress)[index].route.len() == model.original.len()
            + model.config.requested_added_tracks,
        model.single_from(gaps, prune, at, progress, seen) is Ok,
    ensures
        ({
            let state = model.single_weighed(gaps, prune, at, progress)[index];
            &&& carries_its_objective(model)(state)
            &&& model.winner(
                model.single_from(gaps, prune, at, progress, seen)->Ok_0.0.states,
            ) matches Some(winner) && {
                &&& winner.objective <= state.objective
                &&& winner.route.len() == state.route.len()
                &&& carries_its_objective(model)(winner)
            }
        }),
    decreases gaps.len() - at,
{
    let weighed = model.single_weighed(gaps, prune, at, progress);
    if at >= gaps.len() {
        assert(carries_its_objective::<Seq<GapDecisionView>>(model)(weighed[index]));
        lemma_kept_winner(model, weighed, weighed, index);
    } else {
        let remaining = gaps.len() - (at + 1);
        lemma_single_layer_carries(model, progress.states, gaps[at], remaining, prune);
        let expanded = model.single_layer_from(
            progress.states,
            gaps[at],
            remaining,
            prune,
            0,
            seq![],
        )->Ok_0;
        let original = model.original.len() as int;
        let width = model.config.beam_width as int;
        let next = advanced(progress, expanded, original, width);
        let later = crate::anchored_path::larger(
            crate::anchored_path::larger(
                seen,
                crate::states::most_added(
                    progress.states,
                    original,
                    progress.states.len() as int,
                ),
            ),
            crate::states::most_added(expanded, original, expanded.len() as int),
        );
        if at + 1 == gaps.len() {
            assert(carries_its_objective::<Seq<GapDecisionView>>(model)(weighed[index]));
            lemma_kept_winner(model, expanded, next.states, index);
            assert(model.single_from(gaps, prune, at + 1, next, later) == Ok::<
                (Progress<Seq<GapDecisionView>>, nat),
                PreviewErrorView,
            >((next, later)));
        } else {
            lemma_kept_hold(expanded, carries_its_objective(model), original, width);
            lemma_single_winner(model, gaps, prune, at + 1, next, later, index);
        }
    }
}

proof fn lemma_branches_carry(
    model: ExactModel,
    variant: PathState,
    at: int,
    followed: Seq<BridgeCandidateEvaluation>,
    next: int,
    done: Seq<PathState>,
)
    requires
        0 <= next,
        all_hold(done, carries_its_objective(model)),
    ensures
        model.branches_from(variant, at, followed, next, done) matches Ok(states) ==> all_hold(
            states,
            carries_its_objective(model),
        ),
    decreases followed.len() - next,
{
    if next < followed.len() {
        if let Ok(state) = model.branch(variant, at, followed[next]) {
            lemma_all_hold_push(done, state, carries_its_objective(model));
            lemma_branches_carry(model, variant, at, followed, next + 1, done.push(state));
        }
    }
}

proof fn lemma_frontier_carries(
    model: ExactModel,
    frontier: Seq<PathState>,
    gap: AutomaticGapView,
    matrix: Option<ContextMatrixView>,
    at: int,
    done: Seq<PathState>,
)
    requires
        0 <= at,
        all_hold(done, carries_its_objective(model)),
    ensures
        model.frontier_from(frontier, gap, matrix, at, done) matches Ok(states) ==> all_hold(
            states,
            carries_its_objective(model),
        ),
    decreases frontier.len() - at,
{
    if at < frontier.len() {
        let variant = frontier[at];
        if let Some(place) = right_position(variant.route, gap) {
            if let Ok(ranked) = evolving_ranked(
                model.bridge,
                variant.route,
                place as usize,
                gap.semantics.candidates,
                matrix,
                model.config.guide(),
                EvolvingAcceptance::ReachableFromLeft,
            ) {
                lemma_branches_carry(
                    model,
                    variant,
                    place,
                    model.followed(ranked, EvolvingAcceptance::ReachableFromLeft),
                    0,
                    done,
                );
            }
        }
        if let Ok(steps) = model.variant_steps(variant, gap, matrix, done) {
            lemma_frontier_carries(model, frontier, gap, matrix, at + 1, steps);
        }
    }
}

proof fn lemma_finished_carry(
    model: ExactModel,
    base: Seq<Seq<usize>>,
    frontier: Seq<PathState>,
    done: Seq<FilledState>,
    count: int,
)
    requires
        0 <= count <= frontier.len(),
        all_hold(frontier, carries_its_objective(model)),
        all_hold(done, carries_its_objective(model)),
    ensures
        all_hold(
            model.finished_upto(base, frontier, done, count),
            carries_its_objective(model),
        ),
    decreases count,
{
    if count > 0 {
        lemma_finished_carry(model, base, frontier, done, count - 1);
        let variant = frontier[count - 1];
        assert(carries_its_objective(model)(variant));
        lemma_all_hold_push(
            model.finished_upto(base, frontier, done, count - 1),
            model.finished(base, variant),
            carries_its_objective(model),
        );
    }
}

proof fn lemma_filled_carry(
    model: ExactModel,
    base: Seq<Seq<usize>>,
    gap: AutomaticGapView,
    matrix: Option<ContextMatrixView>,
    limit: int,
    depth: int,
    frontier: Seq<PathState>,
    done: Seq<FilledState>,
)
    requires
        all_hold(frontier, carries_its_objective(model)),
        all_hold(done, carries_its_objective(model)),
    ensures
        model.filled_from(base, gap, matrix, limit, depth, frontier, done) matches Ok(states)
            ==> all_hold(states, carries_its_objective(model)),
    decreases limit - depth,
{
    let completed = model.finished_upto(base, frontier, done, frontier.len() as int);
    lemma_finished_carry(model, base, frontier, done, frontier.len() as int);
    if depth < limit && frontier.len() > 0 {
        lemma_frontier_carries(model, frontier, gap, matrix, 0, seq![]);
        if let Ok(next) = model.frontier_from(frontier, gap, matrix, 0, seq![]) {
            let carries = carries_its_objective(model);
            let sorted = stable_sort(next, best_path_first());
            lemma_all_hold(next, carries, best_path_first(), same_state_route(), 0);
            lemma_all_hold(sorted, carries, best_path_first(), same_state_route(), 0);
            lemma_all_hold(
                dedup(sorted, same_state_route()),
                carries,
                best_path_first(),
                same_state_route(),
                model.config.beam_width as int,
            );
            lemma_filled_carry(
                model,
                base,
                gap,
                matrix,
                limit,
                depth + 1,
                model.narrowed(next),
                completed,
            );
        }
    }
}

proof fn lemma_multi_layer_carries(
    model: ExactModel,
    states: Seq<FilledState>,
    gap: AutomaticGapView,
    index: int,
    done: Seq<FilledState>,
)
    requires
        0 <= index,
        all_hold(states, carries_its_objective(model)),
        all_hold(done, carries_its_objective(model)),
    ensures
        model.multi_layer_from(states, gap, index, done) matches Ok(expanded) ==> all_hold(
            expanded,
            carries_its_objective(model),
        ),
    decreases states.len() - index,
{
    if index < states.len() {
        let state = states[index];
        assert(carries_its_objective(model)(state));
        let left = position(state.route, gap.left);
        if let Ok(matrix) = model.bridge.gap_matrix(state.route, left + 1) {
            let entering = model.entering(state);
            assert(carries_its_objective(model)(entering));
            lemma_filled_carry(
                model,
                state.record,
                gap,
                matrix,
                model.depth_limit(state.route),
                0,
                seq![entering],
                done,
            );
        }
        if let Ok(steps) = model.multi_steps(state, gap, done) {
            lemma_multi_layer_carries(model, states, gap, index + 1, steps);
        }
    }
}

proof fn lemma_multi_winner(
    model: ExactModel,
    gaps: Seq<AutomaticGapView>,
    at: int,
    progress: Progress<Seq<Seq<usize>>>,
    index: int,
)
    requires
        0 < model.config.beam_width,
        0 <= at <= gaps.len(),
        all_hold(progress.states, carries_its_objective(model)),
        0 <= index < model.multi_weighed(gaps, at, progress).len(),
        model.multi_weighed(gaps, at, progress)[index].route.len() == model.original.len()
            + model.config.requested_added_tracks,
        model.multi_from(gaps, at, progress) is Ok,
    ensures
        ({
            let state = model.multi_weighed(gaps, at, progress)[index];
            &&& carries_its_objective(model)(state)
            &&& model.winner(model.multi_from(gaps, at, progress)->Ok_0.states) matches Some(winner)
                && {
                &&& winner.objective <= state.objective
                &&& winner.route.len() == state.route.len()
                &&& carries_its_objective(model)(winner)
            }
        }),
    decreases gaps.len() - at,
{
    let weighed = model.multi_weighed(gaps, at, progress);
    if at >= gaps.len() {
        assert(carries_its_objective::<Seq<Seq<usize>>>(model)(weighed[index]));
        lemma_kept_winner(model, weighed, weighed, index);
    } else {
        lemma_multi_layer_carries(model, progress.states, gaps[at], 0, seq![]);
        let expanded = model.multi_layer_from(progress.states, gaps[at], 0, seq![])->Ok_0;
        let original = model.original.len() as int;
        let width = model.config.beam_width as int;
        let next = advanced(progress, expanded, original, width);
        if at + 1 == gaps.len() {
            assert(carries_its_objective::<Seq<Seq<usize>>>(model)(weighed[index]));
            lemma_kept_winner(model, expanded, next.states, index);
            assert(model.multi_from(gaps, at + 1, next) == Ok::<
                Progress<Seq<Seq<usize>>>,
                PreviewErrorView,
            >(next));
        } else {
            lemma_kept_hold(expanded, carries_its_objective(model), original, width);
            lemma_multi_winner(model, gaps, at + 1, next, index);
        }
    }
}

/// Whether the objective of one route is no larger than that of another.
pub open spec fn scores_no_more(
    model: ExactModel,
    chosen: Seq<usize>,
    other: Seq<usize>,
) -> bool {
    match (
        search_objective(model.bridge, chosen, model.original),
        search_objective(model.bridge, other, model.original),
    ) {
        (Ok(mine), Ok(theirs)) => mine <= theirs,
        _ => false,
    }
}

/// An exact request is met where a route that is weighed in the end adds as many
/// tracks as are asked for, and the route that is chosen then has an objective
/// no larger than any of these.
pub proof fn met_requests_score_least(model: ExactModel, gaps: Seq<AutomaticGapView>, index: int)
    requires
        model.selection(gaps) is Ok,
        0 <= index < model.weighed_routes(gaps).len(),
        model.weighed_routes(gaps)[index].len() == model.original.len()
            + model.config.requested_added_tracks,
    ensures
        model.selection(gaps)->Ok_0.final_route matches Some(route) && route.len()
            == model.weighed_routes(gaps)[index].len() && scores_no_more(
            model,
            route,
            model.weighed_routes(gaps)[index],
        ),
{
    let ordered = stable_sort(gaps, original_order());
    assert(model.refusal() is None);
    let objective = search_objective(model.bridge, model.original, model.original)->Ok_0;
    if model.config.max_tracks_per_gap == 1 {
        let prune = model.config.requested_added_tracks <= gap_bound(ordered, 1);
        let start = model.beginning(objective, Seq::<GapDecisionView>::empty());
        assert(all_hold(start.states, carries_its_objective(model)));
        lemma_single_winner(model, ordered, prune, 0, start, 0, index);
    } else {
        let start = model.beginning(objective, Seq::<Seq<usize>>::empty());
        assert(all_hold(start.states, carries_its_objective(model)));
        lemma_multi_winner(model, ordered, 0, start, index);
    }
}

proof fn lemma_with_closing_carries(
    model: ExactModel,
    inner: Inner,
    route: Seq<usize>,
    noted: Seq<EndpointDecisionView>,
    closing: Option<SelectedEndpointView>,
    run: EndpointRunView,
)
    requires
        all_hold(run.variants, carries_its_objective(model)),
    ensures
        model.with_closing(inner, route, noted, closing, run) matches Ok(next) ==> all_hold(
            next.variants,
            carries_its_objective(model),
        ),
{
    if let Ok(next) = model.with_closing(inner, route, noted, closing, run) {
        if next.variants.len() > run.variants.len() {
            assert(next.variants =~= run.variants.push(next.variants.last()));
            lemma_all_hold_push(
                run.variants,
                next.variants.last(),
                carries_its_objective(model),
            );
        }
    }
}

proof fn lemma_closings_carry(
    model: ExactModel,
    inner: Inner,
    route: Seq<usize>,
    noted: Seq<EndpointDecisionView>,
    choices: Seq<SelectedEndpointView>,
    at: int,
    run: EndpointRunView,
)
    requires
        0 <= at,
        all_hold(run.variants, carries_its_objective(model)),
    ensures
        model.closings_from(inner, route, noted, choices, at, run) matches Ok(next) ==> all_hold(
            next.variants,
            carries_its_objective(model),
        ),
    decreases choices.len() - at,
{
    if at < choices.len() {
        lemma_with_closing_carries(model, inner, route, noted, Some(choices[at]), run);
        if let Ok(next) = model.with_closing(inner, route, noted, Some(choices[at]), run) {
            lemma_closings_carry(model, inner, route, noted, choices, at + 1, next);
        }
    }
}

proof fn lemma_with_opening_carries(
    model: ExactModel,
    inner: Inner,
    route: Seq<usize>,
    opening: Option<SelectedEndpointView>,
    use_closing: bool,
    run: EndpointRunView,
)
    requires
        all_hold(run.variants, carries_its_objective(model)),
    ensures
        model.with_opening(inner, route, opening, use_closing, run) matches Ok(next) ==> all_hold(
            next.variants,
            carries_its_objective(model),
        ),
{
    let begun = opened(route, opening);
    let noted = noted_end(seq![], EndpointSlot::Opening, inner.ends.opening, opening);
    if use_closing && inner.ends.closing is Some {
        if let Ok(choices) = model.tried(
            begun,
            EndpointSlot::Closing,
            inner.ends.closing->Some_0,
        ) {
            lemma_closings_carry(model, inner, begun, noted, choices, 0, run);
        }
    } else {
        lemma_with_closing_carries(model, inner, begun, noted, None, run);
    }
}

proof fn lemma_openings_carry(
    model: ExactModel,
    inner: Inner,
    route: Seq<usize>,
    use_closing: bool,
    choices: Seq<SelectedEndpointView>,
    at: int,
    run: EndpointRunView,
)
    requires
        0 <= at,
        all_hold(run.variants, carries_its_objective(model)),
    ensures
        model.openings_from(inner, route, use_closing, choices, at, run) matches Ok(next)
            ==> all_hold(next.variants, carries_its_objective(model)),
    decreases choices.len() - at,
{
    if at < choices.len() {
        lemma_with_opening_carries(model, inner, route, Some(choices[at]), use_closing, run);
        if let Ok(next) = model.with_opening(inner, route, Some(choices[at]), use_closing, run) {
            lemma_openings_carry(model, inner, route, use_closing, choices, at + 1, next);
        }
    }
}

proof fn lemma_combined_carries(
    model: ExactModel,
    gaps: Seq<AutomaticGapView>,
    ends: ExactEndpointSlotsView,
    use_opening: bool,
    use_closing: bool,
    run: EndpointRunView,
)
    requires
        all_hold(run.variants, carries_its_objective(model)),
    ensures
        model.combined(gaps, ends, use_opening, use_closing, run) matches Ok(next) ==> all_hold(
            next.variants,
            carries_its_objective(model),
        ),
{
    let end_count = (if use_opening {
        1int
    } else {
        0
    }) + (if use_closing {
        1int
    } else {
        0
    });
    let inside = model.inside(end_count);
    let ordered = stable_sort(gaps, original_order());
    if let Ok(found) = inside.selection(gaps) {
        let inner = Inner {
            gaps: ordered,
            chosen: chosen_for_gaps(found.decisions, ordered),
            ends,
        };
        let counted = EndpointRunView {
            variants: run.variants,
            evaluated: crate::anchored_path::capped_sum(
                run.evaluated,
                found.stats.evaluated_states as int,
            ),
            retained: crate::anchored_path::capped_sum(
                run.retained,
                found.stats.retained_states as int,
            ),
            most: crate::anchored_path::larger(
                run.most,
                found.stats.maximum_additions_found as nat,
            ),
        };
        if let Some(route) = found.final_route {
            if use_opening {
                if let Ok(choices) = model.tried(
                    route,
                    EndpointSlot::Opening,
                    ends.opening->Some_0,
                ) {
                    lemma_openings_carry(
                        model,
                        inner,
                        route,
                        use_closing,
                        choices,
                        0,
                        counted,
                    );
                }
            } else {
                lemma_with_opening_carries(model, inner, route, None, use_closing, counted);
            }
        }
    }
}

proof fn lemma_run_carries(
    model: ExactModel,
    gaps: Seq<AutomaticGapView>,
    ends: ExactEndpointSlotsView,
)
    ensures
        model.endpoint_run(gaps, ends) matches Ok(run) ==> all_hold(
            run.variants,
            carries_its_objective(model),
        ),
{
    let none = EndpointRunView { variants: seq![], evaluated: 0, retained: 0, most: 0 };
    lemma_combined_carries(model, gaps, ends, false, false, none);
    if let Ok(plain) = model.combined(gaps, ends, false, false, none) {
        lemma_combined_carries(model, gaps, ends, false, true, plain);
        if let Ok(closing) = model.combined(gaps, ends, false, true, plain) {
            lemma_combined_carries(model, gaps, ends, true, false, closing);
            if let Ok(opening) = model.combined(gaps, ends, true, false, closing) {
                lemma_combined_carries(model, gaps, ends, true, true, opening);
            }
        }
    }
}

/// With the ends, too, a request is met where any way to use them gives a route,
/// and the route that is chosen has an objective no larger than that of any
/// other that was tried.
pub proof fn met_requests_with_ends_score_least(
    model: ExactModel,
    gaps: Seq<AutomaticGapView>,
    ends: ExactEndpointSlotsView,
    index: int,
)
    requires
        ends.opening is Some || ends.closing is Some,
        model.endpoint_run(gaps, ends) is Ok,
        0 <= index < model.endpoint_run(gaps, ends)->Ok_0.variants.len(),
    ensures
        model.endpoint_selection(gaps, ends) matches Ok(selection) && (
        selection.final_route matches Some(route) && scores_no_more(
            model,
            route,
            model.endpoint_run(gaps, ends)->Ok_0.variants[index].route,
        )),
{
    let variants = model.endpoint_run(gaps, ends)->Ok_0.variants;
    lemma_run_carries(model, gaps, ends);
    the_chosen_state_scores_least(variants, None, index);
    let found = best_from(variants, None, 0, None)->Some_0;
    assert(carries_its_objective::<EndpointRecordView>(model)(variants[found]));
    assert(carries_its_objective::<EndpointRecordView>(model)(variants[index]));
}

} // verus!
