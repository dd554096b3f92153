//! Which states a search for an exact number of tracks goes on to.

use crate::anchored_path::{capped_sum, larger};
use crate::bridge::{BridgeCandidateEvaluation, EndpointSlot};
use crate::contextual::ContextMatrixView;
use crate::exact::{
    DecidedState, EndpointDecisionView, ExactModel, FilledState, SelectedEndpointView,
};
use crate::exact_endpoints::{
    chosen_for_gaps, closed_with, noted_end, opened, EndpointRunView, ExactEndpointSlotsView, Inner,
};
use crate::exact_multi::{final_decisions, PathState};
use crate::preview::{
    evolving_ranked, gap_position, original_order, right_position, search_objective,
    AutomaticGapView, EvolvingAcceptance, PreviewErrorView,
};
use crate::sequences::position;
use crate::sorting::stable_sort;
use crate::states::SearchStateView;
use vstd::prelude::*;

verus! {

// One track to a gap.

/// Whether a state has a route and the objective of that route.
pub open spec fn is_scored<R>(
    model: ExactModel,
    state: SearchStateView<R>,
    route: Seq<usize>,
) -> bool {
    &&& state.route == route
    &&& search_objective(model.bridge, route, model.original) == Ok::<nat, PreviewErrorView>(
        state.objective,
    )
}

proof fn lemma_bridged(
    model: ExactModel,
    state: DecidedState,
    gap: AutomaticGapView,
    at: int,
    followed: Seq<BridgeCandidateEvaluation>,
    next: int,
    done: Seq<DecidedState>,
)
    requires
        0 <= next <= followed.len(),
        0 <= at <= state.route.len(),
    ensures
        model.bridged_from(state, gap, at, followed, next, done) matches Ok(states) ==> {
            &&& done.len() <= states.len()
            &&& forall|i: int| 0 <= i < done.len() ==> #[trigger] states[i] == done[i]
            &&& forall|i: int|
                done.len() <= i < states.len() ==> (#[trigger] states[i]).route.len()
                    == state.route.len() + 1
            &&& forall|k: int|
                next <= k < followed.len() ==> exists|i: int|
                    0 <= i < states.len() && is_scored(
                        model,
                        #[trigger] states[i],
                        state.route.insert(at, (#[trigger] followed[k]).candidate),
                    )
        },
    decreases followed.len() - next,
{
    if next < followed.len() {
        if let Ok(bridged) = model.bridging(state, gap, at, followed[next]) {
            let more = done.push(bridged);
            lemma_bridged(model, state, gap, at, followed, next + 1, more);
            if let Ok(states) = model.bridged_from(state, gap, at, followed, next, done) {
                assert(states[done.len() as int] == bridged) by {
                    assert(states[done.len() as int] == more[done.len() as int]);
                }
                assert(is_scored(
                    model,
                    states[done.len() as int],
                    state.route.insert(at, followed[next].candidate),
                ));
                assert forall|i: int| 0 <= i < done.len() implies #[trigger] states[i]
                    == done[i] by {
                    assert(states[i] == more[i]);
                }
            }
        }
    }
}

/// At a gap that takes one track at most, a search goes on without a track where
/// the gaps that are left can still give the requested number, and with each
/// candidate that is followed up while tracks are wanted. It goes on with no more
/// tracks once it has them, and not without one where the number could no longer
/// be reached.
pub proof fn gaps_are_skipped_or_bridged(
    model: ExactModel,
    state: DecidedState,
    gap: AutomaticGapView,
    remaining: int,
    prune: bool,
    at: int,
    followed: Seq<BridgeCandidateEvaluation>,
)
    requires
        gap_position(state.route, gap) == Some(at),
        0 <= at <= state.route.len(),
        model.bridge.gap_matrix(state.route, at) matches Ok(matrix) && evolving_ranked(
            model.bridge,
            state.route,
            at as usize,
            gap.semantics.candidates,
            matrix,
            model.config.guide(),
            EvolvingAcceptance::FullBridge,
        ) matches Ok(ranked) && followed == model.followed(
            ranked,
            EvolvingAcceptance::FullBridge,
        ),
    ensures
        model.single_steps(state, gap, remaining, prune) matches Ok(steps) ==> {
            let added = state.route.len() - model.original.len();
            let wanted = model.config.requested_added_tracks as int;
            &&& added + remaining >= wanted || !prune ==> exists|i: int|
                0 <= i < steps.len() && (#[trigger] steps[i]).route == state.route
                    && steps[i].objective == state.objective
            &&& added < wanted && gap.semantics.candidates.len() > 0 ==> forall|k: int|
                0 <= k < followed.len() ==> exists|i: int|
                    0 <= i < steps.len() && is_scored(
                        model,
                        #[trigger] steps[i],
                        state.route.insert(at, (#[trigger] followed[k]).candidate),
                    )
            &&& forall|i: int|
                0 <= i < steps.len() ==> state.route.len() <= (#[trigger] steps[i]).route.len()
                    <= state.route.len() + 1
            &&& added >= wanted ==> forall|i: int|
                0 <= i < steps.len() ==> (#[trigger] steps[i]).route == state.route
            &&& prune && added + remaining < wanted ==> forall|i: int|
                0 <= i < steps.len() ==> (#[trigger] steps[i]).route.len() > state.route.len()
        },
{
    if let Ok(steps) = model.single_steps(state, gap, remaining, prune) {
        let added = state.route.len() - model.original.len();
        let wanted = model.config.requested_added_tracks as int;
        let skipped = if !prune || added + remaining >= wanted {
            seq![model.skipping(state, gap, at)]
        } else {
            seq![]
        };
        if added < wanted && gap.semantics.candidates.len() > 0 {
            lemma_bridged(model, state, gap, at, followed, 0, skipped);
        }
        if skipped.len() > 0 {
            assert(steps[0] == skipped[0]);
            assert(steps[0].route == state.route);
        }
    }
}

// Several tracks to a gap.

/// No gap takes more tracks than it may, nor more than are still wanted; and it
/// may take as many.
pub proof fn gaps_take_what_is_wanted_within_their_limit(model: ExactModel, route: Seq<usize>)
    ensures
        ({
            let wanted = model.config.requested_added_tracks - (route.len() - model.original.len());
            let most = model.config.max_tracks_per_gap as int;
            &&& wanted <= 0 ==> model.depth_limit(route) == 0
            &&& 0 < wanted <= most ==> model.depth_limit(route) == wanted
            &&& most <= wanted ==> wanted <= 0 || model.depth_limit(route) == most
        }),
{
}

proof fn lemma_branches(
    model: ExactModel,
    variant: PathState,
    at: int,
    followed: Seq<BridgeCandidateEvaluation>,
    next: int,
    done: Seq<PathState>,
)
    requires
        0 <= next <= followed.len(),
    ensures
        model.branches_from(variant, at, followed, next, done) matches Ok(states) ==> {
            &&& done.len() <= states.len()
            &&& forall|i: int| 0 <= i < done.len() ==> #[trigger] states[i] == done[i]
            &&& forall|k: int|
                next <= k < followed.len() ==> exists|i: int|
                    0 <= i < states.len() && branches_to(
                        model,
                        variant,
                        at,
                        #[trigger] followed[k],
                        #[trigger] states[i],
                    )
        },
    decreases followed.len() - next,
{
    if next < followed.len() {
        if let Ok(state) = model.branch(variant, at, followed[next]) {
            let more = done.push(state);
            lemma_branches(model, variant, at, followed, next + 1, more);
            if let Ok(states) = model.branches_from(variant, at, followed, next, done) {
                assert(states[done.len() as int] == more[done.len() as int]);
                assert(branches_to(model, variant, at, followed[next], states[done.len() as int]));
                assert forall|i: int| 0 <= i < done.len() implies #[trigger] states[i]
                    == done[i] by {
                    assert(states[i] == more[i]);
                }
            }
        }
    }
}

/// Whether a path through a gap goes on to another by one track in front of the
/// right anchor: the other has that track as its last, its own objective, and
/// reaches the anchor exactly where the track makes an accepted bridge.
pub open spec fn branches_to(
    model: ExactModel,
    variant: PathState,
    at: int,
    evaluation: BridgeCandidateEvaluation,
    next: PathState,
) -> bool {
    &&& is_scored(model, next, variant.route.insert(at, evaluation.candidate))
    &&& next.record.selected == variant.record.selected.push(evaluation.candidate)
    &&& next.record.connected == evaluation.accepted
}

proof fn lemma_frontier(
    model: ExactModel,
    frontier: Seq<PathState>,
    gap: AutomaticGapView,
    matrix: Option<ContextMatrixView>,
    at: int,
    done: Seq<PathState>,
    variant: int,
    followed: Seq<BridgeCandidateEvaluation>,
    k: int,
)
    requires
        0 <= at <= frontier.len(),
        0 <= variant < frontier.len(),
        is_followed(model, frontier[variant], gap, matrix, followed),
        0 <= k < followed.len(),
    ensures
        model.frontier_from(frontier, gap, matrix, at, done) matches Ok(states) ==> {
            &&& done.len() <= states.len()
            &&& forall|i: int| 0 <= i < done.len() ==> #[trigger] states[i] == done[i]
            &&& at <= variant ==> exists|i: int|
                0 <= i < states.len() && branches_to(
                    model,
                    frontier[variant],
                    right_position(frontier[variant].route, gap)->Some_0,
                    followed[k],
                    #[trigger] states[i],
                )
        },
    decreases frontier.len() - at,
{
    if at < frontier.len() {
        if let Ok(steps) = model.variant_steps(frontier[at], gap, matrix, done) {
            let place = right_position(frontier[at].route, gap)->Some_0;
            let ranked = evolving_ranked(
                model.bridge,
                frontier[at].route,
                place as usize,
                gap.semantics.candidates,
                matrix,
                model.config.guide(),
                EvolvingAcceptance::ReachableFromLeft,
            )->Ok_0;
            lemma_branches(
                model,
                frontier[at],
                place,
                model.followed(ranked, EvolvingAcceptance::ReachableFromLeft),
                0,
                done,
            );
            lemma_frontier(
                model,
                frontier,
                gap,
                matrix,
                at + 1,
                steps,
                variant,
                followed,
                k,
            );
            if let Ok(states) = model.frontier_from(frontier, gap, matrix, at, done) {
                assert forall|i: int| 0 <= i < done.len() implies #[trigger] states[i]
                    == done[i] by {
                    assert(states[i] == steps[i]);
                }
                if variant == at {
                    assert(followed == model.followed(
                        ranked,
                        EvolvingAcceptance::ReachableFromLeft,
                    ));
                    let i = choose|i: int|
                        0 <= i < steps.len() && branches_to(
                            model,
                            frontier[at],
                            place,
                            followed[k],
                            #[trigger] steps[i],
                        );
                    assert(states[i] == steps[i]);
                }
            }
        }
    }
}

/// Whether these are the candidates that a path through a gap goes on with: those
/// that are followed up of the ones that its end can reach.
pub open spec fn is_followed(
    model: ExactModel,
    variant: PathState,
    gap: AutomaticGapView,
    matrix: Option<ContextMatrixView>,
    followed: Seq<BridgeCandidateEvaluation>,
) -> bool {
    right_position(variant.route, gap) matches Some(at) && evolving_ranked(
        model.bridge,
        variant.route,
        at as usize,
        gap.semantics.candidates,
        matrix,
        model.config.guide(),
        EvolvingAcceptance::ReachableFromLeft,
    ) matches Ok(ranked) && followed == model.followed(
        ranked,
        EvolvingAcceptance::ReachableFromLeft,
    )
}

/// Every path through a gap goes on with each of its candidates.
pub proof fn paths_through_a_gap_go_on_with_every_candidate(
    model: ExactModel,
    frontier: Seq<PathState>,
    gap: AutomaticGapView,
    matrix: Option<ContextMatrixView>,
    variant: int,
    followed: Seq<BridgeCandidateEvaluation>,
    k: int,
)
    requires
        0 <= variant < frontier.len(),
        is_followed(model, frontier[variant], gap, matrix, followed),
        0 <= k < followed.len(),
    ensures
        model.frontier_from(frontier, gap, matrix, 0, seq![]) matches Ok(states) ==> exists|i: int|
            0 <= i < states.len() && branches_to(
                model,
                frontier[variant],
                right_position(frontier[variant].route, gap)->Some_0,
                followed[k],
                #[trigger] states[i],
            ),
{
    lemma_frontier(model, frontier, gap, matrix, 0, seq![], variant, followed, k);
}

/// Whether a state is a path through a gap that reached its right anchor.
pub open spec fn ends_the_path(state: FilledState, path: PathState) -> bool {
    state.route == path.route && state.objective == path.objective
}

proof fn lemma_finished(
    model: ExactModel,
    base: Seq<Seq<usize>>,
    frontier: Seq<PathState>,
    done: Seq<FilledState>,
    count: int,
)
    requires
        0 <= count <= frontier.len(),
    ensures
        ({
            let states = model.finished_upto(base, frontier, done, count);
            &&& done.len() <= states.len()
            &&& forall|i: int| 0 <= i < done.len() ==> #[trigger] states[i] == done[i]
            &&& forall|k: int|
                0 <= k < count && (#[trigger] frontier[k]).record.connected ==> exists|i: int|
                    0 <= i < states.len() && ends_the_path(#[trigger] states[i], frontier[k])
        }),
    decreases count,
{
    if count > 0 {
        lemma_finished(model, base, frontier, done, count - 1);
        let before = model.finished_upto(base, frontier, done, count - 1);
        let states = model.finished_upto(base, frontier, done, count);
        assert(forall|i: int| 0 <= i < before.len() ==> #[trigger] states[i] == before[i]);
        assert forall|k: int|
            0 <= k < count && (#[trigger] frontier[k]).record.connected implies exists|i: int|
            0 <= i < states.len() && ends_the_path(#[trigger] states[i], frontier[k]) by {
            if k < count - 1 {
                let i = choose|i: int|
                    0 <= i < before.len() && ends_the_path(#[trigger] before[i], frontier[k]);
                assert(ends_the_path(states[i], frontier[k]));
            } else {
                assert(ends_the_path(states[states.len() - 1], frontier[k]));
            }
        }
    }
}

proof fn lemma_filled(
    model: ExactModel,
    base: Seq<Seq<usize>>,
    gap: AutomaticGapView,
    matrix: Option<ContextMatrixView>,
    limit: int,
    depth: int,
    frontier: Seq<PathState>,
    done: Seq<FilledState>,
)
    ensures
        model.filled_from(base, gap, matrix, limit, depth, frontier, done) matches Ok(states) ==> {
            &&& done.len() <= states.len()
            &&& forall|i: int| 0 <= i < done.len() ==> #[trigger] states[i] == done[i]
            &&& forall|k: int|
                0 <= k < frontier.len() && (#[trigger] frontier[k]).record.connected ==> exists|
                    i: int,
                |
                    0 <= i < states.len() && ends_the_path(#[trigger] states[i], frontier[k])
        },
    decreases limit - depth,
{
    let completed = model.finished_upto(base, frontier, done, frontier.len() as int);
    lemma_finished(model, base, frontier, done, frontier.len() as int);
    if depth >= limit || frontier.len() == 0 {
        assert(model.filled_from(base, gap, matrix, limit, depth, frontier, done) == Ok::<
            Seq<FilledState>,
            PreviewErrorView,
        >(completed));
    } else {
        if let Ok(next) = model.frontier_from(frontier, gap, matrix, 0, seq![]) {
            lemma_filled(
                model,
                base,
                gap,
                matrix,
                limit,
                depth + 1,
                model.narrowed(next),
                completed,
            );
            if let Ok(states) = model.filled_from(
                base,
                gap,
                matrix,
                limit,
                depth,
                frontier,
                done,
            ) {
                assert(model.filled_from(
                    base,
                    gap,
                    matrix,
                    limit,
                    depth + 1,
                    model.narrowed(next),
                    completed,
                ) == Ok::<Seq<FilledState>, PreviewErrorView>(states));
                assert forall|i: int| 0 <= i < done.len() implies #[trigger] states[i]
                    == done[i] by {
                    assert(states[i] == completed[i]);
                }
                assert forall|k: int|
                    0 <= k < frontier.len() && (
                    #[trigger] frontier[k]).record.connected implies exists|i: int|
                    0 <= i < states.len() && ends_the_path(#[trigger] states[i], frontier[k]) by {
                    let i = choose|i: int|
                        0 <= i < completed.len() && ends_the_path(
                            #[trigger] completed[i],
                            frontier[k],
                        );
                    assert(states[i] == completed[i]);
                }
            }
        }
    }
}

/// Every path that reaches the right anchor of a gap is among the states behind
/// it, and so are those that were there before.
pub proof fn paths_that_reach_the_anchor_are_kept(
    model: ExactModel,
    base: Seq<Seq<usize>>,
    gap: AutomaticGapView,
    matrix: Option<ContextMatrixView>,
    limit: int,
    depth: int,
    frontier: Seq<PathState>,
    done: Seq<FilledState>,
    k: int,
)
    requires
        0 <= k < frontier.len(),
        frontier[k].record.connected,
    ensures
        model.filled_from(base, gap, matrix, limit, depth, frontier, done) matches Ok(states) ==> {
            &&& exists|i: int|
                0 <= i < states.len() && ends_the_path(#[trigger] states[i], frontier[k])
            &&& forall|i: int| 0 <= i < done.len() ==> states.contains(#[trigger] done[i])
        },
{
    lemma_filled(model, base, gap, matrix, limit, depth, frontier, done);
    if let Ok(states) = model.filled_from(base, gap, matrix, limit, depth, frontier, done) {
        assert forall|i: int| 0 <= i < done.len() implies states.contains(#[trigger] done[i]) by {
            assert(states[i] == done[i]);
        }
    }
}

/// A gap may always be left alone, whatever it may take.
pub proof fn gaps_may_be_left_alone(
    model: ExactModel,
    state: FilledState,
    gap: AutomaticGapView,
    done: Seq<FilledState>,
)
    ensures
        model.multi_steps(state, gap, done) matches Ok(states) ==> {
            &&& exists|i: int|
                0 <= i < states.len() && (#[trigger] states[i]).route == state.route
                    && states[i].objective == state.objective
            &&& forall|i: int| 0 <= i < done.len() ==> states.contains(#[trigger] done[i])
        },
{
    if let Ok(states) = model.multi_steps(state, gap, done) {
        let left = position(state.route, gap.left);
        let matrix = model.bridge.gap_matrix(state.route, left + 1)->Ok_0;
        let frontier = seq![model.entering(state)];
        paths_that_reach_the_anchor_are_kept(
            model,
            state.record,
            gap,
            matrix,
            model.depth_limit(state.route),
            0,
            frontier,
            done,
            0,
        );
        let i = choose|i: int|
            0 <= i < states.len() && ends_the_path(#[trigger] states[i], frontier[0]);
        assert(states[i].route == state.route);
    }
}

// The ends.

/// Whether a route is among those that were tried, with its objective.
pub open spec fn is_tried(model: ExactModel, run: EndpointRunView, route: Seq<usize>) -> bool {
    exists|i: int|
        0 <= i < run.variants.len() && is_scored(model, #[trigger] run.variants[i], route)
}

/// Whether a run holds all that another does.
pub open spec fn goes_on(run: EndpointRunView, next: EndpointRunView) -> bool {
    &&& run.variants.len() <= next.variants.len()
    &&& forall|i: int|
        0 <= i < run.variants.len() ==> #[trigger] next.variants[i] == run.variants[i]
}

proof fn lemma_still_tried(
    model: ExactModel,
    run: EndpointRunView,
    next: EndpointRunView,
    route: Seq<usize>,
)
    requires
        goes_on(run, next),
        is_tried(model, run, route),
    ensures
        is_tried(model, next, route),
{
    let i = choose|i: int|
        0 <= i < run.variants.len() && is_scored(model, #[trigger] run.variants[i], route);
    assert(next.variants[i] == run.variants[i]);
}

/// Whether a route with its ends stands up: the tracks in its gaps still make
/// accepted bridges.
pub open spec fn stands_up(model: ExactModel, inner: Inner, route: Seq<usize>) -> bool {
    final_decisions(model.bridge, model.config.guide(), route, inner.gaps, inner.chosen) is Ok
}

proof fn lemma_closing(
    model: ExactModel,
    inner: Inner,
    route: Seq<usize>,
    noted: Seq<EndpointDecisionView>,
    closing: Option<SelectedEndpointView>,
    run: EndpointRunView,
)
    ensures
        model.with_closing(inner, route, noted, closing, run) matches Ok(next) ==> {
            let whole = closed_with(route, closing);
            &&& goes_on(run, next)
            &&& stands_up(model, inner, whole) ==> is_tried(model, next, whole)
        },
{
    if let Ok(next) = model.with_closing(inner, route, noted, closing, run) {
        let whole = closed_with(route, closing);
        if stands_up(model, inner, whole) {
            assert(is_scored(model, next.variants[run.variants.len() as int], whole));
        }
    }
}

proof fn lemma_closings(
    model: ExactModel,
    inner: Inner,
    route: Seq<usize>,
    noted: Seq<EndpointDecisionView>,
    choices: Seq<SelectedEndpointView>,
    at: int,
    run: EndpointRunView,
    k: int,
)
    requires
        0 <= at <= choices.len(),
    ensures
        model.closings_from(inner, route, noted, choices, at, run) matches Ok(next) ==> {
            &&& goes_on(run, next)
            &&& at <= k < choices.len() && stands_up(
                model,
                inner,
                route.push(choices[k].evaluation.candidate),
            ) ==> is_tried(model, next, route.push(choices[k].evaluation.candidate))
        },
    decreases choices.len() - at,
{
    if at < choices.len() {
        lemma_closing(model, inner, route, noted, Some(choices[at]), run);
        if let Ok(one) = model.with_closing(inner, route, noted, Some(choices[at]), run) {
            lemma_closings(model, inner, route, noted, choices, at + 1, one, k);
            if let Ok(next) = model.closings_from(inner, route, noted, choices, at, run) {
                assert(goes_on(one, next));
                assert(goes_on(run, next)) by {
                    assert forall|i: int| 0 <= i < run.variants.len() implies #[trigger]
                        next.variants[i] == run.variants[i] by {
                        assert(one.variants[i] == run.variants[i]);
                    }
                }
                if k == at && stands_up(
                    model,
                    inner,
                    route.push(choices[k].evaluation.candidate),
                ) {
                    lemma_still_tried(
                        model,
                        one,
                        next,
                        route.push(choices[k].evaluation.candidate),
                    );
                }
            }
        }
    }
}

/// Whether a track is one of those tried behind a route, or none is wanted there.
pub open spec fn closes_with(
    model: ExactModel,
    inner: Inner,
    route: Seq<usize>,
    use_closing: bool,
    closing: Option<SelectedEndpointView>,
) -> bool {
    if use_closing && inner.ends.closing is Some {
        closing is Some && (model.tried(
            route,
            EndpointSlot::Closing,
            inner.ends.closing->Some_0,
        ) matches Ok(choices) && choices.contains(closing->Some_0))
    } else {
        closing is None
    }
}

proof fn lemma_opening(
    model: ExactModel,
    inner: Inner,
    route: Seq<usize>,
    opening: Option<SelectedEndpointView>,
    use_closing: bool,
    run: EndpointRunView,
    closing: Option<SelectedEndpointView>,
)
    ensures
        model.with_opening(inner, route, opening, use_closing, run) matches Ok(next) ==> {
            let begun = opened(route, opening);
            let whole = closed_with(begun, closing);
            &&& goes_on(run, next)
            &&& closes_with(model, inner, begun, use_closing, closing) && stands_up(
                model,
                inner,
                whole,
            ) ==> is_tried(model, next, whole)
        },
{
    let begun = opened(route, opening);
    let noted = noted_end(seq![], EndpointSlot::Opening, inner.ends.opening, opening);
    if use_closing && inner.ends.closing is Some {
        if let Ok(choices) = model.tried(begun, EndpointSlot::Closing, inner.ends.closing->Some_0) {
            if closing is Some && choices.contains(closing->Some_0) {
                let k = choose|k: int|
                    0 <= k < choices.len() && choices[k] == closing->Some_0;
                lemma_closings(model, inner, begun, noted, choices, 0, run, k);
            } else {
                lemma_closings(model, inner, begun, noted, choices, 0, run, 0);
            }
        }
    } else {
        lemma_closing(model, inner, begun, noted, None, run);
    }
}

proof fn lemma_openings(
    model: ExactModel,
    inner: Inner,
    route: Seq<usize>,
    use_closing: bool,
    choices: Seq<SelectedEndpointView>,
    at: int,
    run: EndpointRunView,
    k: int,
    closing: Option<SelectedEndpointView>,
)
    requires
        0 <= at <= choices.len(),
    ensures
        model.openings_from(inner, route, use_closing, choices, at, run) matches Ok(next) ==> {
            let begun = opened(route, Some(choices[k]));
            let whole = closed_with(begun, closing);
            &&& goes_on(run, next)
            &&& at <= k < choices.len() && closes_with(
                model,
                inner,
                begun,
                use_closing,
                closing,
            ) && stands_up(model, inner, whole) ==> is_tried(model, next, whole)
        },
    decreases choices.len() - at,
{
    if at < choices.len() {
        lemma_opening(model, inner, route, Some(choices[at]), use_closing, run, closing);
        if let Ok(one) = model.with_opening(inner, route, Some(choices[at]), use_closing, run) {
            lemma_openings(model, inner, route, use_closing, choices, at + 1, one, k, closing);
            if let Ok(next) = model.openings_from(inner, route, use_closing, choices, at, run) {
                assert(goes_on(one, next));
                assert(goes_on(run, next)) by {
                    assert forall|i: int| 0 <= i < run.variants.len() implies #[trigger]
                        next.variants[i] == run.variants[i] by {
                        assert(one.variants[i] == run.variants[i]);
                    }
                }
                let begun = opened(route, Some(choices[k]));
                let whole = closed_with(begun, closing);
                if k == at && is_tried(model, one, whole) {
                    lemma_still_tried(model, one, next, whole);
                }
            }
        }
    }
}

/// Whether a track is one of those tried in front of a route, or none is wanted
/// there.
pub open spec fn opens_with(
    model: ExactModel,
    ends: ExactEndpointSlotsView,
    route: Seq<usize>,
    use_opening: bool,
    opening: Option<SelectedEndpointView>,
) -> bool {
    if use_opening {
        opening is Some && ends.opening is Some && (model.tried(
            route,
            EndpointSlot::Opening,
            ends.opening->Some_0,
        ) matches Ok(choices) && choices.contains(opening->Some_0))
    } else {
        opening is None
    }
}

/// How many tracks the ends take.
pub open spec fn taken_by_ends(use_opening: bool, use_closing: bool) -> int {
    if use_opening && use_closing {
        2
    } else if use_opening || use_closing {
        1
    } else {
        0
    }
}

/// The run with the ends tried around a route.
spec fn tried_around(
    model: ExactModel,
    inner: Inner,
    route: Seq<usize>,
    use_opening: bool,
    use_closing: bool,
    run: EndpointRunView,
) -> Result<EndpointRunView, PreviewErrorView> {
    if use_opening {
        match model.tried(route, EndpointSlot::Opening, inner.ends.opening->Some_0) {
            Err(error) => Err(error),
            Ok(choices) => model.openings_from(inner, route, use_closing, choices, 0, run),
        }
    } else {
        model.with_opening(inner, route, None, use_closing, run)
    }
}

proof fn lemma_tried_around(
    model: ExactModel,
    inner: Inner,
    route: Seq<usize>,
    use_opening: bool,
    use_closing: bool,
    run: EndpointRunView,
    opening: Option<SelectedEndpointView>,
    closing: Option<SelectedEndpointView>,
)
    ensures
        tried_around(model, inner, route, use_opening, use_closing, run) matches Ok(next) ==> {
            let begun = opened(route, opening);
            let whole = closed_with(begun, closing);
            &&& goes_on(run, next)
            &&& opens_with(model, inner.ends, route, use_opening, opening) && closes_with(
                model,
                inner,
                begun,
                use_closing,
                closing,
            ) && stands_up(model, inner, whole) ==> is_tried(model, next, whole)
        },
{
    if use_opening {
        if let Ok(choices) = model.tried(route, EndpointSlot::Opening, inner.ends.opening->Some_0) {
            if opening is Some && choices.contains(opening->Some_0) {
                let k = choose|k: int| 0 <= k < choices.len() && choices[k] == opening->Some_0;
                lemma_openings(model, inner, route, use_closing, choices, 0, run, k, closing);
            } else {
                lemma_openings(model, inner, route, use_closing, choices, 0, run, 0, closing);
            }
        }
    } else {
        lemma_opening(model, inner, route, None, use_closing, run, closing);
    }
}

/// A run with more counted.
spec fn counted_on(
    run: EndpointRunView,
    evaluated: usize,
    retained: usize,
    most: usize,
) -> EndpointRunView {
    EndpointRunView {
        variants: run.variants,
        evaluated: capped_sum(run.evaluated, evaluated as int),
        retained: capped_sum(run.retained, retained as int),
        most: larger(run.most, most as nat),
    }
}

proof fn lemma_combined_around(
    model: ExactModel,
    gaps: Seq<AutomaticGapView>,
    ends: ExactEndpointSlotsView,
    use_opening: bool,
    use_closing: bool,
    run: EndpointRunView,
)
    ensures
        ({
            let count = taken_by_ends(use_opening, use_closing);
            let out = (use_opening && ends.opening is None) || (use_closing && ends.closing is None)
                || count > model.config.requested_added_tracks;
            let selection = model.inside(count).selection(gaps);
            let stats = selection->Ok_0.stats;
            let counted = counted_on(
                run,
                stats.evaluated_states,
                stats.retained_states,
                stats.maximum_additions_found,
            );
            let combined = model.combined(gaps, ends, use_opening, use_closing, run);
            &&& out ==> combined == Ok::<EndpointRunView, PreviewErrorView>(run)
            &&& !out && selection is Err ==> combined is Err
            &&& !out && selection is Ok && selection->Ok_0.final_route is None ==> combined == Ok::<
                EndpointRunView,
                PreviewErrorView,
            >(counted)
            &&& !out && selection is Ok && selection->Ok_0.final_route is Some ==> combined
                == tried_around(
                model,
                inner_of(model, gaps, ends, count),
                selection->Ok_0.final_route->Some_0,
                use_opening,
                use_closing,
                counted,
            )
        }),
{
}

proof fn lemma_whole(
    model: ExactModel,
    gaps: Seq<AutomaticGapView>,
    use_opening: bool,
    use_closing: bool,
    opening: Option<SelectedEndpointView>,
    closing: Option<SelectedEndpointView>,
    route: Seq<usize>,
)
    requires
        route == model.inside(taken_by_ends(use_opening, use_closing)).selection(
            gaps,
        )->Ok_0.final_route->Some_0,
    ensures
        closed_with(opened(route, opening), closing) == whole_route(
            model,
            gaps,
            use_opening,
            use_closing,
            opening,
            closing,
        ),
{
    if opening is Some {
        assert(opened(route, opening) =~= seq![opening->Some_0.evaluation.candidate] + route);
    }
    if closing is Some {
        let begun = opened(route, opening);
        assert(closed_with(begun, closing) =~= begun + seq![
            closing->Some_0.evaluation.candidate,
        ]);
    }
}

proof fn lemma_combined(
    model: ExactModel,
    gaps: Seq<AutomaticGapView>,
    ends: ExactEndpointSlotsView,
    use_opening: bool,
    use_closing: bool,
    run: EndpointRunView,
    opening: Option<SelectedEndpointView>,
    closing: Option<SelectedEndpointView>,
)
    ensures
        model.combined(gaps, ends, use_opening, use_closing, run) matches Ok(next) ==> {
            &&& goes_on(run, next)
            &&& is_a_way(model, gaps, ends, use_opening, use_closing, opening, closing) ==> is_tried(
                model,
                next,
                whole_route(model, gaps, use_opening, use_closing, opening, closing),
            )
        },
{
    let count = taken_by_ends(use_opening, use_closing);
    lemma_combined_around(model, gaps, ends, use_opening, use_closing, run);
    let selection = model.inside(count).selection(gaps);
    if selection is Ok && selection->Ok_0.final_route is Some {
        let stats = selection->Ok_0.stats;
        let route = selection->Ok_0.final_route->Some_0;
        let counted = counted_on(
            run,
            stats.evaluated_states,
            stats.retained_states,
            stats.maximum_additions_found,
        );
        lemma_tried_around(
            model,
            inner_of(model, gaps, ends, count),
            route,
            use_opening,
            use_closing,
            counted,
            opening,
            closing,
        );
        lemma_whole(model, gaps, use_opening, use_closing, opening, closing, route);
    }
}

/// What the ends are tried around once they leave the rest to the gaps.
pub open spec fn inner_of(
    model: ExactModel,
    gaps: Seq<AutomaticGapView>,
    ends: ExactEndpointSlotsView,
    count: int,
) -> Inner {
    let ordered = stable_sort(gaps, original_order());
    Inner {
        gaps: ordered,
        chosen: chosen_for_gaps(model.inside(count).selection(gaps)->Ok_0.decisions, ordered),
        ends,
    }
}

/// A route through the gaps with a track in front and one behind, where these are
/// given.
pub open spec fn whole_route(
    model: ExactModel,
    gaps: Seq<AutomaticGapView>,
    use_opening: bool,
    use_closing: bool,
    opening: Option<SelectedEndpointView>,
    closing: Option<SelectedEndpointView>,
) -> Seq<usize> {
    let count = taken_by_ends(use_opening, use_closing);
    let route = model.inside(count).selection(gaps)->Ok_0.final_route->Some_0;
    let begun = if opening is Some {
        seq![opening->Some_0.evaluation.candidate] + route
    } else {
        route
    };
    if closing is Some {
        begun + seq![closing->Some_0.evaluation.candidate]
    } else {
        begun
    }
}

/// Whether this is a way to use the ends: they may take their tracks, the gaps
/// give the rest, the tracks are among those tried, and the whole stands up.
pub open spec fn is_a_way(
    model: ExactModel,
    gaps: Seq<AutomaticGapView>,
    ends: ExactEndpointSlotsView,
    use_opening: bool,
    use_closing: bool,
    opening: Option<SelectedEndpointView>,
    closing: Option<SelectedEndpointView>,
) -> bool {
    let count = taken_by_ends(use_opening, use_closing);
    &&& use_opening ==> ends.opening is Some
    &&& use_closing ==> ends.closing is Some
    &&& count <= model.config.requested_added_tracks
    &&& model.inside(count).selection(gaps) matches Ok(found) && (
    found.final_route matches Some(route) && opens_with(model, ends, route, use_opening, opening)
        && closes_with(
        model,
        inner_of(model, gaps, ends, count),
        opened(route, opening),
        use_closing,
        closing,
    ))
    &&& stands_up(
        model,
        inner_of(model, gaps, ends, count),
        whole_route(model, gaps, use_opening, use_closing, opening, closing),
    )
}

/// Every way to use the ends is tried: none of them, either one, and both.
pub proof fn every_way_to_use_the_ends_is_tried(
    model: ExactModel,
    gaps: Seq<AutomaticGapView>,
    ends: ExactEndpointSlotsView,
    use_opening: bool,
    use_closing: bool,
    opening: Option<SelectedEndpointView>,
    closing: Option<SelectedEndpointView>,
)
    requires
        model.endpoint_run(gaps, ends) is Ok,
        is_a_way(model, gaps, ends, use_opening, use_closing, opening, closing),
    ensures
        is_tried(
            model,
            model.endpoint_run(gaps, ends)->Ok_0,
            whole_route(model, gaps, use_opening, use_closing, opening, closing),
        ),
{
    let none = EndpointRunView { variants: seq![], evaluated: 0, retained: 0, most: 0 };
    let whole = whole_route(model, gaps, use_opening, use_closing, opening, closing);
    lemma_combined(model, gaps, ends, false, false, none, opening, closing);
    let plain = model.combined(gaps, ends, false, false, none)->Ok_0;
    lemma_combined(model, gaps, ends, false, true, plain, opening, closing);
    let behind = model.combined(gaps, ends, false, true, plain)->Ok_0;
    lemma_combined(model, gaps, ends, true, false, behind, opening, closing);
    let before = model.combined(gaps, ends, true, false, behind)->Ok_0;
    lemma_combined(model, gaps, ends, true, true, before, opening, closing);
    let run = model.combined(gaps, ends, true, true, before)->Ok_0;
    if !use_opening && !use_closing {
        lemma_still_tried(model, plain, behind, whole);
        lemma_still_tried(model, behind, before, whole);
        lemma_still_tried(model, before, run, whole);
    } else if !use_opening {
        lemma_still_tried(model, behind, before, whole);
        lemma_still_tried(model, before, run, whole);
    } else if !use_closing {
        lemma_still_tried(model, before, run, whole);
    }
}

} // verus!
