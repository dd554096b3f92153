//! No exact selection exceeds its structural bound, so that a request above the
//! bound cannot be met.

use crate::anchored_path::{capped_sum, larger};
use crate::bridge::{
    BridgeCandidateEvaluation, BridgeModel, EndpointCandidateEvaluation, EndpointSlot,
};
use crate::contextual::ContextMatrixView;
use crate::exact::{
    capped_product, gap_bound, gap_candidates, smaller, weighed, with_candidates, DecidedState,
    EndpointDecisionView, ExactModel, ExactSelectionView, FilledState, SelectedEndpointView,
};
use crate::exact_endpoints::{
    accepted_endpoints_upto, chosen_for_gaps, closed_with, endpoint_ranked,
    lemma_endpoint_members, lemma_selection_length, noted_end, opened, EndpointRunView,
    ExactEndpointSlotView, ExactEndpointSlotsView, Inner,
};
use crate::exact_multi::{all_grow, ends_keep, lengths_fit, steps_keep, PathState};
use crate::preview::{
    gap_position, lemma_adjacent, numbers_of, original_order, right_position, search_objective,
    AutomaticGapView, GapDecisionView, MAX_EXACT_TRACKS_PER_GAP,
};
use crate::selection_laws::{endpoint_selection_is_all_or_nothing, lemma_endpoint_ranked_hold};
use crate::selection_report::{AllowedEnds, NamesView};
use crate::semantic::CandidateSemanticsView;
use crate::sequences::{lemma_position_of_member, position};
use crate::sorting::{all_hold, stable_sort};
use crate::states::{
    advanced, best_from, lemma_best, lemma_kept_hold, most_added, Progress, SearchStateView,
};
use vstd::prelude::*;

verus! {

// Candidates.

/// The candidates of gaps are those that one of them lists.
proof fn lemma_with_candidates(
    known: Set<usize>,
    semantics: Seq<CandidateSemanticsView>,
    count: int,
)
    requires
        known.finite(),
        0 <= count <= semantics.len(),
    ensures
        with_candidates(known, semantics, count).finite(),
        known.subset_of(with_candidates(known, semantics, count)),
        forall|i: int|
            0 <= i < count ==> with_candidates(known, semantics, count).contains(
                (#[trigger] semantics[i]).candidate,
            ),
    decreases count,
{
    if count > 0 {
        lemma_with_candidates(known, semantics, count - 1);
    }
}

proof fn lemma_gap_candidates(gaps: Seq<AutomaticGapView>, count: int)
    requires
        0 <= count <= gaps.len(),
    ensures
        gap_candidates(gaps, count).finite(),
        count > 0 ==> gap_candidates(gaps, count - 1).subset_of(gap_candidates(gaps, count)),
        count > 0 ==> forall|number: usize| #[trigger]
            numbers_of(gaps[count - 1].semantics.candidates).contains(number) ==> gap_candidates(
                gaps,
                count,
            ).contains(number),
    decreases count,
{
    if count > 0 {
        lemma_gap_candidates(gaps, count - 1);
        let semantics = gaps[count - 1].semantics.candidates;
        lemma_with_candidates(
            gap_candidates(gaps, count - 1),
            semantics,
            semantics.len() as int,
        );
        assert forall|number: usize| #[trigger] numbers_of(semantics).contains(
            number,
        ) implies gap_candidates(gaps, count).contains(number) by {
            let i = choose|i: int|
                0 <= i < numbers_of(semantics).len() && numbers_of(semantics)[i] == number;
            assert(semantics[i].candidate == number);
        }
    }
}

// Added tracks.

/// Whether a route adds exactly these tracks, each once.
spec fn adds(original: Seq<usize>, route: Seq<usize>, added: Set<usize>) -> bool {
    &&& added.finite()
    &&& added.len() == route.len() - original.len()
    &&& forall|track: usize| #[trigger] added.contains(track) ==> route.contains(track)
}

/// Whether all tracks that a route adds come from a pool, each once.
spec fn drawn_from(original: Seq<usize>, route: Seq<usize>, pool: Set<usize>) -> bool {
    exists|added: Set<usize>| #[trigger] adds(original, route, added) && added.subset_of(pool)
}

proof fn lemma_nothing_drawn(original: Seq<usize>, pool: Set<usize>)
    ensures
        drawn_from(original, original, pool),
{
    let none = Set::<usize>::empty();
    assert(adds(original, original, none));
    assert(none.subset_of(pool));
}

proof fn lemma_wider_pool(
    original: Seq<usize>,
    route: Seq<usize>,
    pool: Set<usize>,
    wider: Set<usize>,
)
    requires
        drawn_from(original, route, pool),
        pool.subset_of(wider),
    ensures
        drawn_from(original, route, wider),
{
    let added = choose|added: Set<usize>| #[trigger]
        adds(original, route, added) && added.subset_of(pool);
    assert(adds(original, route, added) && added.subset_of(wider));
}

proof fn lemma_one_more(
    original: Seq<usize>,
    route: Seq<usize>,
    pool: Set<usize>,
    at: int,
    track: usize,
)
    requires
        drawn_from(original, route, pool),
        0 <= at <= route.len(),
        !route.contains(track),
        pool.contains(track),
    ensures
        drawn_from(original, route.insert(at, track), pool),
{
    let added = choose|added: Set<usize>| #[trigger]
        adds(original, route, added) && added.subset_of(pool);
    let more = added.insert(track);
    let next = route.insert(at, track);
    assert(!added.contains(track));
    assert forall|x: usize| #[trigger] more.contains(x) implies next.contains(x) by {
        if x == track {
            assert(next[at] == track);
        } else {
            assert(added.contains(x));
            let i = choose|i: int| 0 <= i < route.len() && route[i] == x;
            if i < at {
                assert(next[i] == x);
            } else {
                assert(next[i + 1] == x);
            }
        }
    }
    assert(adds(original, next, more));
}

proof fn lemma_drawn_count(original: Seq<usize>, route: Seq<usize>, pool: Set<usize>)
    requires
        drawn_from(original, route, pool),
        pool.finite(),
    ensures
        0 <= route.len() - original.len() <= pool.len(),
{
    let added = choose|added: Set<usize>| #[trigger]
        adds(original, route, added) && added.subset_of(pool);
    vstd::set_lib::lemma_len_subset(added, pool);
}

proof fn lemma_weighed_is_new(
    bridge: BridgeModel,
    route: Seq<usize>,
    at: int,
    evaluation: BridgeCandidateEvaluation,
)
    requires
        weighed(bridge, route, at, evaluation),
        evaluation.repeat_safe,
    ensures
        !route.contains(evaluation.candidate),
{
    let matrix = choose|matrix: Option<ContextMatrixView>| #[trigger]
        bridge.evaluation(route, at, evaluation.candidate, matrix) == Ok::<
            BridgeCandidateEvaluation,
            crate::bridge::BridgeError,
        >(evaluation);
    assert(bridge.insert_safe(route, at, evaluation.candidate));
}

// At most one track to a gap.

spec fn within_single(model: ExactModel, gaps: Seq<AutomaticGapView>, at: int) -> spec_fn(
    DecidedState,
) -> bool {
    |state: DecidedState|
        {
            &&& drawn_from(model.original, state.route, gap_candidates(gaps, at))
            &&& 0 <= state.route.len() - model.original.len() <= at
        }
}

proof fn lemma_single_layer_within(
    model: ExactModel,
    gaps: Seq<AutomaticGapView>,
    states: Seq<DecidedState>,
    remaining: int,
    prune: bool,
    at: int,
)
    requires
        model.config.variation_percent <= 100,
        0 <= at < gaps.len(),
        model.original.len() + gaps.len() <= usize::MAX,
        all_hold(states, within_single(model, gaps, at)),
    ensures
        model.single_layer_from(states, gaps[at], remaining, prune, 0, seq![]) matches Ok(expanded)
            ==> all_hold(expanded, within_single(model, gaps, at + 1)),
{
    let gap = gaps[at];
    let before = within_single(model, gaps, at);
    let after = within_single(model, gaps, at + 1);
    let pool = gap_candidates(gaps, at + 1);
    lemma_gap_candidates(gaps, at + 1);
    assert forall|i: int| 0 <= i < states.len() implies (model.single_steps(
        #[trigger] states[i],
        gap,
        remaining,
        prune,
    ) matches Ok(steps) ==> all_hold(steps, after)) by {
        let state = states[i];
        assert(before(state));
        lemma_wider_pool(model.original, state.route, gap_candidates(gaps, at), pool);
        lemma_adjacent(state.route, gap.left, gap.right, 0);
        assert forall|place: int| gap_position(state.route, gap) == Some(place) implies after(
            #[trigger] model.skipping(state, gap, place),
        ) by {}
        assert forall|place: int, evaluation: BridgeCandidateEvaluation|
            gap_position(state.route, gap) == Some(place) && evaluation.accepted && weighed(
                model.bridge,
                state.route,
                place,
                evaluation,
            ) && numbers_of(gap.semantics.candidates).contains(evaluation.candidate) implies (
        #[trigger] model.bridging(state, gap, place, evaluation) matches Ok(bridged) ==> after(
            bridged,
        )) by {
            let matrix = choose|matrix: Option<ContextMatrixView>| #[trigger]
                model.bridge.evaluation(state.route, place, evaluation.candidate, matrix) == Ok::<
                    BridgeCandidateEvaluation,
                    crate::bridge::BridgeError,
                >(evaluation);
            assert(evaluation.repeat_safe);
            lemma_weighed_is_new(model.bridge, state.route, place, evaluation);
            lemma_one_more(model.original, state.route, pool, place, evaluation.candidate);
        }
        model.lemma_single_steps(state, gap, remaining, prune, after);
    }
    model.lemma_single_layer(states, gap, remaining, prune, 0, seq![], after);
}

/// A bound on what every state adds bounds the most that one adds.
proof fn lemma_most_within<R>(
    states: Seq<SearchStateView<R>>,
    original: int,
    bound: int,
    count: int,
)
    requires
        0 <= count <= states.len(),
        0 <= bound,
        forall|i: int|
            0 <= i < states.len() ==> 0 <= (#[trigger] states[i]).route.len() - original <= bound,
    ensures
        most_added(states, original, count) <= bound,
    decreases count,
{
    if count > 0 {
        lemma_most_within(states, original, bound, count - 1);
        assert(0 <= states[count - 1].route.len() - original <= bound);
    }
}

proof fn lemma_single_states_within(
    model: ExactModel,
    gaps: Seq<AutomaticGapView>,
    at: int,
    states: Seq<DecidedState>,
)
    requires
        0 <= at <= gaps.len(),
        model.original.len() + gaps.len() <= usize::MAX,
        all_hold(states, within_single(model, gaps, at)),
    ensures
        most_added(states, model.original.len() as int, states.len() as int) <= gap_bound(gaps, 1),
        forall|i: int|
            0 <= i < states.len() ==> 0 <= (#[trigger] states[i]).route.len()
                - model.original.len() <= gap_bound(gaps, 1),
{
    lemma_pool_grows(gaps, at, gaps.len() as int);
    lemma_gap_candidates(gaps, gaps.len() as int);
    let pool = gap_candidates(gaps, gaps.len() as int);
    assert forall|i: int| 0 <= i < states.len() implies 0 <= (#[trigger] states[i]).route.len()
        - model.original.len() <= gap_bound(gaps, 1) by {
        assert(within_single(model, gaps, at)(states[i]));
        lemma_wider_pool(
            model.original,
            states[i].route,
            gap_candidates(gaps, at),
            pool,
        );
        lemma_drawn_count(model.original, states[i].route, pool);
    }
    lemma_most_within(
        states,
        model.original.len() as int,
        gap_bound(gaps, 1),
        states.len() as int,
    );
}

proof fn lemma_pool_grows(gaps: Seq<AutomaticGapView>, from: int, to: int)
    requires
        0 <= from <= to <= gaps.len(),
    ensures
        gap_candidates(gaps, from).subset_of(gap_candidates(gaps, to)),
    decreases to - from,
{
    if from < to {
        lemma_pool_grows(gaps, from, to - 1);
        lemma_gap_candidates(gaps, to);
    }
}

proof fn lemma_single_from_within(
    model: ExactModel,
    gaps: Seq<AutomaticGapView>,
    prune: bool,
    at: int,
    progress: Progress<Seq<GapDecisionView>>,
    seen: nat,
)
    requires
        model.config.variation_percent <= 100,
        model.original.len() + gaps.len() <= usize::MAX,
        0 <= at <= gaps.len(),
        all_hold(progress.states, within_single(model, gaps, at)),
        seen <= gap_bound(gaps, 1),
    ensures
        model.single_from(gaps, prune, at, progress, seen) matches Ok((end, most)) ==> all_hold(
            end.states,
            within_single(model, gaps, gaps.len() as int),
        ) && most <= gap_bound(gaps, 1),
    decreases gaps.len() - at,
{
    if at < gaps.len() {
        let remaining = gaps.len() - (at + 1);
        lemma_single_layer_within(model, gaps, progress.states, remaining, prune, at);
        if let Ok(expanded) = model.single_layer_from(
            progress.states,
            gaps[at],
            remaining,
            prune,
            0,
            seq![],
        ) {
            let original = model.original.len() as int;
            let width = model.config.beam_width as int;
            lemma_kept_hold(expanded, within_single(model, gaps, at + 1), original, width);
            lemma_single_states_within(model, gaps, at, progress.states);
            lemma_single_states_within(model, gaps, at + 1, expanded);
            lemma_single_from_within(
                model,
                gaps,
                prune,
                at + 1,
                advanced(progress, expanded, original, width),
                larger(
                    larger(
                        seen,
                        most_added(progress.states, original, progress.states.len() as int),
                    ),
                    most_added(expanded, original, expanded.len() as int),
                ),
            );
        }
    }
}

// Several tracks to a gap.

spec fn within_multi(model: ExactModel, gaps: Seq<AutomaticGapView>, at: int) -> spec_fn(
    FilledState,
) -> bool {
    |state: FilledState|
        {
            &&& drawn_from(model.original, state.route, gap_candidates(gaps, at))
            &&& 0 <= state.route.len() - model.original.len() <= at
                * model.config.max_tracks_per_gap
        }
}

spec fn path_within(model: ExactModel, pool: Set<usize>, start: int, limit: int) -> spec_fn(
    int,
    PathState,
) -> bool {
    |depth: int, state: PathState|
        {
            &&& drawn_from(model.original, state.route, pool)
            &&& state.route.len() == start + depth
            &&& depth <= limit
            &&& start + limit <= usize::MAX
        }
}

proof fn lemma_multi_steps_within(
    model: ExactModel,
    gaps: Seq<AutomaticGapView>,
    state: FilledState,
    at: int,
    done: Seq<FilledState>,
)
    requires
        model.config.variation_percent <= 100,
        0 <= at < gaps.len(),
        model.original.len() + (at + 1) * model.config.max_tracks_per_gap <= usize::MAX,
        within_multi(model, gaps, at)(state),
        all_hold(done, within_multi(model, gaps, at + 1)),
    ensures
        model.multi_steps(state, gaps[at], done) matches Ok(states) ==> all_hold(
            states,
            within_multi(model, gaps, at + 1),
        ),
{
    let gap = gaps[at];
    let left = position(state.route, gap.left);
    let per_gap = model.config.max_tracks_per_gap as int;
    let pool = gap_candidates(gaps, at + 1);
    lemma_gap_candidates(gaps, at + 1);
    lemma_wider_pool(model.original, state.route, gap_candidates(gaps, at), pool);
    if left < state.route.len() {
        if let Ok(matrix) = model.bridge.gap_matrix(state.route, left + 1) {
            let limit = model.depth_limit(state.route);
            let start = state.route.len() as int;
            let grow = path_within(model, pool, start, limit);
            let after = within_multi(model, gaps, at + 1);
            let frontier = seq![model.entering(state)];
            assert((at + 1) * per_gap == at * per_gap + per_gap) by (nonlinear_arith);
            assert(all_grow(frontier, 0, grow));
            assert forall|
                depth: int,
                variant: PathState,
                place: int,
                evaluation: BridgeCandidateEvaluation,
            |
                #![trigger grow(depth, variant), model.branch(variant, place, evaluation)]
                0 <= depth < limit && grow(depth, variant) && right_position(variant.route, gap)
                    == Some(place) && evaluation.repeat_safe && weighed(
                    model.bridge,
                    variant.route,
                    place,
                    evaluation,
                ) && numbers_of(gap.semantics.candidates).contains(
                    evaluation.candidate,
                ) implies (model.branch(variant, place, evaluation) matches Ok(next) ==> grow(
                depth + 1,
                next,
            )) by {
                lemma_position_of_member(variant.route, gap.left);
                lemma_position_of_member(variant.route, gap.right);
                lemma_weighed_is_new(model.bridge, variant.route, place, evaluation);
                lemma_one_more(model.original, variant.route, pool, place, evaluation.candidate);
            }
            assert(steps_keep(model, gap, limit, grow));
            assert(lengths_fit(grow));
            assert forall|depth: int, variant: PathState|
                0 <= depth <= limit && #[trigger] grow(depth, variant)
                    && variant.record.connected implies after(
                model.finished(state.record, variant),
            ) by {
                assert(model.finished(state.record, variant).route == variant.route);
            }
            assert(ends_keep(model, state.record, limit, grow, after));
            model.lemma_filled(
                state.record,
                gap,
                matrix,
                limit,
                0,
                frontier,
                done,
                grow,
                after,
            );
        }
    }
}

proof fn lemma_multi_layer_within(
    model: ExactModel,
    gaps: Seq<AutomaticGapView>,
    states: Seq<FilledState>,
    index: int,
    done: Seq<FilledState>,
    at: int,
)
    requires
        model.config.variation_percent <= 100,
        0 <= at < gaps.len(),
        0 <= index,
        model.original.len() + (at + 1) * model.config.max_tracks_per_gap <= usize::MAX,
        all_hold(states, within_multi(model, gaps, at)),
        all_hold(done, within_multi(model, gaps, at + 1)),
    ensures
        model.multi_layer_from(states, gaps[at], index, done) matches Ok(expanded) ==> all_hold(
            expanded,
            within_multi(model, gaps, at + 1),
        ),
    decreases states.len() - index,
{
    if index < states.len() {
        assert(within_multi(model, gaps, at)(states[index]));
        lemma_multi_steps_within(model, gaps, states[index], at, done);
        if let Ok(steps) = model.multi_steps(states[index], gaps[at], done) {
            lemma_multi_layer_within(model, gaps, states, index + 1, steps, at);
        }
    }
}

proof fn lemma_multi_from_within(
    model: ExactModel,
    gaps: Seq<AutomaticGapView>,
    at: int,
    progress: Progress<Seq<Seq<usize>>>,
)
    requires
        model.config.variation_percent <= 100,
        model.original.len() + gaps.len() * model.config.max_tracks_per_gap <= usize::MAX,
        0 <= at <= gaps.len(),
        all_hold(progress.states, within_multi(model, gaps, at)),
    ensures
        model.multi_from(gaps, at, progress) matches Ok(end) ==> all_hold(
            end.states,
            within_multi(model, gaps, gaps.len() as int),
        ),
    decreases gaps.len() - at,
{
    if at < gaps.len() {
        let per_gap = model.config.max_tracks_per_gap as int;
        let count = gaps.len() as int;
        assert((at + 1) * per_gap <= count * per_gap) by (nonlinear_arith)
            requires
                at + 1 <= count,
                0 <= per_gap,
        ;
        lemma_multi_layer_within(model, gaps, progress.states, 0, seq![], at);
        if let Ok(expanded) = model.multi_layer_from(progress.states, gaps[at], 0, seq![]) {
            let original = model.original.len() as int;
            let width = model.config.beam_width as int;
            lemma_kept_hold(expanded, within_multi(model, gaps, at + 1), original, width);
            lemma_multi_from_within(
                model,
                gaps,
                at + 1,
                advanced(progress, expanded, original, width),
            );
        }
    }
}

proof fn lemma_multi_states_within(
    model: ExactModel,
    gaps: Seq<AutomaticGapView>,
    states: Seq<FilledState>,
)
    requires
        model.original.len() + gaps.len() * model.config.max_tracks_per_gap <= usize::MAX,
        all_hold(states, within_multi(model, gaps, gaps.len() as int)),
    ensures
        ({
            let bound = gap_bound(gaps, model.config.max_tracks_per_gap as int);
            &&& most_added(states, model.original.len() as int, states.len() as int) <= bound
            &&& forall|i: int|
                0 <= i < states.len() ==> 0 <= (#[trigger] states[i]).route.len()
                    - model.original.len() <= bound
        }),
{
    let bound = gap_bound(gaps, model.config.max_tracks_per_gap as int);
    let pool = gap_candidates(gaps, gaps.len() as int);
    lemma_gap_candidates(gaps, gaps.len() as int);
    assert(0 <= gaps.len() * model.config.max_tracks_per_gap) by (nonlinear_arith);
    assert forall|i: int| 0 <= i < states.len() implies 0 <= (#[trigger] states[i]).route.len()
        - model.original.len() <= bound by {
        assert(within_multi(model, gaps, gaps.len() as int)(states[i]));
        lemma_drawn_count(model.original, states[i].route, pool);
    }
    lemma_most_within(states, model.original.len() as int, bound, states.len() as int);
}

/// Whether a selection stays within its structural bound: neither the most
/// tracks that were seen added nor those of a route that was found exceed it.
pub open spec fn within_bound(selection: ExactSelectionView) -> bool {
    &&& selection.stats.maximum_additions_found <= selection.stats.structural_upper_bound
    &&& selection.final_route is Some ==> selection.requested_added_tracks
        <= selection.stats.structural_upper_bound
}

proof fn lemma_selection_within(model: ExactModel, gaps: Seq<AutomaticGapView>)
    requires
        model.config.variation_percent <= 100,
        model.original.len() + gaps.len() * MAX_EXACT_TRACKS_PER_GAP <= usize::MAX,
    ensures
        model.selection(gaps) matches Ok(selection) ==> {
            let ordered = stable_sort(gaps, original_order());
            &&& within_bound(selection)
            &&& selection.stats.structural_upper_bound == gap_bound(
                ordered,
                model.config.max_tracks_per_gap as int,
            )
            &&& selection.final_route matches Some(route) ==> drawn_from(
                model.original,
                route,
                gap_candidates(ordered, ordered.len() as int),
            )
        },
{
    let ordered = stable_sort(gaps, original_order());
    crate::sorting::stable_sort_keeps_items(gaps, original_order());
    let length = Some(model.original.len() + model.config.requested_added_tracks);
    let per_gap = model.config.max_tracks_per_gap as int;
    let count = gaps.len() as int;
    lemma_gap_candidates(ordered, count);
    lemma_nothing_drawn(model.original, gap_candidates(ordered, 0));
    if model.refusal() is None {
        assert(0 <= count * per_gap <= count * MAX_EXACT_TRACKS_PER_GAP) by (nonlinear_arith)
            requires
                0 <= count,
                0 <= per_gap <= MAX_EXACT_TRACKS_PER_GAP,
        ;
        if let Ok(objective) = search_objective(model.bridge, model.original, model.original) {
            if per_gap == 1 {
                let prune = model.config.requested_added_tracks <= gap_bound(ordered, 1);
                let start = model.beginning(objective, Seq::<GapDecisionView>::empty());
                assert(all_hold(start.states, within_single(model, ordered, 0)));
                lemma_single_from_within(model, ordered, prune, 0, start, 0);
                if let Ok((end, seen)) = model.single_from(ordered, prune, 0, start, 0) {
                    lemma_single_states_within(model, ordered, count, end.states);
                    lemma_best(end.states, length, 0, None);
                    if let Some(at) = best_from(end.states, length, 0, None) {
                        assert(0 <= end.states[at].route.len() - model.original.len() <= gap_bound(
                            ordered,
                            1,
                        ));
                        assert(within_single(model, ordered, count)(end.states[at]));
                    }
                }
            } else {
                let start = model.beginning(objective, Seq::<Seq<usize>>::empty());
                assert(all_hold(start.states, within_multi(model, ordered, 0)));
                lemma_multi_from_within(model, ordered, 0, start);
                if let Ok(end) = model.multi_from(ordered, 0, start) {
                    lemma_multi_states_within(model, ordered, end.states);
                    lemma_best(end.states, length, 0, None);
                    if let Some(at) = best_from(end.states, length, 0, None) {
                        assert(0 <= end.states[at].route.len() - model.original.len() <= gap_bound(
                            ordered,
                            per_gap,
                        ));
                        assert(within_multi(model, ordered, count)(end.states[at]));
                    }
                }
            }
        }
    }
}

/// The structural bound of an exact selection is the smaller of the number of
/// different candidates and of the tracks that the gaps can take. No search adds
/// more, so that a request above it is never met.
pub proof fn exact_selection_stays_within_its_bound(
    model: ExactModel,
    gaps: Seq<AutomaticGapView>,
)
    requires
        model.config.variation_percent <= 100,
        model.original.len() + gaps.len() * MAX_EXACT_TRACKS_PER_GAP <= usize::MAX,
    ensures
        model.selection(gaps) matches Ok(selection) ==> within_bound(selection)
            && selection.stats.structural_upper_bound == gap_bound(
            stable_sort(gaps, original_order()),
            model.config.max_tracks_per_gap as int,
        ),
{
    lemma_selection_within(model, gaps);
}

// With the ends.

proof fn lemma_pool_members(gaps: Seq<AutomaticGapView>, count: int, number: usize)
    requires
        0 <= count <= gaps.len(),
    ensures
        gap_candidates(gaps, count).contains(number) ==> exists|i: int|
            0 <= i < count && numbers_of((#[trigger] gaps[i]).semantics.candidates).contains(
                number,
            ),
    decreases count,
{
    if count > 0 {
        lemma_pool_members(gaps, count - 1, number);
        let semantics = gaps[count - 1].semantics.candidates;
        lemma_added_members(
            gap_candidates(gaps, count - 1),
            semantics,
            semantics.len() as int,
            number,
        );
    }
}

proof fn lemma_added_members(
    known: Set<usize>,
    semantics: Seq<CandidateSemanticsView>,
    count: int,
    number: usize,
)
    requires
        0 <= count <= semantics.len(),
    ensures
        with_candidates(known, semantics, count).contains(number) ==> known.contains(number)
            || numbers_of(semantics).contains(number),
    decreases count,
{
    if count > 0 {
        lemma_added_members(known, semantics, count - 1, number);
        assert(numbers_of(semantics)[count - 1] == semantics[count - 1].candidate);
    }
}

/// The order of the gaps does not matter to what their candidates are.
proof fn lemma_same_pool(gaps: Seq<AutomaticGapView>)
    ensures
        gap_candidates(stable_sort(gaps, original_order()), gaps.len() as int).subset_of(
            gap_candidates(gaps, gaps.len() as int),
        ),
{
    let ordered = stable_sort(gaps, original_order());
    let count = gaps.len() as int;
    crate::sorting::stable_sort_same_members(gaps, original_order());
    assert forall|number: usize| #[trigger] gap_candidates(ordered, count).contains(
        number,
    ) implies gap_candidates(gaps, count).contains(number) by {
        lemma_pool_members(ordered, count, number);
        let i = choose|i: int|
            0 <= i < count && numbers_of((#[trigger] ordered[i]).semantics.candidates).contains(
                number,
            );
        assert(ordered.contains(ordered[i]));
        assert(gaps.contains(ordered[i]));
        let g = choose|g: int| 0 <= g < gaps.len() && gaps[g] == ordered[i];
        lemma_gap_candidates(gaps, g + 1);
        lemma_pool_grows(gaps, g + 1, count);
    }
}

/// The candidates of the gaps and of the ends.
spec fn pool_with_ends(gaps: Seq<AutomaticGapView>, ends: ExactEndpointSlotsView) -> Set<usize> {
    let inner = gap_candidates(gaps, gaps.len() as int);
    let with_opening = match ends.opening {
        Some(end) => with_candidates(
            inner,
            end.semantics.candidates,
            end.semantics.candidates.len() as int,
        ),
        None => inner,
    };
    match ends.closing {
        Some(end) => with_candidates(
            with_opening,
            end.semantics.candidates,
            end.semantics.candidates.len() as int,
        ),
        None => with_opening,
    }
}

/// Whether the candidates of an end that may be missing are in a pool.
spec fn end_in(end: Option<ExactEndpointSlotView>, pool: Set<usize>) -> bool {
    end matches Some(slot) ==> forall|number: usize| #[trigger]
        numbers_of(slot.semantics.candidates).contains(number) ==> pool.contains(number)
}

proof fn lemma_pool_with_ends(gaps: Seq<AutomaticGapView>, ends: ExactEndpointSlotsView)
    ensures
        pool_with_ends(gaps, ends).finite(),
        gap_candidates(gaps, gaps.len() as int).subset_of(pool_with_ends(gaps, ends)),
        end_in(ends.opening, pool_with_ends(gaps, ends)),
        end_in(ends.closing, pool_with_ends(gaps, ends)),
{
    let inner = gap_candidates(gaps, gaps.len() as int);
    lemma_gap_candidates(gaps, gaps.len() as int);
    let with_opening = match ends.opening {
        Some(end) => with_candidates(
            inner,
            end.semantics.candidates,
            end.semantics.candidates.len() as int,
        ),
        None => inner,
    };
    if let Some(end) = ends.opening {
        lemma_with_candidates(
            inner,
            end.semantics.candidates,
            end.semantics.candidates.len() as int,
        );
    }
    if let Some(end) = ends.closing {
        lemma_with_candidates(
            with_opening,
            end.semantics.candidates,
            end.semantics.candidates.len() as int,
        );
    }
    let pool = pool_with_ends(gaps, ends);
    if let Some(end) = ends.opening {
        let semantics = end.semantics.candidates;
        assert forall|number: usize| #[trigger] numbers_of(semantics).contains(
            number,
        ) implies pool.contains(number) by {
            let i = choose|i: int|
                0 <= i < numbers_of(semantics).len() && numbers_of(semantics)[i] == number;
            assert(with_opening.contains(semantics[i].candidate));
        }
    }
    if let Some(end) = ends.closing {
        let semantics = end.semantics.candidates;
        assert forall|number: usize| #[trigger] numbers_of(semantics).contains(
            number,
        ) implies pool.contains(number) by {
            let i = choose|i: int|
                0 <= i < numbers_of(semantics).len() && numbers_of(semantics)[i] == number;
            assert(pool.contains(semantics[i].candidate));
        }
    }
}

/// What holds of a candidate that is ranked for an end: where it is accepted, it
/// is new to the route, and it comes from a pool.
spec fn new_at_end(route: Seq<usize>, pool: Set<usize>) -> spec_fn(
    EndpointCandidateEvaluation,
) -> bool {
    |evaluation: EndpointCandidateEvaluation|
        evaluation.accepted ==> !route.contains(evaluation.candidate) && pool.contains(
            evaluation.candidate,
        )
}

/// Whether every choice is new to a route and comes from a pool.
spec fn all_new(choices: Seq<SelectedEndpointView>, route: Seq<usize>, pool: Set<usize>) -> bool {
    forall|i: int|
        0 <= i < choices.len() ==> !route.contains(
            (#[trigger] choices[i]).evaluation.candidate,
        ) && pool.contains(choices[i].evaluation.candidate)
}

proof fn lemma_accepted_new(
    semantics: Seq<CandidateSemanticsView>,
    ranked: Seq<EndpointCandidateEvaluation>,
    count: int,
    route: Seq<usize>,
    pool: Set<usize>,
)
    requires
        0 <= count <= ranked.len(),
        all_hold(ranked, new_at_end(route, pool)),
    ensures
        all_new(accepted_endpoints_upto(semantics, ranked, count), route, pool),
    decreases count,
{
    if count > 0 {
        lemma_accepted_new(semantics, ranked, count - 1, route, pool);
        assert(new_at_end(route, pool)(ranked[count - 1]));
        let before = accepted_endpoints_upto(semantics, ranked, count - 1);
        let after = accepted_endpoints_upto(semantics, ranked, count);
        assert forall|i: int| 0 <= i < after.len() implies !route.contains(
            (#[trigger] after[i]).evaluation.candidate,
        ) && pool.contains(after[i].evaluation.candidate) by {
            if i < before.len() {
                assert(after[i] == before[i]);
            }
        }
    }
}

proof fn lemma_choices_new(
    model: ExactModel,
    route: Seq<usize>,
    slot: EndpointSlot,
    end: ExactEndpointSlotView,
    pool: Set<usize>,
)
    requires
        model.config.variation_percent <= 100,
        end_in(Some(end), pool),
    ensures
        model.tried(route, slot, end) matches Ok(choices) ==> all_new(choices, route, pool),
{
    let semantics = end.semantics.candidates;
    let guidance = model.config.guide();
    let property = new_at_end(route, pool);
    lemma_endpoint_members(model.bridge, route, slot, numbers_of(semantics));
    if let Ok(evaluations) = model.bridge.ranked_endpoints(route, slot, numbers_of(semantics)) {
        assert forall|i: int| 0 <= i < evaluations.len() implies property(
            #[trigger] evaluations[i],
        ) by {
            assert(numbers_of(semantics).contains(evaluations[i].candidate));
        }
    }
    lemma_endpoint_ranked_hold(model.bridge, route, slot, semantics, guidance, property);
    if let Ok(ranked) = endpoint_ranked(model.bridge, route, slot, semantics, guidance) {
        lemma_accepted_new(semantics, ranked, ranked.len() as int, route, pool);
        let all = accepted_endpoints_upto(semantics, ranked, ranked.len() as int);
        if let Ok(choices) = model.tried(route, slot, end) {
            assert forall|i: int| 0 <= i < choices.len() implies !route.contains(
                (#[trigger] choices[i]).evaluation.candidate,
            ) && pool.contains(choices[i].evaluation.candidate) by {
                assert(choices[i] == all[i]);
            }
        }
    }
}

/// Whether a run stays within a bound.
spec fn run_within(model: ExactModel, run: EndpointRunView, bound: int) -> bool {
    &&& run.most <= bound
    &&& run.variants.len() > 0 ==> model.config.requested_added_tracks <= bound
}

proof fn lemma_with_closing_within(
    model: ExactModel,
    inner: Inner,
    route: Seq<usize>,
    noted: Seq<EndpointDecisionView>,
    closing: Option<SelectedEndpointView>,
    run: EndpointRunView,
    pool: Set<usize>,
    room: int,
)
    requires
        pool.finite(),
        model.config.requested_added_tracks <= room,
        drawn_from(model.original, route, pool),
        closing matches Some(choice) ==> all_new(seq![choice], route, pool),
        route.len() + (if closing is Some {
            1int
        } else {
            0
        }) == model.original.len() + model.config.requested_added_tracks,
        run_within(model, run, smaller(room, pool.len() as int)),
    ensures
        model.with_closing(inner, route, noted, closing, run) matches Ok(next) ==> run_within(
            model,
            next,
            smaller(room, pool.len() as int),
        ),
{
    let whole = closed_with(route, closing);
    if let Some(choice) = closing {
        let track = choice.evaluation.candidate;
        assert(seq![choice][0] == choice);
        lemma_one_more(model.original, route, pool, route.len() as int, track);
        assert(route.insert(route.len() as int, track) =~= whole);
    }
    lemma_drawn_count(model.original, whole, pool);
}

proof fn lemma_closings_within(
    model: ExactModel,
    inner: Inner,
    route: Seq<usize>,
    noted: Seq<EndpointDecisionView>,
    choices: Seq<SelectedEndpointView>,
    at: int,
    run: EndpointRunView,
    pool: Set<usize>,
    room: int,
)
    requires
        0 <= at,
        pool.finite(),
        model.config.requested_added_tracks <= room,
        drawn_from(model.original, route, pool),
        all_new(choices, route, pool),
        route.len() + 1 == model.original.len() + model.config.requested_added_tracks,
        run_within(model, run, smaller(room, pool.len() as int)),
    ensures
        model.closings_from(inner, route, noted, choices, at, run) matches Ok(next)
            ==> run_within(model, next, smaller(room, pool.len() as int)),
    decreases choices.len() - at,
{
    if at < choices.len() {
        lemma_with_closing_within(
            model,
            inner,
            route,
            noted,
            Some(choices[at]),
            run,
            pool,
            room,
        );
        if let Ok(next) = model.with_closing(inner, route, noted, Some(choices[at]), run) {
            lemma_closings_within(
                model,
                inner,
                route,
                noted,
                choices,
                at + 1,
                next,
                pool,
                room,
            );
        }
    }
}

proof fn lemma_with_opening_within(
    model: ExactModel,
    inner: Inner,
    route: Seq<usize>,
    opening: Option<SelectedEndpointView>,
    use_closing: bool,
    run: EndpointRunView,
    pool: Set<usize>,
    room: int,
)
    requires
        model.config.variation_percent <= 100,
        pool.finite(),
        end_in(inner.ends.closing, pool),
        use_closing ==> inner.ends.closing is Some,
        model.config.requested_added_tracks <= room,
        drawn_from(model.original, route, pool),
        opening matches Some(choice) ==> all_new(seq![choice], route, pool),
        route.len() + (if opening is Some {
            1int
        } else {
            0
        }) + (if use_closing {
            1int
        } else {
            0
        }) == model.original.len() + model.config.requested_added_tracks,
        run_within(model, run, smaller(room, pool.len() as int)),
    ensures
        model.with_opening(inner, route, opening, use_closing, run) matches Ok(next)
            ==> run_within(model, next, smaller(room, pool.len() as int)),
{
    let begun = opened(route, opening);
    let noted = noted_end(seq![], EndpointSlot::Opening, inner.ends.opening, opening);
    if let Some(choice) = opening {
        assert(seq![choice][0] == choice);
        lemma_one_more(model.original, route, pool, 0, choice.evaluation.candidate);
    }
    if use_closing {
        let end = inner.ends.closing->Some_0;
        lemma_choices_new(model, begun, EndpointSlot::Closing, end, pool);
        if let Ok(choices) = model.tried(begun, EndpointSlot::Closing, end) {
            lemma_closings_within(model, inner, begun, noted, choices, 0, run, pool, room);
        }
    } else {
        lemma_with_closing_within(model, inner, begun, noted, None, run, pool, room);
    }
}

proof fn lemma_openings_within(
    model: ExactModel,
    inner: Inner,
    route: Seq<usize>,
    use_closing: bool,
    choices: Seq<SelectedEndpointView>,
    at: int,
    run: EndpointRunView,
    pool: Set<usize>,
    room: int,
)
    requires
        model.config.variation_percent <= 100,
        0 <= at,
        pool.finite(),
        end_in(inner.ends.closing, pool),
        use_closing ==> inner.ends.closing is Some,
        model.config.requested_added_tracks <= room,
        drawn_from(model.original, route, pool),
        all_new(choices, route, pool),
        route.len() + 1 + (if use_closing {
            1int
        } else {
            0
        }) == model.original.len() + model.config.requested_added_tracks,
        run_within(model, run, smaller(room, pool.len() as int)),
    ensures
        model.openings_from(inner, route, use_closing, choices, at, run) matches Ok(next)
            ==> run_within(model, next, smaller(room, pool.len() as int)),
    decreases choices.len() - at,
{
    if at < choices.len() {
        lemma_with_opening_within(
            model,
            inner,
            route,
            Some(choices[at]),
            use_closing,
            run,
            pool,
            room,
        );
        if let Ok(next) = model.with_opening(inner, route, Some(choices[at]), use_closing, run) {
            lemma_openings_within(
                model,
                inner,
                route,
                use_closing,
                choices,
                at + 1,
                next,
                pool,
                room,
            );
        }
    }
}

proof fn lemma_combined_within(
    model: ExactModel,
    gaps: Seq<AutomaticGapView>,
    ends: ExactEndpointSlotsView,
    use_opening: bool,
    use_closing: bool,
    run: EndpointRunView,
)
    requires
        model.config.variation_percent <= 100,
        model.original.len() + gaps.len() * MAX_EXACT_TRACKS_PER_GAP < usize::MAX - 4,
        run_within(model, run, model.endpoint_bound(gaps, ends)),
    ensures
        model.combined(gaps, ends, use_opening, use_closing, run) matches Ok(next)
            ==> run_within(model, next, model.endpoint_bound(gaps, ends)),
{
    let end_count = (if use_opening {
        1int
    } else {
        0
    }) + (if use_closing {
        1int
    } else {
        0
    });
    if !(use_opening && ends.opening is None) && !(use_closing && ends.closing is None)
        && end_count <= model.config.requested_added_tracks {
        let inside = model.inside(end_count);
        lemma_selection_within(inside, gaps);
        lemma_selection_length(inside, gaps);
        crate::sorting::stable_sort_keeps_items(gaps, original_order());
        if let Ok(found) = inside.selection(gaps) {
            let ordered = stable_sort(gaps, original_order());
            let count = gaps.len() as int;
            let per_gap = model.config.max_tracks_per_gap as int;
            let pool = pool_with_ends(gaps, ends);
            let capacity = (if ends.opening is Some {
                1int
            } else {
                0
            }) + (if ends.closing is Some {
                1int
            } else {
                0
            });
            let room = capped_sum(capped_product(count, per_gap), capacity);
            let bound = smaller(room, pool.len() as int);
            assert(bound == model.endpoint_bound(gaps, ends));
            assert(0 <= count * per_gap <= count * MAX_EXACT_TRACKS_PER_GAP) by (nonlinear_arith)
                requires
                    0 <= count,
                    0 <= per_gap <= MAX_EXACT_TRACKS_PER_GAP,
            ;
            lemma_same_pool(gaps);
            lemma_pool_with_ends(gaps, ends);
            lemma_gap_candidates(ordered, count);
            vstd::set_lib::lemma_len_subset(gap_candidates(ordered, count), pool);
            let inner = Inner {
                gaps: ordered,
                chosen: chosen_for_gaps(found.decisions, ordered),
                ends,
            };
            let counted = EndpointRunView {
                variants: run.variants,
                evaluated: capped_sum(run.evaluated, found.stats.evaluated_states as int),
                retained: capped_sum(run.retained, found.stats.retained_states as int),
                most: larger(run.most, found.stats.maximum_additions_found as nat),
            };
            if let Some(route) = found.final_route {
                lemma_wider_pool(
                    model.original,
                    route,
                    gap_candidates(ordered, count),
                    pool,
                );
                if use_opening {
                    let end = ends.opening->Some_0;
                    lemma_choices_new(model, route, EndpointSlot::Opening, end, pool);
                    if let Ok(choices) = model.tried(route, EndpointSlot::Opening, end) {
                        lemma_openings_within(
                            model,
                            inner,
                            route,
                            use_closing,
                            choices,
                            0,
                            counted,
                            pool,
                            room,
                        );
                    }
                } else {
                    lemma_with_opening_within(
                        model,
                        inner,
                        route,
                        None,
                        use_closing,
                        counted,
                        pool,
                        room,
                    );
                }
            }
        }
    }
}

/// With the ends, the structural bound is the smaller of the number of different
/// candidates and of the tracks that the gaps and the ends can take. No search
/// adds more, so that a request above it is never met.
pub proof fn endpoint_selection_stays_within_its_bound(
    model: ExactModel,
    gaps: Seq<AutomaticGapView>,
    ends: ExactEndpointSlotsView,
)
    requires
        model.config.variation_percent <= 100,
        model.original.len() + gaps.len() * MAX_EXACT_TRACKS_PER_GAP < usize::MAX - 4,
        ends.opening is Some || ends.closing is Some,
    ensures
        model.endpoint_selection(gaps, ends) matches Ok(selection) ==> within_bound(selection)
            && selection.stats.structural_upper_bound == model.endpoint_bound(gaps, ends),
{
    let none = EndpointRunView { variants: seq![], evaluated: 0, retained: 0, most: 0 };
    let bound = model.endpoint_bound(gaps, ends);
    let count = gaps.len() as int;
    let per_gap = model.config.max_tracks_per_gap as int;
    assert(0 <= count * per_gap) by (nonlinear_arith)
        requires
            0 <= count,
            0 <= per_gap,
    ;
    lemma_pool_with_ends(gaps, ends);
    assert(0 <= bound <= usize::MAX);
    lemma_combined_within(model, gaps, ends, false, false, none);
    if let Ok(plain) = model.combined(gaps, ends, false, false, none) {
        lemma_combined_within(model, gaps, ends, false, true, plain);
        if let Ok(closing) = model.combined(gaps, ends, false, true, plain) {
            lemma_combined_within(model, gaps, ends, true, false, closing);
            if let Ok(opening) = model.combined(gaps, ends, true, false, closing) {
                lemma_combined_within(model, gaps, ends, true, true, opening);
            }
        }
    }
    if let Ok(run) = model.endpoint_run(gaps, ends) {
        lemma_best(run.variants, None, 0, None);
    }
}

// Reports.

/// A report on an exact selection is honest. It shows exactly as many added
/// tracks as were asked for, or no sequence and no decision at all. A request
/// above the structural bound is always reported as infeasible, and no other
/// request is.
pub proof fn exact_reports_are_honest(
    model: ExactModel,
    gaps: Seq<AutomaticGapView>,
    ends: ExactEndpointSlotsView,
    names: NamesView,
    allowed: AllowedEnds,
)
    requires
        model.config.variation_percent <= 100,
        model.original.len() + gaps.len() * MAX_EXACT_TRACKS_PER_GAP < usize::MAX - 4,
        names.route == model.original,
    ensures
        model.endpoint_selection(gaps, ends) matches Ok(selection) ==> {
            let requested = model.config.requested_added_tracks;
            let report = names.exact(
                selection,
                requested,
                allowed,
                model.config.beam_width,
                model.config.candidate_limit,
            );
            &&& report.feasible == (report.infeasibility is None)
            &&& report.feasible ==> report.added_track_count == requested
                && report.final_sequence is Some
            &&& report.infeasibility matches Some(reason) ==> {
                &&& report.final_sequence is None
                &&& report.decisions.len() == 0
                &&& report.endpoint_decisions.len() == 0
                &&& (reason.code == "EXACT_COUNT_INFEASIBLE"@) == (requested
                    > reason.structural_upper_bound)
            }
            &&& requested > selection.stats.structural_upper_bound ==> !report.feasible
        },
{
    reveal_strlit("EXACT_COUNT_INFEASIBLE");
    reveal_strlit("EXACT_COUNT_NOT_FOUND_WITHIN_SEARCH_BOUNDS");
    assert("EXACT_COUNT_INFEASIBLE"@.len()
        != "EXACT_COUNT_NOT_FOUND_WITHIN_SEARCH_BOUNDS"@.len());
    endpoint_selection_is_all_or_nothing(model, gaps, ends);
    if ends.opening is None && ends.closing is None {
        exact_selection_stays_within_its_bound(model, gaps);
    } else {
        endpoint_selection_stays_within_its_bound(model, gaps, ends);
    }
}

} // verus!
