//! The decisions that are published on a selected route describe that route.

use crate::anchored_path::{capped_sum, larger};
use crate::bridge::{
    position_safe, BridgeCandidateEvaluation, BridgeError, BridgeModel, EndpointSlot,
    GapContextMode,
};
use crate::contextual::ContextMatrixView;
use crate::exact::{
    lemma_all_hold_push, weighed, weighed_in_gap, DecidedState, EndpointDecisionView, ExactModel,
    SelectedEndpointView,
};
use crate::exact_endpoints::{
    chosen_for_gaps, closed_with, noted_end, opened, EndpointRecordView, EndpointRunView,
    ExactEndpointSlotsView, Inner,
};
use crate::exact_multi::{
    candidate_decision, candidate_decisions_from, final_decisions_from, gap_decisions,
};
use crate::preview::{
    evolving_ranked, first_entry, gap_position, lemma_adjacent, lemma_evolving_members,
    lemma_first_entry, numbers_of, original_order, search_objective, AutomaticGapView,
    EvolvingAcceptance, GapDecisionView, Guidance, MAX_EXACT_TRACKS_PER_GAP,
};
use crate::selection_laws::lemma_found_route_fits;
use crate::sequences::{
    lemma_first_outside, lemma_position_from, lemma_position_of_member, position,
};
use crate::sorting::{all_hold, stable_sort};
use crate::states::{advanced, lemma_best, lemma_kept_hold, Progress, SearchStateView};
use vstd::prelude::*;

verus! {

/// Whether a decision describes a route: a selected track stands where the
/// decision puts it, it is accepted, and weighing it anew at that place of the
/// route without it gives the evaluation in the decision.
pub open spec fn describes(
    model: BridgeModel,
    route: Seq<usize>,
    decision: GapDecisionView,
) -> bool {
    decision.selected matches Some(selected) ==> {
        let at = decision.route_position as int;
        &&& at < route.len()
        &&& route[at] == selected.evaluation.candidate
        &&& selected.evaluation.accepted
        &&& model.evaluation(route.remove(at), at, selected.evaluation.candidate, None) == Ok::<
            BridgeCandidateEvaluation,
            BridgeError,
        >(selected.evaluation)
    }
}

/// Whether every decision describes a route.
pub open spec fn all_describe(
    model: BridgeModel,
    route: Seq<usize>,
    decisions: Seq<GapDecisionView>,
) -> bool {
    forall|i: int| 0 <= i < decisions.len() ==> describes(model, route, #[trigger] decisions[i])
}

// Several tracks to a gap.

proof fn lemma_candidate_decision_describes(
    model: BridgeModel,
    guidance: Guidance,
    route: Seq<usize>,
    gap: AutomaticGapView,
    candidate: usize,
)
    requires
        guidance.variation_percent <= 100,
        route.len() <= usize::MAX,
        model.config.gap_context_mode == GapContextMode::Rolling,
    ensures
        candidate_decision(model, guidance, route, gap, candidate) matches Ok(decision)
            ==> describes(model, route, decision),
{
    reveal(candidate_decision);
    let candidates = gap.semantics.candidates;
    let at = position(route, candidate);
    let entry = first_entry(candidates, candidate, 0);
    lemma_position_of_member(route, candidate);
    lemma_position_from(route, candidate, 0);
    lemma_first_entry(candidates, candidate, 0);
    if at < route.len() && entry < candidates.len() {
        let without = route.remove(at);
        let alone = seq![candidates[entry]];
        let left = position(without, gap.left);
        assert(model.gap_matrix(without, left + 1) == Ok::<
            Option<ContextMatrixView>,
            BridgeError,
        >(None));
        lemma_evolving_members(
            model,
            without,
            at as usize,
            alone,
            None,
            guidance,
            EvolvingAcceptance::FullBridge,
        );
        if let Ok(ranked) = evolving_ranked(
            model,
            without,
            at as usize,
            alone,
            None,
            guidance,
            EvolvingAcceptance::FullBridge,
        ) {
            if ranked.len() > 0 {
                assert(numbers_of(alone).contains(ranked[0].candidate));
                let i = choose|i: int|
                    0 <= i < alone.len() && numbers_of(alone)[i] == ranked[0].candidate;
                assert(alone[i].candidate == candidate);
            }
        }
    }
}

proof fn lemma_candidate_decisions_describe(
    model: BridgeModel,
    guidance: Guidance,
    route: Seq<usize>,
    gap: AutomaticGapView,
    chosen: Seq<usize>,
    at: int,
    done: Seq<GapDecisionView>,
)
    requires
        guidance.variation_percent <= 100,
        route.len() <= usize::MAX,
        model.config.gap_context_mode == GapContextMode::Rolling,
        0 <= at,
        all_describe(model, route, done),
    ensures
        candidate_decisions_from(model, guidance, route, gap, chosen, at, done) matches Ok(
            decisions,
        ) ==> all_describe(model, route, decisions),
    decreases chosen.len() - at,
{
    if at < chosen.len() {
        lemma_candidate_decision_describes(model, guidance, route, gap, chosen[at]);
        if let Ok(decision) = candidate_decision(model, guidance, route, gap, chosen[at]) {
            let next = done.push(decision);
            assert forall|i: int| 0 <= i < next.len() implies describes(
                model,
                route,
                #[trigger] next[i],
            ) by {
                if i < done.len() {
                    assert(next[i] == done[i]);
                }
            }
            lemma_candidate_decisions_describe(
                model,
                guidance,
                route,
                gap,
                chosen,
                at + 1,
                next,
            );
        }
    }
}

proof fn lemma_final_decisions_describe(
    model: BridgeModel,
    guidance: Guidance,
    route: Seq<usize>,
    gaps: Seq<AutomaticGapView>,
    chosen: Seq<Seq<usize>>,
    at: int,
    done: Seq<GapDecisionView>,
)
    requires
        guidance.variation_percent <= 100,
        route.len() <= usize::MAX,
        model.config.gap_context_mode == GapContextMode::Rolling,
        0 <= at,
        all_describe(model, route, done),
    ensures
        final_decisions_from(model, guidance, route, gaps, chosen, at, done) matches Ok(decisions)
            ==> all_describe(model, route, decisions),
    decreases gaps.len() - at,
{
    if at < gaps.len() {
        reveal(gap_decisions);
        if chosen[at].len() > 0 {
            lemma_candidate_decisions_describe(
                model,
                guidance,
                route,
                gaps[at],
                chosen[at],
                0,
                done,
            );
        }
        if let Ok(decisions) = gap_decisions(model, guidance, route, gaps[at], chosen[at], done) {
            assert forall|i: int| 0 <= i < decisions.len() implies describes(
                model,
                route,
                #[trigger] decisions[i],
            ) by {
                if chosen[at].len() == 0 && i < done.len() {
                    assert(decisions[i] == done[i]);
                }
            }
            lemma_final_decisions_describe(
                model,
                guidance,
                route,
                gaps,
                chosen,
                at + 1,
                decisions,
            );
        }
    }
}

// One track to a gap.

/// A track that is put in behind the neighbours of another, repeating nothing,
/// changes nothing about how that other is weighed.
proof fn lemma_later_track(
    model: BridgeModel,
    route: Seq<usize>,
    decision: GapDecisionView,
    place: int,
    evaluation: BridgeCandidateEvaluation,
)
    requires
        describes(model, route, decision),
        decision.selected is Some,
        decision.route_position + 1 < place < route.len(),
        evaluation.accepted,
        model.evaluation(route, place, evaluation.candidate, None) == Ok::<
            BridgeCandidateEvaluation,
            BridgeError,
        >(evaluation),
    ensures
        describes(model, route.insert(place, evaluation.candidate), decision),
{
    let at = decision.route_position as int;
    let selected = decision.selected->Some_0.evaluation;
    let candidate = selected.candidate;
    let added = evaluation.candidate;
    let next = route.insert(place, added);
    let before = route.remove(at);
    let after = next.remove(at);
    let count = model.tracks.len() as int;
    assert(after =~= before.insert(place - 1, added));
    assert(after.take(at) =~= before.take(at));
    assert(after[at] == before[at]);
    lemma_first_outside(before, count, 0);
    lemma_first_outside(route, count, 0);
    lemma_first_outside(after, count, 0);
    assert forall|i: int| 0 <= i < after.len() implies #[trigger] after[i] < count by {
        if i < place - 1 {
            assert(after[i] == before[i]);
        } else if i > place - 1 {
            assert(after[i] == before[i - 1]);
        }
    }
    assert(before.insert(at, candidate) =~= route);
    assert(after.insert(at, candidate) =~= next);
    assert(model.insert_safe(before, at, candidate));
    assert(model.insert_safe(route, place, added));
    assert(!after.contains(candidate)) by {
        if after.contains(candidate) {
            let i = choose|i: int| 0 <= i < after.len() && after[i] == candidate;
            if i < place - 1 {
                assert(before[i] == candidate);
            } else if i > place - 1 {
                assert(before[i - 1] == candidate);
            } else {
                assert(route[at] == added);
            }
        }
    }
    let (artists, albums) = (model.config.artist_window, model.config.album_window);
    assert forall|other: int| 0 <= other < next.len() && other != at implies
        #[trigger] position_safe(
        next,
        model.tracks,
        at,
        artists,
        albums,
        other,
    ) by {
        if other < place {
            assert(position_safe(
                route,
                model.tracks,
                at,
                artists,
                albums,
                other,
            ));
            assert(next[other] == route[other]);
        } else if other > place {
            assert(position_safe(
                route,
                model.tracks,
                at,
                artists,
                albums,
                other - 1,
            ));
            assert(next[other] == route[other - 1]);
        } else {
            assert(position_safe(
                next,
                model.tracks,
                place,
                artists,
                albums,
                at,
            ));
        }
        assert(next[at] == route[at]);
    }
    assert(model.insert_safe(after, at, candidate));
}

/// Whether the gaps lie within a playlist, each at its place.
pub open spec fn within_the_playlist(original: Seq<usize>, gaps: Seq<AutomaticGapView>) -> bool {
    forall|i: int| 0 <= i < gaps.len() ==> lies_within(original, #[trigger] gaps[i])
}

/// Whether a gap is between the tracks that it names and numbered by the later.
pub open spec fn lies_within(original: Seq<usize>, gap: AutomaticGapView) -> bool {
    let at = gap.original_position as int;
    0 < at < original.len() && gap.left == original[at - 1] && gap.right == original[at]
}

/// Whether no two gaps are at one place.
pub open spec fn at_their_own_places(gaps: Seq<AutomaticGapView>) -> bool {
    forall|i: int, j: int|
        0 <= i < j < gaps.len() ==> (#[trigger] gaps[i]).original_position != (
        #[trigger] gaps[j]).original_position
}

/// What holds of a state whose last gap was at `reached` of the playlist: the
/// rest of the playlist still stands at the end of the route, and every
/// decision is on an earlier place and describes the route.
spec fn described_upto(model: ExactModel, reached: int) -> spec_fn(DecidedState) -> bool {
    |state: DecidedState|
        {
            let grown = state.route.len() - model.original.len();
            &&& grown >= 0
            &&& state.route.no_duplicates()
            &&& forall|i: int|
                reached <= i < model.original.len() ==> #[trigger] model.original[i]
                    == state.route[i + grown]
            &&& all_describe(model.bridge, state.route, state.record)
            &&& forall|i: int|
                0 <= i < state.record.len() && (#[trigger] state.record[i]).selected is Some
                    ==> state.record[i].route_position < reached + grown
        }
}

proof fn lemma_bridged_described(
    model: ExactModel,
    state: DecidedState,
    gap: AutomaticGapView,
    reached: int,
    place: int,
    evaluation: BridgeCandidateEvaluation,
)
    requires
        model.bridge.config.gap_context_mode == GapContextMode::Rolling,
        described_upto(model, reached)(state),
        0 <= reached < gap.original_position,
        lies_within(model.original, gap),
        gap_position(state.route, gap) == Some(place),
        state.route.len() < usize::MAX,
        evaluation.accepted,
        weighed_in_gap(model.bridge, state.route, place, evaluation),
    ensures
        model.bridging(state, gap, place, evaluation) matches Ok(bridged) ==> described_upto(
            model,
            gap.original_position as int,
        )(bridged),
{
    lemma_adjacent(state.route, gap.left, gap.right, 0);
    let route = state.route;
    let grown = route.len() - model.original.len();
    let at = gap.original_position as int;
    assert(model.original[at] == route[at + grown]);
    assert(route[place] == route[at + grown]);
    assert(place == at + grown);
    if let Ok(bridged) = model.bridging(state, gap, place, evaluation) {
        let next = bridged.route;
        let added = evaluation.candidate;
        assert(next == route.insert(place, added));
        assert(model.bridge.insert_safe(route, place, added));
        assert(next.no_duplicates()) by {
            assert forall|i: int, j: int| 0 <= i < next.len() && 0 <= j < next.len() && i
                != j implies next[i] != next[j] by {
                let old_i = if i < place {
                    i
                } else {
                    i - 1
                };
                let old_j = if j < place {
                    j
                } else {
                    j - 1
                };
                if i == place {
                    assert(route[old_j] == next[j]);
                } else if j == place {
                    assert(route[old_i] == next[i]);
                } else {
                    assert(route[old_i] != route[old_j]);
                }
            }
        }
        assert forall|i: int| at <= i < model.original.len() implies #[trigger] model.original[i]
            == next[i + grown + 1] by {
            assert(model.original[i] == route[i + grown]);
        }
        let decision = bridged.record.last();
        assert(bridged.record =~= state.record.push(decision));
        assert(next.remove(place) =~= route);
        assert(describes(model.bridge, next, decision));
        assert forall|i: int| 0 <= i < bridged.record.len() implies describes(
            model.bridge,
            next,
            #[trigger] bridged.record[i],
        ) by {
            if i < state.record.len() {
                assert(bridged.record[i] == state.record[i]);
                assert(describes(model.bridge, route, state.record[i]));
                if state.record[i].selected is Some {
                    lemma_later_track(model.bridge, route, state.record[i], place, evaluation);
                }
            }
        }
        assert forall|i: int|
            0 <= i < bridged.record.len() && (
            #[trigger] bridged.record[i]).selected is Some implies bridged.record[i].route_position
            < at + grown + 1 by {
            if i < state.record.len() {
                assert(bridged.record[i] == state.record[i]);
            }
        }
    }
}

proof fn lemma_skipped_described(
    model: ExactModel,
    state: DecidedState,
    gap: AutomaticGapView,
    reached: int,
    place: int,
)
    requires
        described_upto(model, reached)(state),
        reached < gap.original_position,
    ensures
        described_upto(model, gap.original_position as int)(model.skipping(state, gap, place)),
{
    let skipped = model.skipping(state, gap, place);
    assert forall|i: int| 0 <= i < skipped.record.len() implies describes(
        model.bridge,
        state.route,
        #[trigger] skipped.record[i],
    ) by {
        if i < state.record.len() {
            assert(skipped.record[i] == state.record[i]);
            assert(describes(model.bridge, state.route, state.record[i]));
        }
    }
    assert forall|i: int|
        0 <= i < skipped.record.len() && (
        #[trigger] skipped.record[i]).selected is Some implies skipped.record[i].route_position
        < gap.original_position + (state.route.len() - model.original.len()) by {
        if i < state.record.len() {
            assert(skipped.record[i] == state.record[i]);
        }
    }
}

proof fn lemma_layer_described(
    model: ExactModel,
    states: Seq<DecidedState>,
    gap: AutomaticGapView,
    remaining: int,
    prune: bool,
    reached: int,
)
    requires
        model.config.variation_percent <= 100,
        model.bridge.config.gap_context_mode == GapContextMode::Rolling,
        model.original.len() + model.config.requested_added_tracks <= usize::MAX,
        0 <= reached < gap.original_position,
        lies_within(model.original, gap),
        all_hold(states, described_upto(model, reached)),
        all_hold(states, short_enough(model)),
    ensures
        model.single_layer_from(states, gap, remaining, prune, 0, seq![]) matches Ok(expanded)
            ==> all_hold(expanded, described_upto(model, gap.original_position as int))
            && all_hold(expanded, short_enough(model)),
{
    let before = described_upto(model, reached);
    let after = described_upto(model, gap.original_position as int);
    let both = |state: DecidedState| after(state) && short_enough(model)(state);
    assert forall|i: int| 0 <= i < states.len() implies (model.single_steps(
        #[trigger] states[i],
        gap,
        remaining,
        prune,
    ) matches Ok(steps) ==> all_hold(steps, both)) by {
        let state = states[i];
        assert(before(state));
        assert(short_enough(model)(state));
        lemma_adjacent(state.route, gap.left, gap.right, 0);
        assert forall|place: int| gap_position(state.route, gap) == Some(place) implies both(
            #[trigger] model.skipping(state, gap, place),
        ) by {
            lemma_skipped_described(model, state, gap, reached, place);
        }
        if state.route.len() - model.original.len() < model.config.requested_added_tracks {
            assert forall|place: int, evaluation: BridgeCandidateEvaluation|
                gap_position(state.route, gap) == Some(place) && evaluation.accepted && weighed(
                    model.bridge,
                    state.route,
                    place,
                    evaluation,
                ) && weighed_in_gap(model.bridge, state.route, place, evaluation) && numbers_of(
                    gap.semantics.candidates,
                ).contains(evaluation.candidate) implies (
            #[trigger] model.bridging(state, gap, place, evaluation) matches Ok(bridged) ==> both(
                bridged,
            )) by {
                lemma_bridged_described(model, state, gap, reached, place, evaluation);
            }
        }
        model.lemma_single_steps(state, gap, remaining, prune, both);
    }
    model.lemma_single_layer(states, gap, remaining, prune, 0, seq![], both);
    if let Ok(expanded) = model.single_layer_from(states, gap, remaining, prune, 0, seq![]) {
        assert forall|i: int| 0 <= i < expanded.len() implies after(#[trigger] expanded[i])
            && short_enough(model)(expanded[i]) by {
            assert(both(expanded[i]));
        }
    }
}

/// What holds of every state: it adds no more than is asked for.
spec fn short_enough(model: ExactModel) -> spec_fn(DecidedState) -> bool {
    |state: DecidedState|
        state.route.len() <= model.original.len() + model.config.requested_added_tracks
}

/// Where the last of the first `count` gaps lies.
spec fn reached_by(gaps: Seq<AutomaticGapView>, count: int) -> int {
    if count <= 0 {
        0
    } else {
        gaps[count - 1].original_position as int
    }
}

proof fn lemma_single_described(
    model: ExactModel,
    gaps: Seq<AutomaticGapView>,
    prune: bool,
    at: int,
    progress: Progress<Seq<GapDecisionView>>,
    seen: nat,
)
    requires
        model.config.variation_percent <= 100,
        model.bridge.config.gap_context_mode == GapContextMode::Rolling,
        model.original.len() + model.config.requested_added_tracks <= usize::MAX,
        0 <= at <= gaps.len(),
        within_the_playlist(model.original, gaps),
        forall|i: int, j: int|
            0 <= i < j < gaps.len() ==> (#[trigger] gaps[i]).original_position < (
            #[trigger] gaps[j]).original_position,
        all_hold(progress.states, described_upto(model, reached_by(gaps, at))),
        all_hold(progress.states, short_enough(model)),
    ensures
        model.single_from(gaps, prune, at, progress, seen) matches Ok((end, _)) ==> all_hold(
            end.states,
            described_upto(model, reached_by(gaps, gaps.len() as int)),
        ),
    decreases gaps.len() - at,
{
    if at < gaps.len() {
        let remaining = gaps.len() - (at + 1);
        assert(lies_within(model.original, gaps[at]));
        if at > 0 {
            assert(gaps[at - 1].original_position < gaps[at].original_position);
        }
        lemma_layer_described(
            model,
            progress.states,
            gaps[at],
            remaining,
            prune,
            reached_by(gaps, at),
        );
        if let Ok(expanded) = model.single_layer_from(
            progress.states,
            gaps[at],
            remaining,
            prune,
            0,
            seq![],
        ) {
            let original = model.original.len() as int;
            let width = model.config.beam_width as int;
            lemma_kept_hold(
                expanded,
                described_upto(model, reached_by(gaps, at + 1)),
                original,
                width,
            );
            lemma_kept_hold(expanded, short_enough(model), original, width);
            lemma_single_described(
                model,
                gaps,
                prune,
                at + 1,
                advanced(progress, expanded, original, width),
                larger(
                    larger(
                        seen,
                        crate::states::most_added(
                            progress.states,
                            original,
                            progress.states.len() as int,
                        ),
                    ),
                    crate::states::most_added(expanded, original, expanded.len() as int),
                ),
            );
        }
    }
}

/// The gaps of a playlist, once ordered, come at ascending places.
proof fn lemma_ordered_places(original: Seq<usize>, gaps: Seq<AutomaticGapView>)
    requires
        within_the_playlist(original, gaps),
        at_their_own_places(gaps),
    ensures
        ({
            let ordered = stable_sort(gaps, original_order());
            &&& within_the_playlist(original, ordered)
            &&& forall|i: int, j: int|
                0 <= i < j < ordered.len() ==> (#[trigger] ordered[i]).original_position < (
                #[trigger] ordered[j]).original_position
        }),
{
    let ordered = stable_sort(gaps, original_order());
    crate::sorting::stable_sort_same_members(gaps, original_order());
    crate::sorting::stable_sort_keeps_items(gaps, original_order());
    crate::sorting::stable_sort_is_sorted(gaps, original_order());
    assert forall|i: int| 0 <= i < ordered.len() implies lies_within(
        original,
        #[trigger] ordered[i],
    ) by {
        assert(ordered.contains(ordered[i]));
        assert(gaps.contains(ordered[i]));
        let j = choose|j: int| 0 <= j < gaps.len() && gaps[j] == ordered[i];
        assert(lies_within(original, gaps[j]));
    }
    assert forall|i: int, j: int| 0 <= i < j < ordered.len() implies (
    #[trigger] ordered[i]).original_position < (#[trigger] ordered[j]).original_position by {
        lemma_distinct_after_sorting(gaps, ordered, i, j);
        assert(original_order()(ordered[i], ordered[j]));
    }
}

/// Gaps at different places are still so in another order.
pub proof fn lemma_distinct_after_sorting(
    gaps: Seq<AutomaticGapView>,
    ordered: Seq<AutomaticGapView>,
    i: int,
    j: int,
)
    requires
        at_their_own_places(gaps),
        ordered.to_multiset() == gaps.to_multiset(),
        0 <= i < j < ordered.len(),
    ensures
        ordered[i].original_position != ordered[j].original_position,
{
    broadcast use vstd::seq_lib::group_to_multiset_ensures;

    if ordered[i].original_position == ordered[j].original_position {
        assert(ordered.contains(ordered[i]));
        assert(ordered.contains(ordered[j]));
        assert(gaps.to_multiset().count(ordered[i]) > 0);
        assert(gaps.to_multiset().count(ordered[j]) > 0);
        assert(gaps.contains(ordered[i]));
        assert(gaps.contains(ordered[j]));
        let a = choose|a: int| 0 <= a < gaps.len() && gaps[a] == ordered[i];
        let b = choose|b: int| 0 <= b < gaps.len() && gaps[b] == ordered[j];
        assert(a == b) by {
            if a < b {
                assert(gaps[a].original_position != gaps[b].original_position);
            }
            if b < a {
                assert(gaps[b].original_position != gaps[a].original_position);
            }
        }
        assert(gaps.no_duplicates()) by {
            assert forall|x: int, y: int|
                0 <= x < gaps.len() && 0 <= y < gaps.len() && x != y implies gaps[x]
                != gaps[y] by {
                if x < y {
                    assert(gaps[x].original_position != gaps[y].original_position);
                } else {
                    assert(gaps[y].original_position != gaps[x].original_position);
                }
            }
        }
        gaps.lemma_multiset_has_no_duplicates();
        ordered.lemma_multiset_has_no_duplicates_conv();
        assert(ordered[i] != ordered[j]);
    }
}

/// What is published of an exact selection describes the route that it found,
/// where every gap is judged by the route as it grows: every selected track
/// stands at its place and is accepted, and weighing it anew there gives the
/// published evaluation. The gaps are those of a playlist without repeats, each
/// numbered by its place.
pub proof fn published_decisions_describe_the_route(
    model: ExactModel,
    gaps: Seq<AutomaticGapView>,
)
    requires
        model.config.variation_percent <= 100,
        model.bridge.config.gap_context_mode == GapContextMode::Rolling,
        model.original.no_duplicates(),
        within_the_playlist(model.original, gaps),
        at_their_own_places(gaps),
        model.original.len() + gaps.len() * MAX_EXACT_TRACKS_PER_GAP <= usize::MAX,
        model.original.len() + model.config.requested_added_tracks <= usize::MAX,
    ensures
        model.selection(gaps) matches Ok(selection) ==> (selection.final_route matches Some(route)
            ==> all_describe(model.bridge, route, selection.decisions)),
{
    let ordered = stable_sort(gaps, original_order());
    lemma_ordered_places(model.original, gaps);
    let length = Some(model.original.len() + model.config.requested_added_tracks);
    if model.refusal() is None {
        if let Ok(objective) = search_objective(model.bridge, model.original, model.original) {
            if model.config.max_tracks_per_gap == 1 {
                let prune = model.config.requested_added_tracks <= crate::exact::gap_bound(
                    ordered,
                    1,
                );
                let start = model.beginning(objective, Seq::<GapDecisionView>::empty());
                assert(all_hold(start.states, described_upto(model, 0)));
                assert(all_hold(start.states, short_enough(model)));
                lemma_single_described(model, ordered, prune, 0, start, 0);
                if let Ok((end, seen)) = model.single_from(ordered, prune, 0, start, 0) {
                    lemma_best(end.states, length, 0, None);
                    if let Some(at) = crate::states::best_from(end.states, length, 0, None) {
                        assert(described_upto(
                            model,
                            reached_by(ordered, ordered.len() as int),
                        )(end.states[at]));
                    }
                }
            } else {
                let start = model.beginning(objective, Seq::<Seq<usize>>::empty());
                if let Ok(end) = model.multi_from(ordered, 0, start) {
                    lemma_best(end.states, length, 0, None);
                    if let Some(at) = crate::states::best_from(end.states, length, 0, None) {
                        let state = end.states[at];
                        lemma_final_decisions_describe(
                            model.bridge,
                            model.config.guide(),
                            state.route,
                            ordered,
                            state.record,
                            0,
                            seq![],
                        );
                    }
                }
            }
        }
    }
}

// With the ends.

/// What holds of a route with its ends: its decisions describe it.
spec fn described_variant(model: ExactModel) -> spec_fn(
    SearchStateView<EndpointRecordView>,
) -> bool {
    |state: SearchStateView<EndpointRecordView>|
        all_describe(model.bridge, state.route, state.record.decisions)
}

proof fn lemma_closing_described(
    model: ExactModel,
    inner: Inner,
    route: Seq<usize>,
    noted: Seq<EndpointDecisionView>,
    closing: Option<SelectedEndpointView>,
    run: EndpointRunView,
)
    requires
        model.config.variation_percent <= 100,
        model.bridge.config.gap_context_mode == GapContextMode::Rolling,
        route.len() < usize::MAX,
        all_hold(run.variants, described_variant(model)),
    ensures
        model.with_closing(inner, route, noted, closing, run) matches Ok(next) ==> all_hold(
            next.variants,
            described_variant(model),
        ),
{
    let whole = closed_with(route, closing);
    lemma_final_decisions_describe(
        model.bridge,
        model.config.guide(),
        whole,
        inner.gaps,
        inner.chosen,
        0,
        seq![],
    );
    if let Ok(next) = model.with_closing(inner, route, noted, closing, run) {
        if next.variants.len() > run.variants.len() {
            assert(next.variants =~= run.variants.push(next.variants.last()));
            lemma_all_hold_push(run.variants, next.variants.last(), described_variant(model));
        }
    }
}

proof fn lemma_closings_described(
    model: ExactModel,
    inner: Inner,
    route: Seq<usize>,
    noted: Seq<EndpointDecisionView>,
    choices: Seq<SelectedEndpointView>,
    at: int,
    run: EndpointRunView,
)
    requires
        model.config.variation_percent <= 100,
        model.bridge.config.gap_context_mode == GapContextMode::Rolling,
        route.len() < usize::MAX,
        0 <= at,
        all_hold(run.variants, described_variant(model)),
    ensures
        model.closings_from(inner, route, noted, choices, at, run) matches Ok(next) ==> all_hold(
            next.variants,
            described_variant(model),
        ),
    decreases choices.len() - at,
{
    if at < choices.len() {
        lemma_closing_described(model, inner, route, noted, Some(choices[at]), run);
        if let Ok(next) = model.with_closing(inner, route, noted, Some(choices[at]), run) {
            lemma_closings_described(model, inner, route, noted, choices, at + 1, next);
        }
    }
}

proof fn lemma_opening_described(
    model: ExactModel,
    inner: Inner,
    route: Seq<usize>,
    opening: Option<SelectedEndpointView>,
    use_closing: bool,
    run: EndpointRunView,
)
    requires
        model.config.variation_percent <= 100,
        model.bridge.config.gap_context_mode == GapContextMode::Rolling,
        route.len() < usize::MAX - 1,
        all_hold(run.variants, described_variant(model)),
    ensures
        model.with_opening(inner, route, opening, use_closing, run) matches Ok(next) ==> all_hold(
            next.variants,
            described_variant(model),
        ),
{
    let begun = opened(route, opening);
    let noted = noted_end(seq![], EndpointSlot::Opening, inner.ends.opening, opening);
    if use_closing && inner.ends.closing is Some {
        if let Ok(choices) = model.tried(
            begun,
            EndpointSlot::Closing,
            inner.ends.closing->Some_0,
        ) {
            lemma_closings_described(model, inner, begun, noted, choices, 0, run);
        }
    } else {
        lemma_closing_described(model, inner, begun, noted, None, run);
    }
}

proof fn lemma_openings_described(
    model: ExactModel,
    inner: Inner,
    route: Seq<usize>,
    use_closing: bool,
    choices: Seq<SelectedEndpointView>,
    at: int,
    run: EndpointRunView,
)
    requires
        model.config.variation_percent <= 100,
        model.bridge.config.gap_context_mode == GapContextMode::Rolling,
        route.len() < usize::MAX - 1,
        0 <= at,
        all_hold(run.variants, described_variant(model)),
    ensures
        model.openings_from(inner, route, use_closing, choices, at, run) matches Ok(next)
            ==> all_hold(next.variants, described_variant(model)),
    decreases choices.len() - at,
{
    if at < choices.len() {
        lemma_opening_described(model, inner, route, Some(choices[at]), use_closing, run);
        if let Ok(next) = model.with_opening(inner, route, Some(choices[at]), use_closing, run) {
            lemma_openings_described(model, inner, route, use_closing, choices, at + 1, next);
        }
    }
}

proof fn lemma_combined_described(
    model: ExactModel,
    gaps: Seq<AutomaticGapView>,
    ends: ExactEndpointSlotsView,
    use_opening: bool,
    use_closing: bool,
    run: EndpointRunView,
)
    requires
        model.config.variation_percent <= 100,
        model.bridge.config.gap_context_mode == GapContextMode::Rolling,
        model.original.len() + gaps.len() * MAX_EXACT_TRACKS_PER_GAP < usize::MAX - 4,
        all_hold(run.variants, described_variant(model)),
    ensures
        model.combined(gaps, ends, use_opening, use_closing, run) matches Ok(next) ==> all_hold(
            next.variants,
            described_variant(model),
        ),
{
    let end_count = (if use_opening {
        1int
    } else {
        0
    }) + (if use_closing {
        1int
    } else {
        0
    });
    if !(use_opening && ends.opening is None) && !(use_closing && ends.closing is None)
        && end_count <= model.config.requested_added_tracks {
        let inside = model.inside(end_count);
        lemma_found_route_fits(inside, gaps);
        if let Ok(found) = inside.selection(gaps) {
            let ordered = stable_sort(gaps, original_order());
            let inner = Inner {
                gaps: ordered,
                chosen: chosen_for_gaps(found.decisions, ordered),
                ends,
            };
            let counted = EndpointRunView {
                variants: run.variants,
                evaluated: capped_sum(run.evaluated, found.stats.evaluated_states as int),
                retained: capped_sum(run.retained, found.stats.retained_states as int),
                most: larger(run.most, found.stats.maximum_additions_found as nat),
            };
            if let Some(route) = found.final_route {
                if use_opening {
                    let end = ends.opening->Some_0;
                    if let Ok(choices) = model.tried(route, EndpointSlot::Opening, end) {
                        lemma_openings_described(
                            model,
                            inner,
                            route,
                            use_closing,
                            choices,
                            0,
                            counted,
                        );
                    }
                } else {
                    lemma_opening_described(model, inner, route, None, use_closing, counted);
                }
            }
        }
    }
}

/// What is published of a selection with its ends describes the whole route,
/// with the track in front of it and the one behind it, wherever one of the
/// ends may take a track.
pub proof fn published_decisions_describe_the_whole_route(
    model: ExactModel,
    gaps: Seq<AutomaticGapView>,
    ends: ExactEndpointSlotsView,
)
    requires
        model.config.variation_percent <= 100,
        model.bridge.config.gap_context_mode == GapContextMode::Rolling,
        model.original.len() + gaps.len() * MAX_EXACT_TRACKS_PER_GAP < usize::MAX - 4,
        ends.opening is Some || ends.closing is Some,
    ensures
        model.endpoint_selection(gaps, ends) matches Ok(selection) ==> (
        selection.final_route matches Some(route) ==> all_describe(
            model.bridge,
            route,
            selection.decisions,
        )),
{
    let none = EndpointRunView { variants: seq![], evaluated: 0, retained: 0, most: 0 };
    lemma_combined_described(model, gaps, ends, false, false, none);
    if let Ok(plain) = model.combined(gaps, ends, false, false, none) {
        lemma_combined_described(model, gaps, ends, false, true, plain);
        if let Ok(closing) = model.combined(gaps, ends, false, true, plain) {
            lemma_combined_described(model, gaps, ends, true, false, closing);
            if let Ok(opening) = model.combined(gaps, ends, true, false, closing) {
                lemma_combined_described(model, gaps, ends, true, true, opening);
            }
        }
    }
    if let Ok(run) = model.endpoint_run(gaps, ends) {
        lemma_best(run.variants, None, 0, None);
        if let Some(at) = crate::states::best_from(run.variants, None, 0, None) {
            assert(described_variant(model)(run.variants[at]));
        }
    }
}

} // verus!
