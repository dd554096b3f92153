//! What every selection keeps: the playlist it starts from, the number of
//! tracks it was asked for, and the rules that bridges obey.

use crate::bridge::{
    accepted_bridge_keeps_every_limit, route_safe, safe_bridge_keeps_route_safe,
    BridgeCandidateEvaluation, BridgeModel, EndpointCandidateEvaluation, EndpointSlot,
};
use crate::contextual::ContextMatrixView;
use crate::decision_laws::{at_their_own_places, lemma_distinct_after_sorting};
use crate::exact::{
    lemma_all_hold_push, weighed, DecidedState, EndpointDecisionView, ExactModel,
    ExactSelectionView, FilledState, SelectedEndpointView,
};
use crate::exact_endpoints::{
    accepted_endpoints_upto, chosen_for_gaps, chosen_upto, closed_with, endpoint_choices, endpoint_ranked,
    guided_endpoint_first, leading_accepted_endpoints, lemma_endpoint_members,
    lemma_leading_accepted_endpoints, noted_end, opened, shuffled_endpoints, slot_position,
    EndpointRecordView, EndpointRunView, ExactEndpointSlotsView, Inner,
};
use crate::exact_multi::{
    all_grow, best_path_first, candidate_decision, candidate_decisions_from, ends_keep, final_decisions,
    final_decisions_from, gap_decisions, lengths_fit, steps_keep, PathState,
};
use crate::preview::{
    automatic_from, automatic_selection, chosen, decided, evolving_ranked, first_entry,
    first_improving, gap_outcome, gap_position, improves, lemma_adjacent, lemma_evolving_members,
    lemma_first_entry, numbers_of, original_order, right_position, search_objective,
    AutomaticGapView, AutomaticSelectionConfig, AutomaticSelectionView, DecisionReason,
    EvolvingAcceptance, GapDecisionView, Guidance, PreviewErrorView, MAX_EXACT_TRACKS_PER_GAP,
};
use crate::semantic::CandidateSemanticsView;
use crate::sequences::{lemma_position_of_member, position};
use crate::sorting::{all_hold, dedup, lemma_all_hold, stable_sort};
use crate::states::{
    advanced, lemma_best, lemma_kept_hold, same_state_route, Progress, SearchStateView,
};
use crate::variation::pool_length;
use vstd::prelude::*;

verus! {

// Growing a route.

/// Whether `places` says where the tracks of `short` stand in `long`, in order.
pub open spec fn places_fit(short: Seq<usize>, long: Seq<usize>, places: Seq<int>) -> bool {
    &&& places.len() == short.len()
    &&& forall|i: int|
        0 <= i < places.len() ==> 0 <= #[trigger] places[i] < long.len() && long[places[i]]
            == short[i]
    &&& forall|i: int, j: int|
        0 <= i < j < places.len() ==> #[trigger] places[i] < #[trigger] places[j]
}

/// Whether `long` holds all tracks of `short` in their order.
pub open spec fn kept_in_order(short: Seq<usize>, long: Seq<usize>) -> bool {
    exists|places: Seq<int>| places_fit(short, long, places)
}

proof fn lemma_kept_by_itself(route: Seq<usize>)
    ensures
        kept_in_order(route, route),
{
    let places = Seq::new(route.len(), |i: int| i);
    assert(places_fit(route, route, places));
}

proof fn lemma_kept_by_insert(short: Seq<usize>, long: Seq<usize>, at: int, track: usize)
    requires
        kept_in_order(short, long),
        0 <= at <= long.len(),
    ensures
        kept_in_order(short, long.insert(at, track)),
{
    let places = choose|places: Seq<int>| places_fit(short, long, places);
    let moved = Seq::new(
        places.len(),
        |i: int|
            if places[i] < at {
                places[i]
            } else {
                places[i] + 1
            },
    );
    let next = long.insert(at, track);
    assert forall|i: int| 0 <= i < moved.len() implies 0 <= #[trigger] moved[i] < next.len()
        && next[moved[i]] == short[i] by {
        assert(0 <= places[i] < long.len());
    }
    assert forall|i: int, j: int| 0 <= i < j < moved.len() implies #[trigger] moved[i]
        < #[trigger] moved[j] by {
        assert(places[i] < places[j]);
    }
    assert(places_fit(short, next, moved));
}

/// Whether a route grew from another by the rules: it holds its tracks in their
/// order, no track comes twice where none did, and nothing repeats within the
/// windows where nothing did.
pub open spec fn grown_by_the_rules(
    model: BridgeModel,
    original: Seq<usize>,
    route: Seq<usize>,
) -> bool {
    let (artists, albums) = (model.config.artist_window, model.config.album_window);
    &&& kept_in_order(original, route)
    &&& original.no_duplicates() ==> route.no_duplicates()
    &&& route_safe(original, model.tracks, artists, albums) ==> route_safe(
        route,
        model.tracks,
        artists,
        albums,
    )
}

proof fn lemma_grown_by_nothing(model: BridgeModel, original: Seq<usize>)
    ensures
        grown_by_the_rules(model, original, original),
{
    lemma_kept_by_itself(original);
}

proof fn lemma_grown_by_insert(
    model: BridgeModel,
    original: Seq<usize>,
    route: Seq<usize>,
    at: int,
    track: usize,
)
    requires
        grown_by_the_rules(model, original, route),
        0 <= at <= route.len(),
        model.insert_safe(route, at, track),
    ensures
        grown_by_the_rules(model, original, route.insert(at, track)),
{
    let next = route.insert(at, track);
    lemma_kept_by_insert(original, route, at, track);
    if original.no_duplicates() {
        assert forall|i: int, j: int| 0 <= i < next.len() && 0 <= j < next.len() && i
            != j implies next[i] != next[j] by {
            let before_i = if i < at {
                i
            } else {
                i - 1
            };
            let before_j = if j < at {
                j
            } else {
                j - 1
            };
            if i == at {
                assert(route[before_j] == next[j]);
            } else if j == at {
                assert(route[before_i] == next[i]);
            } else {
                assert(route[before_i] != route[before_j]);
            }
        }
    }
    if route_safe(
        original,
        model.tracks,
        model.config.artist_window,
        model.config.album_window,
    ) {
        safe_bridge_keeps_route_safe(model, route, at, track);
    }
}

proof fn lemma_grown_by_bridge(
    model: BridgeModel,
    original: Seq<usize>,
    route: Seq<usize>,
    at: int,
    evaluation: BridgeCandidateEvaluation,
)
    requires
        grown_by_the_rules(model, original, route),
        weighed(model, route, at, evaluation),
        evaluation.repeat_safe,
        0 <= at <= route.len(),
    ensures
        grown_by_the_rules(model, original, route.insert(at, evaluation.candidate)),
{
    let matrix = choose|matrix: Option<ContextMatrixView>| #[trigger]
        model.evaluation(route, at, evaluation.candidate, matrix) == Ok::<
            BridgeCandidateEvaluation,
            crate::bridge::BridgeError,
        >(evaluation);
    assert(model.insert_safe(route, at, evaluation.candidate));
    lemma_grown_by_insert(model, original, route, at, evaluation.candidate);
}

// Decisions.

/// Whether a decision is sound: it names a track exactly when one was selected,
/// and a selected track was accepted, repeats nothing and keeps both percentile
/// limits. No guidance makes up for a limit.
pub open spec fn sound_decision(model: BridgeModel, decision: GapDecisionView) -> bool {
    &&& (decision.reason == DecisionReason::Selected) == (decision.selected is Some)
    &&& decision.selected matches Some(bridge) ==> {
        let evaluation = bridge.evaluation;
        &&& bridge.semantics.candidate == evaluation.candidate
        &&& evaluation.accepted
        &&& evaluation.repeat_safe
        &&& evaluation.left_percentile <= model.config.max_leg_percentile
        &&& evaluation.right_percentile <= model.config.max_leg_percentile
        &&& evaluation.left_percentile + evaluation.right_percentile
            <= model.config.max_detour_percentile
    }
}

/// Whether every decision is sound.
pub open spec fn sound_decisions(model: BridgeModel, decisions: Seq<GapDecisionView>) -> bool {
    forall|i: int| 0 <= i < decisions.len() ==> sound_decision(model, #[trigger] decisions[i])
}

/// How many of the first `count` decisions select a track.
pub open spec fn selected_count(decisions: Seq<GapDecisionView>, count: int) -> nat
    decreases count,
{
    if count <= 0 {
        0
    } else {
        selected_count(decisions, count - 1) + (if decisions[count - 1].selected is Some {
            1nat
        } else {
            0
        })
    }
}

proof fn lemma_selected_count_push(
    decisions: Seq<GapDecisionView>,
    decision: GapDecisionView,
    count: int,
)
    requires
        0 <= count <= decisions.len(),
    ensures
        selected_count(decisions.push(decision), count) == selected_count(decisions, count),
    decreases count,
{
    if count > 0 {
        lemma_selected_count_push(decisions, decision, count - 1);
    }
}

proof fn lemma_accepted_is_sound(
    model: BridgeModel,
    gap: AutomaticGapView,
    route: Seq<usize>,
    at: int,
    shown: int,
    evaluation: BridgeCandidateEvaluation,
)
    requires
        evaluation.accepted,
        weighed(model, route, at, evaluation),
        numbers_of(gap.semantics.candidates).contains(evaluation.candidate),
    ensures
        evaluation.repeat_safe,
        sound_decision(
            model,
            decided(
                gap,
                shown,
                DecisionReason::Selected,
                Some(
                    crate::preview::SelectedBridgeView {
                        semantics: gap.semantics.candidates[first_entry(
                            gap.semantics.candidates,
                            evaluation.candidate,
                            0,
                        )],
                        evaluation,
                    },
                ),
            ),
        ),
{
    let matrix = choose|matrix: Option<ContextMatrixView>| #[trigger]
        model.evaluation(route, at, evaluation.candidate, matrix) == Ok::<
            BridgeCandidateEvaluation,
            crate::bridge::BridgeError,
        >(evaluation);
    accepted_bridge_keeps_every_limit(model, route, at, evaluation.candidate, matrix);
    let candidates = gap.semantics.candidates;
    lemma_first_entry(candidates, evaluation.candidate, 0);
    let i = choose|i: int|
        0 <= i < candidates.len() && numbers_of(candidates)[i] == evaluation.candidate;
    assert(candidates[i].candidate == evaluation.candidate);
}

// Automatic selection.

proof fn lemma_first_improving(
    ranked: Seq<BridgeCandidateEvaluation>,
    direct_distance: u64,
    at: int,
)
    requires
        0 <= at <= ranked.len(),
    ensures
        at <= first_improving(ranked, direct_distance, at) <= ranked.len(),
        first_improving(ranked, direct_distance, at) < ranked.len() ==> improves(
            ranked[first_improving(ranked, direct_distance, at)],
            direct_distance,
        ),
    decreases ranked.len() - at,
{
    if at < ranked.len() && !improves(ranked[at], direct_distance) {
        lemma_first_improving(ranked, direct_distance, at + 1);
    }
}

proof fn lemma_gap_outcome(
    model: BridgeModel,
    original: Seq<usize>,
    route: Seq<usize>,
    gap: AutomaticGapView,
    config: AutomaticSelectionConfig,
    added: int,
)
    requires
        config.variation_percent <= 100,
        route.len() <= usize::MAX,
        grown_by_the_rules(model, original, route),
    ensures
        gap_outcome(model, route, gap, config, added) matches Ok(outcome) ==> {
            &&& grown_by_the_rules(model, original, outcome.route)
            &&& sound_decision(model, outcome.decision)
            &&& outcome.route.len() == route.len() + (if outcome.decision.selected is Some {
                1int
            } else {
                0
            })
            &&& outcome.decision.selected matches Some(bridge) ==> {
                &&& added < config.max_added_tracks
                &&& gap.direct_percentile > config.trigger_percentile
                &&& improves(bridge.evaluation, gap.direct_distance)
            }
            &&& outcome.decision.original_position == gap.original_position
        },
{
    lemma_adjacent(route, gap.left, gap.right, 0);
    if let Some(at) = gap_position(route, gap) {
        if gap.direct_percentile > config.trigger_percentile && added < config.max_added_tracks
            && gap.semantics.candidates.len() > 0 {
            if let Ok(matrix) = model.gap_matrix(route, at) {
                let candidates = gap.semantics.candidates;
                lemma_evolving_members(
                    model,
                    route,
                    at as usize,
                    candidates,
                    matrix,
                    config.guide(),
                    EvolvingAcceptance::FullBridge,
                );
                if let Ok(ranked) = evolving_ranked(
                    model,
                    route,
                    at as usize,
                    candidates,
                    matrix,
                    config.guide(),
                    EvolvingAcceptance::FullBridge,
                ) {
                    lemma_first_improving(ranked, gap.direct_distance, 0);
                    let first = first_improving(ranked, gap.direct_distance, 0);
                    if first < ranked.len() {
                        assert(numbers_of(candidates).contains(ranked[first].candidate));
                        assert(weighed(model, route, at, ranked[first]));
                        lemma_accepted_is_sound(model, gap, route, at, at, ranked[first]);
                        lemma_grown_by_bridge(model, original, route, at, ranked[first]);
                    }
                }
            }
        }
    }
}

/// What an automatic selection keeps.
pub open spec fn sound_selection(
    model: BridgeModel,
    original: Seq<usize>,
    gaps: Seq<AutomaticGapView>,
    config: AutomaticSelectionConfig,
    selection: AutomaticSelectionView,
) -> bool {
    let decisions = selection.decisions;
    &&& grown_by_the_rules(model, original, selection.final_route)
    &&& selection.final_route.len() == original.len() + selected_count(
        decisions,
        decisions.len() as int,
    )
    &&& selected_count(decisions, decisions.len() as int) <= config.max_added_tracks
    &&& sound_decisions(model, decisions)
    &&& decisions.len() == gaps.len()
    &&& forall|i: int|
        0 <= i < decisions.len() ==> (#[trigger] decisions[i]).original_position
            == gaps[i].original_position
    &&& forall|i: int|
        0 <= i < decisions.len() && gaps[i].direct_percentile <= config.trigger_percentile
            ==> #[trigger] decisions[i].selected is None
    &&& forall|i: int|
        0 <= i < decisions.len() && decisions[i].selected is Some ==> improves(
            #[trigger] decisions[i].selected->Some_0.evaluation,
            gaps[i].direct_distance,
        )
}

proof fn lemma_automatic_from(
    model: BridgeModel,
    original: Seq<usize>,
    gaps: Seq<AutomaticGapView>,
    config: AutomaticSelectionConfig,
    at: int,
    route: Seq<usize>,
    added: int,
    decisions: Seq<GapDecisionView>,
)
    requires
        config.variation_percent <= 100,
        original.len() + gaps.len() <= usize::MAX,
        0 <= at <= gaps.len(),
        grown_by_the_rules(model, original, route),
        route.len() == original.len() + added,
        added <= at,
        added == selected_count(decisions, decisions.len() as int),
        added <= config.max_added_tracks,
        decisions.len() == at,
        sound_decisions(model, decisions),
        forall|i: int|
            0 <= i < decisions.len() ==> (#[trigger] decisions[i]).original_position
                == gaps[i].original_position,
        forall|i: int|
            0 <= i < decisions.len() && gaps[i].direct_percentile <= config.trigger_percentile
                ==> #[trigger] decisions[i].selected is None,
        forall|i: int|
            0 <= i < decisions.len() && decisions[i].selected is Some ==> improves(
                #[trigger] decisions[i].selected->Some_0.evaluation,
                gaps[i].direct_distance,
            ),
    ensures
        automatic_from(model, gaps, config, at, route, added, decisions) matches Ok(selection)
            ==> sound_selection(model, original, gaps, config, selection),
    decreases gaps.len() - at,
{
    if at < gaps.len() {
        lemma_gap_outcome(model, original, route, gaps[at], config, added);
        if let Ok(outcome) = gap_outcome(model, route, gaps[at], config, added) {
            let next = decisions.push(outcome.decision);
            lemma_selected_count_push(decisions, outcome.decision, decisions.len() as int);
            assert(next[at] == outcome.decision);
            assert forall|i: int| 0 <= i < next.len() implies sound_decision(
                model,
                #[trigger] next[i],
            ) by {
                if i < at {
                    assert(next[i] == decisions[i]);
                }
            }
            assert forall|i: int| 0 <= i < next.len() implies (
            #[trigger] next[i]).original_position == gaps[i].original_position by {
                if i < at {
                    assert(next[i] == decisions[i]);
                }
            }
            assert forall|i: int|
                0 <= i < next.len() && gaps[i].direct_percentile
                    <= config.trigger_percentile implies #[trigger] next[i].selected is None by {
                if i < at {
                    assert(next[i] == decisions[i]);
                }
            }
            assert forall|i: int| 0 <= i < next.len() && next[i].selected is Some implies improves(
                #[trigger] next[i].selected->Some_0.evaluation,
                gaps[i].direct_distance,
            ) by {
                if i < at {
                    assert(next[i] == decisions[i]);
                    assert(improves(
                        decisions[i].selected->Some_0.evaluation,
                        gaps[i].direct_distance,
                    ));
                }
            }
            lemma_automatic_from(
                model,
                original,
                gaps,
                config,
                at + 1,
                outcome.route,
                if outcome.decision.reason == DecisionReason::Selected {
                    added + 1
                } else {
                    added
                },
                next,
            );
        }
    }
}

/// An automatic selection keeps the playlist in its order and stays within its
/// budget. It decides once on every gap, in the order of the playlist, and
/// accounts for every track that it adds. It leaves gaps at or below the
/// trigger alone, and only adds tracks that keep every limit and improve on the
/// direct transition.
pub proof fn automatic_selection_keeps_the_playlist(
    model: BridgeModel,
    original: Seq<usize>,
    gaps: Seq<AutomaticGapView>,
    config: AutomaticSelectionConfig,
)
    requires
        config.variation_percent <= 100,
        original.len() + gaps.len() <= usize::MAX,
    ensures
        automatic_selection(model, original, gaps, config) matches Ok(selection)
            ==> sound_selection(
            model,
            original,
            stable_sort(gaps, original_order()),
            config,
            selection,
        ),
{
    crate::sorting::stable_sort_keeps_items(gaps, original_order());
    lemma_grown_by_nothing(model, original);
    lemma_automatic_from(
        model,
        original,
        stable_sort(gaps, original_order()),
        config,
        0,
        original,
        0,
        seq![],
    );
}

proof fn lemma_later_gaps(
    model: BridgeModel,
    gaps: Seq<AutomaticGapView>,
    config: AutomaticSelectionConfig,
    count: int,
    at: int,
    route: Seq<usize>,
    added: int,
    decisions: Seq<GapDecisionView>,
)
    requires
        0 <= at <= count <= gaps.len(),
        decisions.len() == at,
    ensures
        automatic_from(model, gaps, config, at, route, added, decisions) matches Ok(whole) ==> {
            &&& whole.decisions.len() == gaps.len()
            &&& whole.decisions.take(at) == decisions
            &&& automatic_from(
                model,
                gaps.take(count),
                config,
                at,
                route,
                added,
                decisions,
            ) matches Ok(part) && part.decisions == whole.decisions.take(count)
        },
    decreases gaps.len() - at,
{
    if at < gaps.len() {
        if let Ok(outcome) = gap_outcome(model, route, gaps[at], config, added) {
            let next = decisions.push(outcome.decision);
            let more = if outcome.decision.reason == DecisionReason::Selected {
                added + 1
            } else {
                added
            };
            let limit = if at < count {
                count
            } else {
                at + 1
            };
            lemma_later_gaps(model, gaps, config, limit, at + 1, outcome.route, more, next);
            if let Ok(whole) = automatic_from(
                model,
                gaps,
                config,
                at,
                route,
                added,
                decisions,
            ) {
                assert(whole.decisions.take(at) =~= whole.decisions.take(at + 1).take(at));
                assert(next.take(at) =~= decisions);
            }
        }
    } else {
        assert(gaps.take(count) =~= gaps);
        assert(decisions.take(at) =~= decisions);
    }
}

/// Later gaps never alter earlier decisions: the decisions on the first gaps of
/// a playlist are those that are taken where there are no others.
pub proof fn later_gaps_leave_earlier_decisions_alone(
    model: BridgeModel,
    original: Seq<usize>,
    gaps: Seq<AutomaticGapView>,
    earlier: Seq<AutomaticGapView>,
    config: AutomaticSelectionConfig,
)
    requires
        stable_sort(earlier, original_order()).is_prefix_of(stable_sort(gaps, original_order())),
    ensures
        automatic_selection(model, original, gaps, config) matches Ok(whole)
            ==> automatic_selection(model, original, earlier, config) matches Ok(part)
            && part.decisions.is_prefix_of(whole.decisions),
{
    let ordered = stable_sort(gaps, original_order());
    let count = stable_sort(earlier, original_order()).len() as int;
    assert(ordered.take(count) =~= stable_sort(earlier, original_order()));
    lemma_later_gaps(model, ordered, config, count, 0, original, 0, seq![]);
}

// Exact selection, at most one track to a gap.

/// What holds of a state once `at` gaps are decided.
pub open spec fn sound_after(model: ExactModel, at: int) -> spec_fn(DecidedState) -> bool {
    |state: DecidedState|
        {
            let added = state.route.len() - model.original.len();
            &&& grown_by_the_rules(model.bridge, model.original, state.route)
            &&& 0 <= added <= at
            &&& added <= model.config.requested_added_tracks
            &&& state.record.len() == at
            &&& sound_decisions(model.bridge, state.record)
            &&& selected_count(state.record, state.record.len() as int) == added
        }
}

proof fn lemma_decision_noted(
    model: ExactModel,
    record: Seq<GapDecisionView>,
    decision: GapDecisionView,
)
    requires
        sound_decisions(model.bridge, record),
        sound_decision(model.bridge, decision),
    ensures
        sound_decisions(model.bridge, record.push(decision)),
        selected_count(record.push(decision), record.len() as int + 1) == selected_count(
            record,
            record.len() as int,
        ) + (if decision.selected is Some {
            1nat
        } else {
            0
        }),
{
    let next = record.push(decision);
    lemma_selected_count_push(record, decision, record.len() as int);
    assert(next[record.len() as int] == decision);
    assert forall|i: int| 0 <= i < next.len() implies sound_decision(
        model.bridge,
        #[trigger] next[i],
    ) by {
        if i < record.len() {
            assert(next[i] == record[i]);
        }
    }
}

proof fn lemma_single_layer_sound(
    model: ExactModel,
    states: Seq<DecidedState>,
    gap: AutomaticGapView,
    remaining: int,
    prune: bool,
    at: int,
)
    requires
        model.config.variation_percent <= 100,
        model.original.len() + at <= usize::MAX,
        all_hold(states, sound_after(model, at)),
    ensures
        model.single_layer_from(states, gap, remaining, prune, 0, seq![]) matches Ok(expanded)
            ==> all_hold(expanded, sound_after(model, at + 1)),
{
    let before = sound_after(model, at);
    let after = sound_after(model, at + 1);
    assert forall|i: int| 0 <= i < states.len() implies (model.single_steps(
        #[trigger] states[i],
        gap,
        remaining,
        prune,
    ) matches Ok(steps) ==> all_hold(steps, after)) by {
        let state = states[i];
        assert(before(state));
        lemma_adjacent(state.route, gap.left, gap.right, 0);
        assert forall|place: int|
            gap_position(state.route, gap) == Some(place) implies after(
            #[trigger] model.skipping(state, gap, place),
        ) by {
            lemma_decision_noted(
                model,
                state.record,
                decided(gap, place, DecisionReason::NotSelected, None),
            );
        }
        if state.route.len() - model.original.len() < model.config.requested_added_tracks {
            assert forall|place: int, evaluation: BridgeCandidateEvaluation|
                gap_position(state.route, gap) == Some(place) && evaluation.accepted && weighed(
                    model.bridge,
                    state.route,
                    place,
                    evaluation,
                ) && numbers_of(gap.semantics.candidates).contains(evaluation.candidate) implies (
            #[trigger] model.bridging(state, gap, place, evaluation) matches Ok(bridged) ==> after(
                bridged,
            )) by {
                if let Ok(bridged) = model.bridging(state, gap, place, evaluation) {
                    lemma_accepted_is_sound(
                        model.bridge,
                        gap,
                        state.route,
                        place,
                        place,
                        evaluation,
                    );
                    lemma_grown_by_bridge(
                        model.bridge,
                        model.original,
                        state.route,
                        place,
                        evaluation,
                    );
                    lemma_decision_noted(model, state.record, bridged.record.last());
                    assert(bridged.record =~= state.record.push(bridged.record.last()));
                }
            }
        }
        model.lemma_single_steps(state, gap, remaining, prune, after);
    }
    model.lemma_single_layer(states, gap, remaining, prune, 0, seq![], after);
}

proof fn lemma_single_from_sound(
    model: ExactModel,
    gaps: Seq<AutomaticGapView>,
    prune: bool,
    at: int,
    progress: Progress<Seq<GapDecisionView>>,
    seen: nat,
)
    requires
        model.config.variation_percent <= 100,
        model.original.len() + gaps.len() <= usize::MAX,
        0 <= at <= gaps.len(),
        all_hold(progress.states, sound_after(model, at)),
    ensures
        model.single_from(gaps, prune, at, progress, seen) matches Ok((end, _)) ==> all_hold(
            end.states,
            sound_after(model, gaps.len() as int),
        ),
    decreases gaps.len() - at,
{
    if at < gaps.len() {
        let remaining = gaps.len() - (at + 1);
        lemma_single_layer_sound(model, progress.states, gaps[at], remaining, prune, at);
        if let Ok(expanded) = model.single_layer_from(
            progress.states,
            gaps[at],
            remaining,
            prune,
            0,
            seq![],
        ) {
            let original = model.original.len() as int;
            let width = model.config.beam_width as int;
            lemma_kept_hold(expanded, sound_after(model, at + 1), original, width);
            lemma_single_from_sound(
                model,
                gaps,
                prune,
                at + 1,
                advanced(progress, expanded, original, width),
                crate::anchored_path::larger(
                    crate::anchored_path::larger(
                        seen,
                        crate::states::most_added(
                            progress.states,
                            original,
                            progress.states.len() as int,
                        ),
                    ),
                    crate::states::most_added(expanded, original, expanded.len() as int),
                ),
            );
        }
    }
}

// Exact selection, several tracks to a gap.

/// What holds of a state once `at` gaps are filled.
pub open spec fn filled_after(model: ExactModel, at: int) -> spec_fn(FilledState) -> bool {
    |state: FilledState|
        {
            let added = state.route.len() - model.original.len();
            &&& grown_by_the_rules(model.bridge, model.original, state.route)
            &&& 0 <= added <= at * model.config.max_tracks_per_gap
            &&& added <= model.config.requested_added_tracks
            &&& state.record.len() == at
        }
}

/// What holds of a path through a gap.
pub open spec fn path_grows(model: ExactModel, start: int, limit: int) -> spec_fn(
    int,
    PathState,
) -> bool {
    |depth: int, state: PathState|
        {
            &&& grown_by_the_rules(model.bridge, model.original, state.route)
            &&& state.route.len() == start + depth
            &&& depth <= limit
            &&& start + limit <= usize::MAX
        }
}

proof fn lemma_path_grows(model: ExactModel, gap: AutomaticGapView, start: int, limit: int)
    ensures
        steps_keep(model, gap, limit, path_grows(model, start, limit)),
        lengths_fit(path_grows(model, start, limit)),
{
    let grow = path_grows(model, start, limit);
    assert forall|depth: int, variant: PathState, at: int, evaluation: BridgeCandidateEvaluation|
        #![trigger grow(depth, variant), model.branch(variant, at, evaluation)]
        0 <= depth < limit && grow(depth, variant) && right_position(variant.route, gap) == Some(at)
            && evaluation.repeat_safe && weighed(model.bridge, variant.route, at, evaluation)
            && numbers_of(gap.semantics.candidates).contains(
            evaluation.candidate,
        ) implies (model.branch(variant, at, evaluation) matches Ok(state) ==> grow(
        depth + 1,
        state,
    )) by {
        lemma_position_of_member(variant.route, gap.left);
        lemma_position_of_member(variant.route, gap.right);
        lemma_grown_by_bridge(model.bridge, model.original, variant.route, at, evaluation);
    }
}

proof fn lemma_multi_steps_sound(
    model: ExactModel,
    state: FilledState,
    gap: AutomaticGapView,
    at: int,
    done: Seq<FilledState>,
)
    requires
        model.config.variation_percent <= 100,
        0 <= at,
        model.original.len() + (at + 1) * model.config.max_tracks_per_gap <= usize::MAX,
        filled_after(model, at)(state),
        all_hold(done, filled_after(model, at + 1)),
    ensures
        model.multi_steps(state, gap, done) matches Ok(states) ==> all_hold(
            states,
            filled_after(model, at + 1),
        ),
{
    let left = position(state.route, gap.left);
    let per_gap = model.config.max_tracks_per_gap as int;
    if left < state.route.len() {
        if let Ok(matrix) = model.bridge.gap_matrix(state.route, left + 1) {
            let limit = model.depth_limit(state.route);
            let start = state.route.len() as int;
            let grow = path_grows(model, start, limit);
            let after = filled_after(model, at + 1);
            let frontier = seq![model.entering(state)];
            assert((at + 1) * per_gap == at * per_gap + per_gap) by (nonlinear_arith);
            lemma_path_grows(model, gap, start, limit);
            assert(all_grow(frontier, 0, grow));
            assert forall|depth: int, variant: PathState|
                0 <= depth <= limit && #[trigger] grow(depth, variant)
                    && variant.record.connected implies after(
                model.finished(state.record, variant),
            ) by {
                assert(model.finished(state.record, variant).route == variant.route);
            }
            assert(ends_keep(model, state.record, limit, grow, after));
            model.lemma_filled(
                state.record,
                gap,
                matrix,
                limit,
                0,
                frontier,
                done,
                grow,
                after,
            );
        }
    }
}

proof fn lemma_multi_layer_sound(
    model: ExactModel,
    states: Seq<FilledState>,
    gap: AutomaticGapView,
    index: int,
    done: Seq<FilledState>,
    at: int,
)
    requires
        model.config.variation_percent <= 100,
        0 <= at,
        0 <= index,
        model.original.len() + (at + 1) * model.config.max_tracks_per_gap <= usize::MAX,
        all_hold(states, filled_after(model, at)),
        all_hold(done, filled_after(model, at + 1)),
    ensures
        model.multi_layer_from(states, gap, index, done) matches Ok(expanded) ==> all_hold(
            expanded,
            filled_after(model, at + 1),
        ),
    decreases states.len() - index,
{
    if index < states.len() {
        assert(filled_after(model, at)(states[index]));
        lemma_multi_steps_sound(model, states[index], gap, at, done);
        if let Ok(steps) = model.multi_steps(states[index], gap, done) {
            lemma_multi_layer_sound(model, states, gap, index + 1, steps, at);
        }
    }
}

proof fn lemma_multi_from_sound(
    model: ExactModel,
    gaps: Seq<AutomaticGapView>,
    at: int,
    progress: Progress<Seq<Seq<usize>>>,
)
    requires
        model.config.variation_percent <= 100,
        model.original.len() + gaps.len() * model.config.max_tracks_per_gap <= usize::MAX,
        0 <= at <= gaps.len(),
        all_hold(progress.states, filled_after(model, at)),
    ensures
        model.multi_from(gaps, at, progress) matches Ok(end) ==> all_hold(
            end.states,
            filled_after(model, gaps.len() as int),
        ),
    decreases gaps.len() - at,
{
    if at < gaps.len() {
        let per_gap = model.config.max_tracks_per_gap as int;
        let count = gaps.len() as int;
        assert((at + 1) * per_gap <= count * per_gap) by (nonlinear_arith)
            requires
                at + 1 <= count,
                0 <= per_gap,
        ;
        lemma_multi_layer_sound(model, progress.states, gaps[at], 0, seq![], at);
        if let Ok(expanded) = model.multi_layer_from(progress.states, gaps[at], 0, seq![]) {
            let original = model.original.len() as int;
            let width = model.config.beam_width as int;
            lemma_kept_hold(expanded, filled_after(model, at + 1), original, width);
            lemma_multi_from_sound(
                model,
                gaps,
                at + 1,
                advanced(progress, expanded, original, width),
            );
        }
    }
}

proof fn lemma_candidate_decision_sound(
    model: BridgeModel,
    guidance: Guidance,
    route: Seq<usize>,
    gap: AutomaticGapView,
    candidate: usize,
)
    requires
        guidance.variation_percent <= 100,
        route.len() <= usize::MAX,
    ensures
        candidate_decision(model, guidance, route, gap, candidate) matches Ok(decision)
            ==> sound_decision(model, decision) && decision.selected is Some
            && decision.selected->Some_0.evaluation.candidate == candidate,
{
    reveal(candidate_decision);
    let candidates = gap.semantics.candidates;
    let at = position(route, candidate);
    let entry = first_entry(candidates, candidate, 0);
    lemma_position_of_member(route, candidate);
    lemma_first_entry(candidates, candidate, 0);
    if at < route.len() && entry < candidates.len() {
        let without = route.remove(at);
        let left = position(without, gap.left);
        if left < without.len() {
            if let Ok(matrix) = model.gap_matrix(without, left + 1) {
                let alone = seq![candidates[entry]];
                lemma_evolving_members(
                    model,
                    without,
                    at as usize,
                    alone,
                    matrix,
                    guidance,
                    EvolvingAcceptance::FullBridge,
                );
                if let Ok(ranked) = evolving_ranked(
                    model,
                    without,
                    at as usize,
                    alone,
                    matrix,
                    guidance,
                    EvolvingAcceptance::FullBridge,
                ) {
                    if ranked.len() > 0 && ranked[0].accepted {
                        assert(numbers_of(alone).contains(ranked[0].candidate));
                        let i = choose|i: int|
                            0 <= i < alone.len() && numbers_of(alone)[i] == ranked[0].candidate;
                        assert(alone[i].candidate == candidate);
                        accepted_bridge_keeps_every_limit(
                            model,
                            without,
                            at,
                            ranked[0].candidate,
                            matrix,
                        );
                    }
                }
            }
        }
    }
}

proof fn lemma_candidate_decisions_sound(
    model: BridgeModel,
    guidance: Guidance,
    route: Seq<usize>,
    gap: AutomaticGapView,
    chosen: Seq<usize>,
    at: int,
    done: Seq<GapDecisionView>,
)
    requires
        guidance.variation_percent <= 100,
        route.len() <= usize::MAX,
        0 <= at,
        sound_decisions(model, done),
    ensures
        candidate_decisions_from(model, guidance, route, gap, chosen, at, done) matches Ok(
            decisions,
        ) ==> sound_decisions(model, decisions),
    decreases chosen.len() - at,
{
    if at < chosen.len() {
        lemma_candidate_decision_sound(model, guidance, route, gap, chosen[at]);
        if let Ok(decision) = candidate_decision(model, guidance, route, gap, chosen[at]) {
            let next = done.push(decision);
            assert forall|i: int| 0 <= i < next.len() implies sound_decision(
                model,
                #[trigger] next[i],
            ) by {
                if i < done.len() {
                    assert(next[i] == done[i]);
                }
            }
            lemma_candidate_decisions_sound(
                model,
                guidance,
                route,
                gap,
                chosen,
                at + 1,
                next,
            );
        }
    }
}

proof fn lemma_final_decisions_from_sound(
    model: BridgeModel,
    guidance: Guidance,
    route: Seq<usize>,
    gaps: Seq<AutomaticGapView>,
    chosen: Seq<Seq<usize>>,
    at: int,
    done: Seq<GapDecisionView>,
)
    requires
        guidance.variation_percent <= 100,
        route.len() <= usize::MAX,
        0 <= at,
        sound_decisions(model, done),
    ensures
        final_decisions_from(model, guidance, route, gaps, chosen, at, done) matches Ok(decisions)
            ==> sound_decisions(model, decisions),
    decreases gaps.len() - at,
{
    if at < gaps.len() {
        reveal(gap_decisions);
        if chosen[at].len() > 0 {
            lemma_candidate_decisions_sound(
                model,
                guidance,
                route,
                gaps[at],
                chosen[at],
                0,
                done,
            );
        }
        if let Ok(decisions) = gap_decisions(model, guidance, route, gaps[at], chosen[at], done) {
            assert(sound_decisions(model, decisions)) by {
                assert forall|i: int| 0 <= i < decisions.len() implies sound_decision(
                    model,
                    #[trigger] decisions[i],
                ) by {
                    if chosen[at].len() == 0 && i < done.len() {
                        assert(decisions[i] == done[i]);
                    }
                }
            }
            lemma_final_decisions_from_sound(
                model,
                guidance,
                route,
                gaps,
                chosen,
                at + 1,
                decisions,
            );
        }
    }
}

/// Every decision on a final route is sound, however the tracks got there.
pub proof fn final_decisions_are_sound(
    model: BridgeModel,
    guidance: Guidance,
    route: Seq<usize>,
    gaps: Seq<AutomaticGapView>,
    chosen: Seq<Seq<usize>>,
)
    requires
        guidance.variation_percent <= 100,
        route.len() <= usize::MAX,
    ensures
        final_decisions(model, guidance, route, gaps, chosen) matches Ok(decisions)
            ==> sound_decisions(model, decisions),
{
    lemma_final_decisions_from_sound(model, guidance, route, gaps, chosen, 0, seq![]);
}

/// What an exact selection keeps: either a route that adds exactly the
/// requested number of tracks by the rules, with sound decisions, or nothing.
pub open spec fn all_or_nothing(model: ExactModel, selection: ExactSelectionView) -> bool {
    &&& selection.requested_added_tracks == model.config.requested_added_tracks
    &&& sound_decisions(model.bridge, selection.decisions)
    &&& match selection.final_route {
        Some(route) => {
            &&& route.len() == model.original.len() + model.config.requested_added_tracks
            &&& grown_by_the_rules(model.bridge, model.original, route)
        },
        None => {
            &&& selection.decisions.len() == 0
            &&& selection.endpoint_decisions.len() == 0
        },
    }
}

/// An exact selection adds exactly as many tracks as were asked for, or none at
/// all: it is never a part of what was asked for. A route that it finds keeps
/// the playlist in its order, and every track that it adds keeps every limit.
pub proof fn exact_selection_is_all_or_nothing(model: ExactModel, gaps: Seq<AutomaticGapView>)
    requires
        model.config.variation_percent <= 100,
        model.original.len() + gaps.len() * MAX_EXACT_TRACKS_PER_GAP <= usize::MAX,
    ensures
        model.selection(gaps) matches Ok(selection) ==> all_or_nothing(model, selection),
{
    let ordered = stable_sort(gaps, original_order());
    crate::sorting::stable_sort_keeps_items(gaps, original_order());
    lemma_grown_by_nothing(model.bridge, model.original);
    crate::exact_endpoints::lemma_selection_length(model, gaps);
    let length = Some(model.original.len() + model.config.requested_added_tracks);
    if model.refusal() is None {
        if let Ok(objective) = search_objective(model.bridge, model.original, model.original) {
            if model.config.max_tracks_per_gap == 1 {
                let prune = model.config.requested_added_tracks <= crate::exact::gap_bound(
                    ordered,
                    1,
                );
                let start = model.beginning(objective, Seq::<GapDecisionView>::empty());
                assert(all_hold(start.states, sound_after(model, 0)));
                lemma_single_from_sound(model, ordered, prune, 0, start, 0);
                if let Ok((end, seen)) = model.single_from(ordered, prune, 0, start, 0) {
                    lemma_best(end.states, length, 0, None);
                    if let Some(at) = crate::states::best_from(end.states, length, 0, None) {
                        assert(sound_after(model, ordered.len() as int)(end.states[at]));
                    }
                }
            } else {
                let per_gap = model.config.max_tracks_per_gap as int;
                let count = gaps.len() as int;
                assert(count * per_gap <= count * MAX_EXACT_TRACKS_PER_GAP) by (nonlinear_arith)
                    requires
                        0 <= count,
                        per_gap <= MAX_EXACT_TRACKS_PER_GAP,
                ;
                let start = model.beginning(objective, Seq::<Seq<usize>>::empty());
                assert(all_hold(start.states, filled_after(model, 0)));
                lemma_multi_from_sound(model, ordered, 0, start);
                if let Ok(end) = model.multi_from(ordered, 0, start) {
                    lemma_best(end.states, length, 0, None);
                    if let Some(at) = crate::states::best_from(end.states, length, 0, None) {
                        let state = end.states[at];
                        assert(filled_after(model, ordered.len() as int)(state));
                        final_decisions_are_sound(
                            model.bridge,
                            model.config.guide(),
                            state.route,
                            ordered,
                            state.record,
                        );
                    }
                }
            }
        }
    }
}

// Exact selection with the ends.

/// Whether an evaluation is that of its candidate at an end of a route.
#[verifier::opaque]
pub open spec fn weighed_at_end(
    model: BridgeModel,
    route: Seq<usize>,
    slot: EndpointSlot,
    evaluation: EndpointCandidateEvaluation,
) -> bool {
    model.endpoint_evaluation(route, slot, evaluation.candidate) == Ok::<
        EndpointCandidateEvaluation,
        crate::bridge::BridgeError,
    >(evaluation)
}

/// What holds of every candidate that is ranked for an end of a route.
pub open spec fn at_end(model: BridgeModel, route: Seq<usize>, slot: EndpointSlot) -> spec_fn(
    EndpointCandidateEvaluation,
) -> bool {
    |evaluation: EndpointCandidateEvaluation| weighed_at_end(model, route, slot, evaluation)
}

proof fn lemma_ranked_at_end(
    model: BridgeModel,
    route: Seq<usize>,
    slot: EndpointSlot,
    candidates: Seq<usize>,
)
    ensures
        model.ranked_endpoints(route, slot, candidates) matches Ok(ranked) ==> all_hold(
            ranked,
            at_end(model, route, slot),
        ),
{
    reveal(weighed_at_end);
    lemma_endpoint_members(model, route, slot, candidates);
}

proof fn lemma_accepted_endpoints(
    model: BridgeModel,
    route: Seq<usize>,
    slot: EndpointSlot,
    semantics: Seq<CandidateSemanticsView>,
    ranked: Seq<EndpointCandidateEvaluation>,
    count: int,
)
    requires
        0 <= count <= ranked.len(),
        all_hold(ranked, at_end(model, route, slot)),
    ensures
        forall|i: int|
            0 <= i < accepted_endpoints_upto(semantics, ranked, count).len() ==> {
                let choice = #[trigger] accepted_endpoints_upto(semantics, ranked, count)[i];
                choice.evaluation.accepted && at_end(model, route, slot)(choice.evaluation)
            },
    decreases count,
{
    if count > 0 {
        lemma_accepted_endpoints(model, route, slot, semantics, ranked, count - 1);
        assert(at_end(model, route, slot)(ranked[count - 1]));
        let before = accepted_endpoints_upto(semantics, ranked, count - 1);
        let after = accepted_endpoints_upto(semantics, ranked, count);
        assert forall|i: int| 0 <= i < after.len() implies {
            let choice = #[trigger] after[i];
            choice.evaluation.accepted && at_end(model, route, slot)(choice.evaluation)
        } by {
            if i < before.len() {
                assert(after[i] == before[i]);
            }
        }
    }
}

/// What holds of all candidates for an end holds of their ranking.
pub proof fn lemma_endpoint_ranked_hold(
    model: BridgeModel,
    route: Seq<usize>,
    slot: EndpointSlot,
    semantics: Seq<CandidateSemanticsView>,
    guidance: Guidance,
    property: spec_fn(EndpointCandidateEvaluation) -> bool,
)
    requires
        guidance.variation_percent <= 100,
        model.ranked_endpoints(route, slot, numbers_of(semantics)) matches Ok(evaluations)
            ==> all_hold(evaluations, property),
    ensures
        endpoint_ranked(model, route, slot, semantics, guidance) matches Ok(ranked) ==> all_hold(
            ranked,
            property,
        ),
{
    if let Ok(evaluations) = model.ranked_endpoints(route, slot, numbers_of(semantics)) {
        let order = guided_endpoint_first(semantics, guidance);
        let same = |a: EndpointCandidateEvaluation, b: EndpointCandidateEvaluation| true;
        lemma_all_hold(evaluations, property, order, same, 0);
        let sorted = stable_sort(evaluations, order);
        let accepted = leading_accepted_endpoints(sorted, 0);
        lemma_leading_accepted_endpoints(sorted, 0);
        crate::variation::pool_is_bounded(
            accepted,
            guidance.variation_percent,
            guidance.minimum_pool as int,
        );
        let pool = pool_length(accepted, guidance.variation_percent, guidance.minimum_pool as int);
        if pool > 1 {
            let head = sorted.take(pool);
            let tail = sorted.skip(pool);
            let shuffle = shuffled_endpoints(guidance.seed, route, slot_position(route, slot));
            assert(all_hold(head, property)) by {
                assert forall|i: int| 0 <= i < head.len() implies property(#[trigger] head[i]) by {
                    assert(property(sorted[i]));
                }
            }
            lemma_all_hold(head, property, shuffle, same, 0);
            assert(all_hold(tail, property)) by {
                assert forall|i: int| 0 <= i < tail.len() implies property(#[trigger] tail[i]) by {
                    assert(property(sorted[i + pool]));
                }
            }
            crate::exact::lemma_all_hold_add(stable_sort(head, shuffle), tail, property);
        }
    }
}

proof fn lemma_choices_accepted(
    model: BridgeModel,
    route: Seq<usize>,
    slot: EndpointSlot,
    semantics: Seq<CandidateSemanticsView>,
    limit: int,
    guidance: Guidance,
)
    requires
        guidance.variation_percent <= 100,
        0 <= limit,
    ensures
        endpoint_choices(model, route, slot, semantics, limit, guidance) matches Ok(choices)
            ==> forall|i: int|
            0 <= i < choices.len() ==> (#[trigger] choices[i]).evaluation.accepted && at_end(
                model,
                route,
                slot,
            )(choices[i].evaluation),
{
    lemma_ranked_at_end(model, route, slot, numbers_of(semantics));
    lemma_endpoint_ranked_hold(
        model,
        route,
        slot,
        semantics,
        guidance,
        at_end(model, route, slot),
    );
    if let Ok(ranked) = endpoint_ranked(model, route, slot, semantics, guidance) {
        lemma_accepted_endpoints(model, route, slot, semantics, ranked, ranked.len() as int);
        let all = accepted_endpoints_upto(semantics, ranked, ranked.len() as int);
        if let Ok(choices) = endpoint_choices(model, route, slot, semantics, limit, guidance) {
            assert forall|i: int| 0 <= i < choices.len() implies (
            #[trigger] choices[i]).evaluation.accepted && at_end(model, route, slot)(
                choices[i].evaluation,
            ) by {
                assert(choices[i] == all[i]);
            }
        }
    }
}

proof fn lemma_grown_by_end(
    model: BridgeModel,
    original: Seq<usize>,
    route: Seq<usize>,
    slot: EndpointSlot,
    evaluation: EndpointCandidateEvaluation,
)
    requires
        grown_by_the_rules(model, original, route),
        evaluation.accepted,
        at_end(model, route, slot)(evaluation),
    ensures
        grown_by_the_rules(model, original, model.extended(route, slot, evaluation.candidate)),
        model.extended(route, slot, evaluation.candidate).len() == route.len() + 1,
{
    reveal(weighed_at_end);
    let place = match slot {
        EndpointSlot::Opening => 0,
        EndpointSlot::Closing => route.len() as int,
    };
    assert(model.extended(route, slot, evaluation.candidate) =~= route.insert(
        place,
        evaluation.candidate,
    ));
    assert(model.insert_safe(route, place, evaluation.candidate));
    lemma_grown_by_insert(model, original, route, place, evaluation.candidate);
}

/// What holds of a route with its ends.
pub open spec fn sound_variant(model: ExactModel) -> spec_fn(
    SearchStateView<EndpointRecordView>,
) -> bool {
    |state: SearchStateView<EndpointRecordView>|
        {
            &&& grown_by_the_rules(model.bridge, model.original, state.route)
            &&& state.route.len() == model.original.len() + model.config.requested_added_tracks
            &&& sound_decisions(model.bridge, state.record.decisions)
        }
}

proof fn lemma_with_closing_sound(
    model: ExactModel,
    inner: Inner,
    route: Seq<usize>,
    noted: Seq<EndpointDecisionView>,
    closing: Option<SelectedEndpointView>,
    run: EndpointRunView,
)
    requires
        model.config.variation_percent <= 100,
        grown_by_the_rules(model.bridge, model.original, route),
        route.len() + (if closing is Some {
            1int
        } else {
            0
        }) == model.original.len() + model.config.requested_added_tracks,
        route.len() < usize::MAX,
        closing matches Some(choice) ==> choice.evaluation.accepted && at_end(
            model.bridge,
            route,
            EndpointSlot::Closing,
        )(choice.evaluation),
        all_hold(run.variants, sound_variant(model)),
    ensures
        model.with_closing(inner, route, noted, closing, run) matches Ok(next) ==> all_hold(
            next.variants,
            sound_variant(model),
        ),
{
    let whole = closed_with(route, closing);
    if let Some(choice) = closing {
        lemma_grown_by_end(
            model.bridge,
            model.original,
            route,
            EndpointSlot::Closing,
            choice.evaluation,
        );
    }
    final_decisions_are_sound(
        model.bridge,
        model.config.guide(),
        whole,
        inner.gaps,
        inner.chosen,
    );
    if let Ok(next) = model.with_closing(inner, route, noted, closing, run) {
        if next.variants.len() > run.variants.len() {
            assert(next.variants =~= run.variants.push(next.variants.last()));
            lemma_all_hold_push(run.variants, next.variants.last(), sound_variant(model));
        }
    }
}

proof fn lemma_closings_sound(
    model: ExactModel,
    inner: Inner,
    route: Seq<usize>,
    noted: Seq<EndpointDecisionView>,
    choices: Seq<SelectedEndpointView>,
    at: int,
    run: EndpointRunView,
)
    requires
        model.config.variation_percent <= 100,
        grown_by_the_rules(model.bridge, model.original, route),
        route.len() + 1 == model.original.len() + model.config.requested_added_tracks,
        route.len() < usize::MAX,
        0 <= at,
        forall|i: int|
            0 <= i < choices.len() ==> (#[trigger] choices[i]).evaluation.accepted && at_end(
                model.bridge,
                route,
                EndpointSlot::Closing,
            )(choices[i].evaluation),
        all_hold(run.variants, sound_variant(model)),
    ensures
        model.closings_from(inner, route, noted, choices, at, run) matches Ok(next) ==> all_hold(
            next.variants,
            sound_variant(model),
        ),
    decreases choices.len() - at,
{
    if at < choices.len() {
        lemma_with_closing_sound(model, inner, route, noted, Some(choices[at]), run);
        if let Ok(next) = model.with_closing(inner, route, noted, Some(choices[at]), run) {
            lemma_closings_sound(model, inner, route, noted, choices, at + 1, next);
        }
    }
}

proof fn lemma_with_opening_sound(
    model: ExactModel,
    inner: Inner,
    route: Seq<usize>,
    opening: Option<SelectedEndpointView>,
    use_closing: bool,
    run: EndpointRunView,
)
    requires
        model.config.variation_percent <= 100,
        grown_by_the_rules(model.bridge, model.original, route),
        use_closing ==> inner.ends.closing is Some,
        route.len() + (if opening is Some {
            1int
        } else {
            0
        }) + (if use_closing {
            1int
        } else {
            0
        }) == model.original.len() + model.config.requested_added_tracks,
        route.len() < usize::MAX - 1,
        opening matches Some(choice) ==> choice.evaluation.accepted && at_end(
            model.bridge,
            route,
            EndpointSlot::Opening,
        )(choice.evaluation),
        all_hold(run.variants, sound_variant(model)),
    ensures
        model.with_opening(inner, route, opening, use_closing, run) matches Ok(next) ==> all_hold(
            next.variants,
            sound_variant(model),
        ),
{
    let begun = opened(route, opening);
    let noted = noted_end(seq![], EndpointSlot::Opening, inner.ends.opening, opening);
    if let Some(choice) = opening {
        lemma_grown_by_end(
            model.bridge,
            model.original,
            route,
            EndpointSlot::Opening,
            choice.evaluation,
        );
    }
    if use_closing {
        let end = inner.ends.closing->Some_0;
        lemma_choices_accepted(
            model.bridge,
            begun,
            EndpointSlot::Closing,
            end.semantics.candidates,
            model.config.candidate_limit as int,
            model.config.guide(),
        );
        if let Ok(choices) = model.tried(begun, EndpointSlot::Closing, end) {
            lemma_closings_sound(model, inner, begun, noted, choices, 0, run);
        }
    } else {
        lemma_with_closing_sound(model, inner, begun, noted, None, run);
    }
}

proof fn lemma_openings_sound(
    model: ExactModel,
    inner: Inner,
    route: Seq<usize>,
    use_closing: bool,
    choices: Seq<SelectedEndpointView>,
    at: int,
    run: EndpointRunView,
)
    requires
        model.config.variation_percent <= 100,
        grown_by_the_rules(model.bridge, model.original, route),
        use_closing ==> inner.ends.closing is Some,
        route.len() + 1 + (if use_closing {
            1int
        } else {
            0
        }) == model.original.len() + model.config.requested_added_tracks,
        route.len() < usize::MAX - 1,
        0 <= at,
        forall|i: int|
            0 <= i < choices.len() ==> (#[trigger] choices[i]).evaluation.accepted && at_end(
                model.bridge,
                route,
                EndpointSlot::Opening,
            )(choices[i].evaluation),
        all_hold(run.variants, sound_variant(model)),
    ensures
        model.openings_from(inner, route, use_closing, choices, at, run) matches Ok(next)
            ==> all_hold(next.variants, sound_variant(model)),
    decreases choices.len() - at,
{
    if at < choices.len() {
        lemma_with_opening_sound(model, inner, route, Some(choices[at]), use_closing, run);
        if let Ok(next) = model.with_opening(inner, route, Some(choices[at]), use_closing, run) {
            lemma_openings_sound(model, inner, route, use_closing, choices, at + 1, next);
        }
    }
}

proof fn lemma_combined_sound(
    model: ExactModel,
    gaps: Seq<AutomaticGapView>,
    ends: ExactEndpointSlotsView,
    use_opening: bool,
    use_closing: bool,
    run: EndpointRunView,
)
    requires
        model.config.variation_percent <= 100,
        model.original.len() + gaps.len() * MAX_EXACT_TRACKS_PER_GAP < usize::MAX - 4,
        all_hold(run.variants, sound_variant(model)),
    ensures
        model.combined(gaps, ends, use_opening, use_closing, run) matches Ok(next) ==> all_hold(
            next.variants,
            sound_variant(model),
        ),
{
    let end_count = (if use_opening {
        1int
    } else {
        0
    }) + (if use_closing {
        1int
    } else {
        0
    });
    if !(use_opening && ends.opening is None) && !(use_closing && ends.closing is None)
        && end_count <= model.config.requested_added_tracks {
        let inside = model.inside(end_count);
        exact_selection_is_all_or_nothing(inside, gaps);
        lemma_found_route_fits(inside, gaps);
        if let Ok(found) = inside.selection(gaps) {
            let ordered = stable_sort(gaps, original_order());
            let inner = Inner {
                gaps: ordered,
                chosen: chosen_for_gaps(found.decisions, ordered),
                ends,
            };
            let counted = EndpointRunView {
                variants: run.variants,
                evaluated: crate::anchored_path::capped_sum(
                    run.evaluated,
                    found.stats.evaluated_states as int,
                ),
                retained: crate::anchored_path::capped_sum(
                    run.retained,
                    found.stats.retained_states as int,
                ),
                most: crate::anchored_path::larger(
                    run.most,
                    found.stats.maximum_additions_found as nat,
                ),
            };
            if let Some(route) = found.final_route {
                if use_opening {
                    let end = ends.opening->Some_0;
                    lemma_choices_accepted(
                        model.bridge,
                        route,
                        EndpointSlot::Opening,
                        end.semantics.candidates,
                        model.config.candidate_limit as int,
                        model.config.guide(),
                    );
                    if let Ok(choices) = model.tried(route, EndpointSlot::Opening, end) {
                        lemma_openings_sound(
                            model,
                            inner,
                            route,
                            use_closing,
                            choices,
                            0,
                            counted,
                        );
                    }
                } else {
                    lemma_with_opening_sound(model, inner, route, None, use_closing, counted);
                }
            }
        }
    }
}

/// A route that is found is no longer than the gaps allow.
pub proof fn lemma_found_route_fits(model: ExactModel, gaps: Seq<AutomaticGapView>)
    requires
        model.config.variation_percent <= 100,
        model.original.len() + gaps.len() * MAX_EXACT_TRACKS_PER_GAP <= usize::MAX,
    ensures
        model.selection(gaps) matches Ok(found) ==> (found.final_route matches Some(route)
            ==> route.len() <= model.original.len() + gaps.len() * MAX_EXACT_TRACKS_PER_GAP),
{
    let ordered = stable_sort(gaps, original_order());
    crate::sorting::stable_sort_keeps_items(gaps, original_order());
    lemma_grown_by_nothing(model.bridge, model.original);
    let length = Some(model.original.len() + model.config.requested_added_tracks);
    let per_gap = model.config.max_tracks_per_gap as int;
    let count = gaps.len() as int;
    if model.refusal() is None {
        assert(count * per_gap <= count * MAX_EXACT_TRACKS_PER_GAP) by (nonlinear_arith)
            requires
                0 <= count,
                per_gap <= MAX_EXACT_TRACKS_PER_GAP,
        ;
        if let Ok(objective) = search_objective(model.bridge, model.original, model.original) {
            if per_gap == 1 {
                let prune = model.config.requested_added_tracks <= crate::exact::gap_bound(
                    ordered,
                    1,
                );
                let start = model.beginning(objective, Seq::<GapDecisionView>::empty());
                assert(all_hold(start.states, sound_after(model, 0)));
                lemma_single_from_sound(model, ordered, prune, 0, start, 0);
                if let Ok((end, seen)) = model.single_from(ordered, prune, 0, start, 0) {
                    lemma_best(end.states, length, 0, None);
                    if let Some(at) = crate::states::best_from(end.states, length, 0, None) {
                        assert(sound_after(model, ordered.len() as int)(end.states[at]));
                    }
                }
            } else {
                let start = model.beginning(objective, Seq::<Seq<usize>>::empty());
                assert(all_hold(start.states, filled_after(model, 0)));
                lemma_multi_from_sound(model, ordered, 0, start);
                if let Ok(end) = model.multi_from(ordered, 0, start) {
                    lemma_best(end.states, length, 0, None);
                    if let Some(at) = crate::states::best_from(end.states, length, 0, None) {
                        assert(filled_after(model, ordered.len() as int)(end.states[at]));
                    }
                }
            }
        }
    }
}

/// With the ends, too, a selection adds exactly as many tracks as were asked
/// for or none at all, and keeps the playlist and every limit.
pub proof fn endpoint_selection_is_all_or_nothing(
    model: ExactModel,
    gaps: Seq<AutomaticGapView>,
    ends: ExactEndpointSlotsView,
)
    requires
        model.config.variation_percent <= 100,
        model.original.len() + gaps.len() * MAX_EXACT_TRACKS_PER_GAP < usize::MAX - 4,
    ensures
        model.endpoint_selection(gaps, ends) matches Ok(selection) ==> all_or_nothing(
            model,
            selection,
        ),
{
    if ends.opening is None && ends.closing is None {
        exact_selection_is_all_or_nothing(model, gaps);
    } else {
        let none = EndpointRunView { variants: seq![], evaluated: 0, retained: 0, most: 0 };
        lemma_combined_sound(model, gaps, ends, false, false, none);
        if let Ok(plain) = model.combined(gaps, ends, false, false, none) {
            lemma_combined_sound(model, gaps, ends, false, true, plain);
            if let Ok(closing) = model.combined(gaps, ends, false, true, plain) {
                lemma_combined_sound(model, gaps, ends, true, false, closing);
                if let Ok(opening) = model.combined(gaps, ends, true, false, closing) {
                    lemma_combined_sound(model, gaps, ends, true, true, opening);
                }
            }
        }
        if let Ok(run) = model.endpoint_run(gaps, ends) {
            lemma_best(run.variants, None, 0, None);
            if let Some(at) = crate::states::best_from(run.variants, None, 0, None) {
                assert(sound_variant(model)(run.variants[at]));
            }
        }
    }
}

// How many tracks a gap takes.

/// Whether decisions put no more than `most` tracks into any one gap.
pub open spec fn no_gap_overfilled(decisions: Seq<GapDecisionView>, most: int) -> bool {
    forall|place: usize|
        (#[trigger] chosen_upto(decisions, place, decisions.len() as int)).len() <= most
}

/// Whether every gap so far was given at most `most` tracks.
spec fn filled_within(at: int, most: int) -> spec_fn(FilledState) -> bool {
    |state: FilledState|
        state.record.len() == at && forall|i: int|
            0 <= i < at ==> (#[trigger] state.record[i]).len() <= most
}

/// Whether a path puts `depth` tracks into the gap that is being filled.
spec fn of_depth(depth: int) -> spec_fn(PathState) -> bool {
    |state: PathState| state.record.selected.len() == depth
}

/// Whether there is one decision for each of the first `at` gaps.
spec fn decided_in_turn(gaps: Seq<AutomaticGapView>, at: int) -> spec_fn(DecidedState) -> bool {
    |state: DecidedState|
        state.record.len() == at && forall|i: int|
            0 <= i < at ==> (#[trigger] state.record[i]).original_position
                == gaps[i].original_position
}

proof fn lemma_chosen_prefix(
    decisions: Seq<GapDecisionView>,
    longer: Seq<GapDecisionView>,
    place: usize,
    count: int,
)
    requires
        0 <= count <= decisions.len(),
        count <= longer.len(),
        forall|i: int| 0 <= i < count ==> decisions[i] == longer[i],
    ensures
        chosen_upto(decisions, place, count) == chosen_upto(longer, place, count),
    decreases count,
{
    if count > 0 {
        lemma_chosen_prefix(decisions, longer, place, count - 1);
    }
}

/// One more decision puts at most one more track into its own gap and none into
/// any other.
proof fn lemma_chosen_push(decisions: Seq<GapDecisionView>, decision: GapDecisionView, place: usize)
    ensures
        ({
            let before = chosen_upto(decisions, place, decisions.len() as int);
            let next = decisions.push(decision);
            let after = chosen_upto(next, place, next.len() as int);
            &&& after.len() <= before.len() + 1
            &&& decision.original_position != place || decision.selected is None ==> after == before
        }),
{
    lemma_chosen_prefix(decisions, decisions.push(decision), place, decisions.len() as int);
}

proof fn lemma_branches_depth(
    model: ExactModel,
    variant: PathState,
    at: int,
    followed: Seq<BridgeCandidateEvaluation>,
    next: int,
    done: Seq<PathState>,
)
    requires
        0 <= next,
        all_hold(done, of_depth(variant.record.selected.len() as int + 1)),
    ensures
        model.branches_from(variant, at, followed, next, done) matches Ok(states) ==> all_hold(
            states,
            of_depth(variant.record.selected.len() as int + 1),
        ),
    decreases followed.len() - next,
{
    if next < followed.len() {
        if let Ok(state) = model.branch(variant, at, followed[next]) {
            lemma_all_hold_push(done, state, of_depth(variant.record.selected.len() as int + 1));
            lemma_branches_depth(model, variant, at, followed, next + 1, done.push(state));
        }
    }
}

proof fn lemma_frontier_depth(
    model: ExactModel,
    frontier: Seq<PathState>,
    gap: AutomaticGapView,
    matrix: Option<ContextMatrixView>,
    at: int,
    done: Seq<PathState>,
    depth: int,
)
    requires
        0 <= at,
        all_hold(frontier, of_depth(depth)),
        all_hold(done, of_depth(depth + 1)),
    ensures
        model.frontier_from(frontier, gap, matrix, at, done) matches Ok(states) ==> all_hold(
            states,
            of_depth(depth + 1),
        ),
    decreases frontier.len() - at,
{
    if at < frontier.len() {
        let variant = frontier[at];
        assert(of_depth(depth)(variant));
        if let Some(place) = right_position(variant.route, gap) {
            if let Ok(ranked) = evolving_ranked(
                model.bridge,
                variant.route,
                place as usize,
                gap.semantics.candidates,
                matrix,
                model.config.guide(),
                EvolvingAcceptance::ReachableFromLeft,
            ) {
                lemma_branches_depth(
                    model,
                    variant,
                    place,
                    model.followed(ranked, EvolvingAcceptance::ReachableFromLeft),
                    0,
                    done,
                );
            }
        }
        if let Ok(steps) = model.variant_steps(variant, gap, matrix, done) {
            lemma_frontier_depth(model, frontier, gap, matrix, at + 1, steps, depth);
        }
    }
}

proof fn lemma_finished_within(
    model: ExactModel,
    base: Seq<Seq<usize>>,
    frontier: Seq<PathState>,
    done: Seq<FilledState>,
    count: int,
    depth: int,
    most: int,
)
    requires
        0 <= count <= frontier.len(),
        depth <= most,
        forall|i: int| 0 <= i < base.len() ==> (#[trigger] base[i]).len() <= most,
        all_hold(frontier, of_depth(depth)),
        all_hold(done, filled_within(base.len() as int + 1, most)),
    ensures
        all_hold(
            model.finished_upto(base, frontier, done, count),
            filled_within(base.len() as int + 1, most),
        ),
    decreases count,
{
    if count > 0 {
        lemma_finished_within(model, base, frontier, done, count - 1, depth, most);
        let variant = frontier[count - 1];
        assert(of_depth(depth)(variant));
        let state = model.finished(base, variant);
        assert forall|i: int| 0 <= i < base.len() + 1 implies (#[trigger] state.record[i]).len()
            <= most by {
            if i < base.len() {
                assert(state.record[i] == base[i]);
            }
        }
        lemma_all_hold_push(
            model.finished_upto(base, frontier, done, count - 1),
            state,
            filled_within(base.len() as int + 1, most),
        );
    }
}

proof fn lemma_filled_within(
    model: ExactModel,
    base: Seq<Seq<usize>>,
    gap: AutomaticGapView,
    matrix: Option<ContextMatrixView>,
    limit: int,
    depth: int,
    frontier: Seq<PathState>,
    done: Seq<FilledState>,
    most: int,
)
    requires
        0 <= depth <= limit <= most,
        forall|i: int| 0 <= i < base.len() ==> (#[trigger] base[i]).len() <= most,
        all_hold(frontier, of_depth(depth)),
        all_hold(done, filled_within(base.len() as int + 1, most)),
    ensures
        model.filled_from(base, gap, matrix, limit, depth, frontier, done) matches Ok(states)
            ==> all_hold(states, filled_within(base.len() as int + 1, most)),
    decreases limit - depth,
{
    let completed = model.finished_upto(base, frontier, done, frontier.len() as int);
    lemma_finished_within(model, base, frontier, done, frontier.len() as int, depth, most);
    if depth < limit && frontier.len() > 0 {
        lemma_frontier_depth(model, frontier, gap, matrix, 0, seq![], depth);
        if let Ok(next) = model.frontier_from(frontier, gap, matrix, 0, seq![]) {
            let property = of_depth(depth + 1);
            let sorted = stable_sort(next, best_path_first());
            lemma_all_hold(next, property, best_path_first(), same_state_route(), 0);
            lemma_all_hold(sorted, property, best_path_first(), same_state_route(), 0);
            lemma_all_hold(
                dedup(sorted, same_state_route()),
                property,
                best_path_first(),
                same_state_route(),
                model.config.beam_width as int,
            );
            lemma_filled_within(
                model,
                base,
                gap,
                matrix,
                limit,
                depth + 1,
                model.narrowed(next),
                completed,
                most,
            );
        }
    }
}

proof fn lemma_multi_layer_within(
    model: ExactModel,
    states: Seq<FilledState>,
    gap: AutomaticGapView,
    index: int,
    done: Seq<FilledState>,
    at: int,
)
    requires
        0 <= at,
        0 <= index,
        all_hold(states, filled_within(at, model.config.max_tracks_per_gap as int)),
        all_hold(done, filled_within(at + 1, model.config.max_tracks_per_gap as int)),
    ensures
        model.multi_layer_from(states, gap, index, done) matches Ok(expanded) ==> all_hold(
            expanded,
            filled_within(at + 1, model.config.max_tracks_per_gap as int),
        ),
    decreases states.len() - index,
{
    if index < states.len() {
        let state = states[index];
        let most = model.config.max_tracks_per_gap as int;
        assert(filled_within(at, most)(state));
        let left = position(state.route, gap.left);
        if let Ok(matrix) = model.bridge.gap_matrix(state.route, left + 1) {
            let entering = model.entering(state);
            assert(of_depth(0)(entering));
            lemma_filled_within(
                model,
                state.record,
                gap,
                matrix,
                model.depth_limit(state.route),
                0,
                seq![entering],
                done,
                most,
            );
        }
        if let Ok(steps) = model.multi_steps(state, gap, done) {
            lemma_multi_layer_within(model, states, gap, index + 1, steps, at);
        }
    }
}

proof fn lemma_multi_within(
    model: ExactModel,
    gaps: Seq<AutomaticGapView>,
    at: int,
    progress: Progress<Seq<Seq<usize>>>,
)
    requires
        0 <= at <= gaps.len(),
        all_hold(progress.states, filled_within(at, model.config.max_tracks_per_gap as int)),
    ensures
        model.multi_from(gaps, at, progress) matches Ok(end) ==> all_hold(
            end.states,
            filled_within(gaps.len() as int, model.config.max_tracks_per_gap as int),
        ),
    decreases gaps.len() - at,
{
    if at < gaps.len() {
        lemma_multi_layer_within(model, progress.states, gaps[at], 0, seq![], at);
        if let Ok(expanded) = model.multi_layer_from(progress.states, gaps[at], 0, seq![]) {
            let original = model.original.len() as int;
            let width = model.config.beam_width as int;
            lemma_kept_hold(
                expanded,
                filled_within(at + 1, model.config.max_tracks_per_gap as int),
                original,
                width,
            );
            lemma_multi_within(
                model,
                gaps,
                at + 1,
                advanced(progress, expanded, original, width),
            );
        }
    }
}

proof fn lemma_candidate_decisions_within(
    bridge: BridgeModel,
    guidance: Guidance,
    route: Seq<usize>,
    gap: AutomaticGapView,
    chosen: Seq<usize>,
    at: int,
    done: Seq<GapDecisionView>,
    place: usize,
)
    requires
        0 <= at <= chosen.len(),
    ensures
        candidate_decisions_from(bridge, guidance, route, gap, chosen, at, done) matches Ok(
            decisions,
        ) ==> {
            let before = chosen_upto(done, place, done.len() as int);
            let after = chosen_upto(decisions, place, decisions.len() as int);
            &&& after.len() <= before.len() + chosen.len() - at
            &&& gap.original_position != place ==> after == before
        },
    decreases chosen.len() - at,
{
    if at < chosen.len() {
        if let Ok(decision) = candidate_decision(bridge, guidance, route, gap, chosen[at]) {
            assert(decision.original_position == gap.original_position) by {
                reveal(candidate_decision);
            }
            lemma_chosen_push(done, decision, place);
            lemma_candidate_decisions_within(
                bridge,
                guidance,
                route,
                gap,
                chosen,
                at + 1,
                done.push(decision),
                place,
            );
        }
    }
}

proof fn lemma_final_decisions_within(
    bridge: BridgeModel,
    guidance: Guidance,
    route: Seq<usize>,
    gaps: Seq<AutomaticGapView>,
    chosen: Seq<Seq<usize>>,
    at: int,
    done: Seq<GapDecisionView>,
    most: int,
    place: usize,
)
    requires
        0 <= at,
        gaps.len() == chosen.len(),
        at_their_own_places(gaps),
        forall|i: int| 0 <= i < chosen.len() ==> (#[trigger] chosen[i]).len() <= most,
        chosen_upto(done, place, done.len() as int).len() <= most,
        (exists|i: int|
            at <= i < gaps.len() && (#[trigger] gaps[i]).original_position == place)
            ==> chosen_upto(done, place, done.len() as int).len() == 0,
    ensures
        final_decisions_from(bridge, guidance, route, gaps, chosen, at, done) matches Ok(decisions)
            ==> chosen_upto(decisions, place, decisions.len() as int).len() <= most,
    decreases gaps.len() - at,
{
    if at < gaps.len() {
        reveal(gap_decisions);
        let gap = gaps[at];
        lemma_candidate_decisions_within(
            bridge,
            guidance,
            route,
            gap,
            chosen[at],
            0,
            done,
            place,
        );
        if let Ok(decisions) = gap_decisions(bridge, guidance, route, gap, chosen[at], done) {
            if chosen[at].len() == 0 {
                lemma_chosen_push(done, decisions.last(), place);
                assert(decisions =~= done.push(decisions.last()));
            }
            lemma_final_decisions_within(
                bridge,
                guidance,
                route,
                gaps,
                chosen,
                at + 1,
                decisions,
                most,
                place,
            );
        }
    }
}

/// Decisions on gaps at different places put no more tracks into a gap than
/// were chosen for it.
proof fn lemma_final_decisions_not_overfilled(
    bridge: BridgeModel,
    guidance: Guidance,
    route: Seq<usize>,
    gaps: Seq<AutomaticGapView>,
    chosen: Seq<Seq<usize>>,
    most: int,
)
    requires
        0 <= most,
        at_their_own_places(gaps),
        forall|i: int| 0 <= i < chosen.len() ==> (#[trigger] chosen[i]).len() <= most,
    ensures
        final_decisions(bridge, guidance, route, gaps, chosen) matches Ok(decisions)
            ==> no_gap_overfilled(decisions, most),
{
    if gaps.len() == chosen.len() {
        if let Ok(decisions) = final_decisions(bridge, guidance, route, gaps, chosen) {
            assert forall|place: usize| (#[trigger] chosen_upto(
                decisions,
                place,
                decisions.len() as int,
            )).len() <= most by {
                lemma_final_decisions_within(
                    bridge,
                    guidance,
                    route,
                    gaps,
                    chosen,
                    0,
                    seq![],
                    most,
                    place,
                );
            }
        }
    }
}

proof fn lemma_bridged_in_turn(
    model: ExactModel,
    state: DecidedState,
    gaps: Seq<AutomaticGapView>,
    at: int,
    place: int,
    followed: Seq<BridgeCandidateEvaluation>,
    next: int,
    done: Seq<DecidedState>,
)
    requires
        0 <= next,
        0 <= at < gaps.len(),
        decided_in_turn(gaps, at)(state),
        all_hold(done, decided_in_turn(gaps, at + 1)),
    ensures
        model.bridged_from(state, gaps[at], place, followed, next, done) matches Ok(states)
            ==> all_hold(states, decided_in_turn(gaps, at + 1)),
    decreases followed.len() - next,
{
    if next < followed.len() {
        if let Ok(bridged) = model.bridging(state, gaps[at], place, followed[next]) {
            assert forall|i: int| 0 <= i < at + 1 implies (
            #[trigger] bridged.record[i]).original_position == gaps[i].original_position by {
                if i < at {
                    assert(bridged.record[i] == state.record[i]);
                }
            }
            lemma_all_hold_push(done, bridged, decided_in_turn(gaps, at + 1));
            lemma_bridged_in_turn(
                model,
                state,
                gaps,
                at,
                place,
                followed,
                next + 1,
                done.push(bridged),
            );
        }
    }
}

proof fn lemma_single_layer_in_turn(
    model: ExactModel,
    states: Seq<DecidedState>,
    gaps: Seq<AutomaticGapView>,
    remaining: int,
    prune: bool,
    at: int,
)
    requires
        0 <= at < gaps.len(),
        all_hold(states, decided_in_turn(gaps, at)),
    ensures
        model.single_layer_from(states, gaps[at], remaining, prune, 0, seq![]) matches Ok(expanded)
            ==> all_hold(expanded, decided_in_turn(gaps, at + 1)),
{
    let gap = gaps[at];
    let after = decided_in_turn(gaps, at + 1);
    assert forall|i: int| 0 <= i < states.len() implies (model.single_steps(
        #[trigger] states[i],
        gap,
        remaining,
        prune,
    ) matches Ok(steps) ==> all_hold(steps, after)) by {
        let state = states[i];
        assert(decided_in_turn(gaps, at)(state));
        if let Some(place) = gap_position(state.route, gap) {
            let skipped = model.skipping(state, gap, place);
            assert(after(skipped)) by {
                assert forall|k: int| 0 <= k < at + 1 implies (
                #[trigger] skipped.record[k]).original_position == gaps[k].original_position by {
                    if k < at {
                        assert(skipped.record[k] == state.record[k]);
                    }
                }
            }
            let added = state.route.len() - model.original.len();
            let first = if !prune || added + remaining >= model.config.requested_added_tracks {
                seq![skipped]
            } else {
                seq![]
            };
            assert(all_hold(first, after));
            if let Ok(matrix) = model.bridge.gap_matrix(state.route, place) {
                if let Ok(ranked) = evolving_ranked(
                    model.bridge,
                    state.route,
                    place as usize,
                    gap.semantics.candidates,
                    matrix,
                    model.config.guide(),
                    EvolvingAcceptance::FullBridge,
                ) {
                    lemma_bridged_in_turn(
                        model,
                        state,
                        gaps,
                        at,
                        place,
                        model.followed(ranked, EvolvingAcceptance::FullBridge),
                        0,
                        first,
                    );
                }
            }
        }
    }
    model.lemma_single_layer(states, gap, remaining, prune, 0, seq![], after);
}

proof fn lemma_single_in_turn(
    model: ExactModel,
    gaps: Seq<AutomaticGapView>,
    prune: bool,
    at: int,
    progress: Progress<Seq<GapDecisionView>>,
    seen: nat,
)
    requires
        0 <= at <= gaps.len(),
        all_hold(progress.states, decided_in_turn(gaps, at)),
    ensures
        model.single_from(gaps, prune, at, progress, seen) matches Ok((end, _)) ==> all_hold(
            end.states,
            decided_in_turn(gaps, gaps.len() as int),
        ),
    decreases gaps.len() - at,
{
    if at < gaps.len() {
        let remaining = gaps.len() - (at + 1);
        lemma_single_layer_in_turn(model, progress.states, gaps, remaining, prune, at);
        if let Ok(expanded) = model.single_layer_from(
            progress.states,
            gaps[at],
            remaining,
            prune,
            0,
            seq![],
        ) {
            let original = model.original.len() as int;
            let width = model.config.beam_width as int;
            lemma_kept_hold(expanded, decided_in_turn(gaps, at + 1), original, width);
            lemma_single_in_turn(
                model,
                gaps,
                prune,
                at + 1,
                advanced(progress, expanded, original, width),
                crate::anchored_path::larger(
                    crate::anchored_path::larger(
                        seen,
                        crate::states::most_added(
                            progress.states,
                            original,
                            progress.states.len() as int,
                        ),
                    ),
                    crate::states::most_added(expanded, original, expanded.len() as int),
                ),
            );
        }
    }
}

/// With one decision to each gap, no gap takes more than one track.
proof fn lemma_in_turn_not_overfilled(
    decisions: Seq<GapDecisionView>,
    gaps: Seq<AutomaticGapView>,
    place: usize,
    count: int,
)
    requires
        0 <= count <= decisions.len(),
        decisions.len() == gaps.len(),
        at_their_own_places(gaps),
        forall|i: int|
            0 <= i < decisions.len() ==> (#[trigger] decisions[i]).original_position
                == gaps[i].original_position,
    ensures
        chosen_upto(decisions, place, count).len() <= 1,
        (forall|i: int| 0 <= i < count ==> (#[trigger] gaps[i]).original_position != place)
            ==> chosen_upto(decisions, place, count).len() == 0,
    decreases count,
{
    if count > 0 {
        lemma_in_turn_not_overfilled(decisions, gaps, place, count - 1);
        assert(decisions[count - 1].original_position == gaps[count - 1].original_position);
        if gaps[count - 1].original_position == place {
            assert forall|i: int| 0 <= i < count - 1 implies (
            #[trigger] gaps[i]).original_position != place by {
                assert(gaps[i].original_position != gaps[count - 1].original_position);
            }
        }
    }
}

proof fn lemma_ordered_at_their_own_places(gaps: Seq<AutomaticGapView>)
    requires
        at_their_own_places(gaps),
    ensures
        at_their_own_places(stable_sort(gaps, original_order())),
{
    let ordered = stable_sort(gaps, original_order());
    crate::sorting::stable_sort_keeps_items(gaps, original_order());
    assert forall|i: int, j: int| 0 <= i < j < ordered.len() implies (
    #[trigger] ordered[i]).original_position != (#[trigger] ordered[j]).original_position by {
        lemma_distinct_after_sorting(gaps, ordered, i, j);
    }
}

/// No gap of an exact selection takes more tracks than one gap may.
pub proof fn no_gap_takes_too_many_tracks(model: ExactModel, gaps: Seq<AutomaticGapView>)
    requires
        at_their_own_places(gaps),
    ensures
        model.selection(gaps) matches Ok(selection) ==> no_gap_overfilled(
            selection.decisions,
            model.config.max_tracks_per_gap as int,
        ),
{
    let ordered = stable_sort(gaps, original_order());
    let most = model.config.max_tracks_per_gap as int;
    lemma_ordered_at_their_own_places(gaps);
    let length = Some(model.original.len() + model.config.requested_added_tracks);
    if model.refusal() is None {
        if let Ok(objective) = search_objective(model.bridge, model.original, model.original) {
            if most == 1 {
                let prune = model.config.requested_added_tracks <= crate::exact::gap_bound(
                    ordered,
                    1,
                );
                let start = model.beginning(objective, Seq::<GapDecisionView>::empty());
                assert(all_hold(start.states, decided_in_turn(ordered, 0)));
                lemma_single_in_turn(model, ordered, prune, 0, start, 0);
                if let Ok((end, seen)) = model.single_from(ordered, prune, 0, start, 0) {
                    lemma_best(end.states, length, 0, None);
                    if let Some(at) = crate::states::best_from(end.states, length, 0, None) {
                        let record = end.states[at].record;
                        assert(decided_in_turn(ordered, ordered.len() as int)(end.states[at]));
                        assert forall|place: usize| (#[trigger] chosen_upto(
                            record,
                            place,
                            record.len() as int,
                        )).len() <= most by {
                            lemma_in_turn_not_overfilled(
                                record,
                                ordered,
                                place,
                                record.len() as int,
                            );
                        }
                    }
                }
            } else {
                let start = model.beginning(objective, Seq::<Seq<usize>>::empty());
                assert(all_hold(start.states, filled_within(0, most)));
                lemma_multi_within(model, ordered, 0, start);
                if let Ok(end) = model.multi_from(ordered, 0, start) {
                    lemma_best(end.states, length, 0, None);
                    if let Some(at) = crate::states::best_from(end.states, length, 0, None) {
                        let state = end.states[at];
                        assert(filled_within(ordered.len() as int, most)(state));
                        lemma_final_decisions_not_overfilled(
                            model.bridge,
                            model.config.guide(),
                            state.route,
                            ordered,
                            state.record,
                            most,
                        );
                    }
                }
            }
        }
    }
}

/// Whether a route with its ends overfills no gap.
spec fn within_share(model: ExactModel) -> spec_fn(SearchStateView<EndpointRecordView>) -> bool {
    |state: SearchStateView<EndpointRecordView>|
        no_gap_overfilled(state.record.decisions, model.config.max_tracks_per_gap as int)
}

/// Whether the tracks chosen for each gap are no more than it may take.
spec fn inner_within_share(model: ExactModel, inner: Inner) -> bool {
    &&& at_their_own_places(inner.gaps)
    &&& forall|i: int|
        0 <= i < inner.chosen.len() ==> (#[trigger] inner.chosen[i]).len()
            <= model.config.max_tracks_per_gap
}

proof fn lemma_with_closing_within(
    model: ExactModel,
    inner: Inner,
    route: Seq<usize>,
    noted: Seq<EndpointDecisionView>,
    closing: Option<SelectedEndpointView>,
    run: EndpointRunView,
)
    requires
        inner_within_share(model, inner),
        all_hold(run.variants, within_share(model)),
    ensures
        model.with_closing(inner, route, noted, closing, run) matches Ok(next) ==> all_hold(
            next.variants,
            within_share(model),
        ),
{
    lemma_final_decisions_not_overfilled(
        model.bridge,
        model.config.guide(),
        closed_with(route, closing),
        inner.gaps,
        inner.chosen,
        model.config.max_tracks_per_gap as int,
    );
    if let Ok(next) = model.with_closing(inner, route, noted, closing, run) {
        if next.variants.len() > run.variants.len() {
            assert(next.variants =~= run.variants.push(next.variants.last()));
            lemma_all_hold_push(run.variants, next.variants.last(), within_share(model));
        }
    }
}

proof fn lemma_closings_within(
    model: ExactModel,
    inner: Inner,
    route: Seq<usize>,
    noted: Seq<EndpointDecisionView>,
    choices: Seq<SelectedEndpointView>,
    at: int,
    run: EndpointRunView,
)
    requires
        0 <= at,
        inner_within_share(model, inner),
        all_hold(run.variants, within_share(model)),
    ensures
        model.closings_from(inner, route, noted, choices, at, run) matches Ok(next) ==> all_hold(
            next.variants,
            within_share(model),
        ),
    decreases choices.len() - at,
{
    if at < choices.len() {
        lemma_with_closing_within(model, inner, route, noted, Some(choices[at]), run);
        if let Ok(next) = model.with_closing(inner, route, noted, Some(choices[at]), run) {
            lemma_closings_within(model, inner, route, noted, choices, at + 1, next);
        }
    }
}

proof fn lemma_with_opening_within(
    model: ExactModel,
    inner: Inner,
    route: Seq<usize>,
    opening: Option<SelectedEndpointView>,
    use_closing: bool,
    run: EndpointRunView,
)
    requires
        inner_within_share(model, inner),
        all_hold(run.variants, within_share(model)),
    ensures
        model.with_opening(inner, route, opening, use_closing, run) matches Ok(next) ==> all_hold(
            next.variants,
            within_share(model),
        ),
{
    let begun = opened(route, opening);
    let noted = noted_end(seq![], EndpointSlot::Opening, inner.ends.opening, opening);
    if use_closing && inner.ends.closing is Some {
        if let Ok(choices) = model.tried(
            begun,
            EndpointSlot::Closing,
            inner.ends.closing->Some_0,
        ) {
            lemma_closings_within(model, inner, begun, noted, choices, 0, run);
        }
    } else {
        lemma_with_closing_within(model, inner, begun, noted, None, run);
    }
}

proof fn lemma_openings_within(
    model: ExactModel,
    inner: Inner,
    route: Seq<usize>,
    use_closing: bool,
    choices: Seq<SelectedEndpointView>,
    at: int,
    run: EndpointRunView,
)
    requires
        0 <= at,
        inner_within_share(model, inner),
        all_hold(run.variants, within_share(model)),
    ensures
        model.openings_from(inner, route, use_closing, choices, at, run) matches Ok(next)
            ==> all_hold(next.variants, within_share(model)),
    decreases choices.len() - at,
{
    if at < choices.len() {
        lemma_with_opening_within(model, inner, route, Some(choices[at]), use_closing, run);
        if let Ok(next) = model.with_opening(inner, route, Some(choices[at]), use_closing, run) {
            lemma_openings_within(model, inner, route, use_closing, choices, at + 1, next);
        }
    }
}

proof fn lemma_combined_within(
    model: ExactModel,
    gaps: Seq<AutomaticGapView>,
    ends: ExactEndpointSlotsView,
    use_opening: bool,
    use_closing: bool,
    run: EndpointRunView,
)
    requires
        at_their_own_places(gaps),
        all_hold(run.variants, within_share(model)),
    ensures
        model.combined(gaps, ends, use_opening, use_closing, run) matches Ok(next) ==> all_hold(
            next.variants,
            within_share(model),
        ),
{
    let end_count = (if use_opening {
        1int
    } else {
        0
    }) + (if use_closing {
        1int
    } else {
        0
    });
    let inside = model.inside(end_count);
    let ordered = stable_sort(gaps, original_order());
    no_gap_takes_too_many_tracks(inside, gaps);
    lemma_ordered_at_their_own_places(gaps);
    if let Ok(found) = inside.selection(gaps) {
        let inner = Inner {
            gaps: ordered,
            chosen: chosen_for_gaps(found.decisions, ordered),
            ends,
        };
        let counted = EndpointRunView {
            variants: run.variants,
            evaluated: crate::anchored_path::capped_sum(
                run.evaluated,
                found.stats.evaluated_states as int,
            ),
            retained: crate::anchored_path::capped_sum(
                run.retained,
                found.stats.retained_states as int,
            ),
            most: crate::anchored_path::larger(
                run.most,
                found.stats.maximum_additions_found as nat,
            ),
        };
        assert(inner_within_share(model, inner));
        if let Some(route) = found.final_route {
            if use_opening {
                if let Ok(choices) = model.tried(
                    route,
                    EndpointSlot::Opening,
                    ends.opening->Some_0,
                ) {
                    lemma_openings_within(
                        model,
                        inner,
                        route,
                        use_closing,
                        choices,
                        0,
                        counted,
                    );
                }
            } else {
                lemma_with_opening_within(model, inner, route, None, use_closing, counted);
            }
        }
    }
}

/// With the ends, too, no gap takes more tracks than one gap may.
pub proof fn no_gap_takes_too_many_tracks_beside_the_ends(
    model: ExactModel,
    gaps: Seq<AutomaticGapView>,
    ends: ExactEndpointSlotsView,
)
    requires
        at_their_own_places(gaps),
    ensures
        model.endpoint_selection(gaps, ends) matches Ok(selection) ==> no_gap_overfilled(
            selection.decisions,
            model.config.max_tracks_per_gap as int,
        ),
{
    if ends.opening is None && ends.closing is None {
        no_gap_takes_too_many_tracks(model, gaps);
    } else {
        let none = EndpointRunView { variants: seq![], evaluated: 0, retained: 0, most: 0 };
        lemma_combined_within(model, gaps, ends, false, false, none);
        if let Ok(plain) = model.combined(gaps, ends, false, false, none) {
            lemma_combined_within(model, gaps, ends, false, true, plain);
            if let Ok(closing) = model.combined(gaps, ends, false, true, plain) {
                lemma_combined_within(model, gaps, ends, true, false, closing);
                if let Ok(opening) = model.combined(gaps, ends, true, false, closing) {
                    lemma_combined_within(model, gaps, ends, true, true, opening);
                }
            }
        }
        if let Ok(run) = model.endpoint_run(gaps, ends) {
            lemma_best(run.variants, None, 0, None);
            if let Some(at) = crate::states::best_from(run.variants, None, 0, None) {
                assert(within_share(model)(run.variants[at]));
            }
        }
    }
}

// What the ends take.

/// How many tracks an end takes.
pub open spec fn taken(end: Option<SelectedEndpointView>) -> int {
    if end is Some {
        1
    } else {
        0
    }
}

/// Whether a candidate passes at an end of a route: weighing it there gives this
/// evaluation, it is not on the route yet, repeats nothing too soon and keeps
/// the limit on a leg.
pub open spec fn passes_at_end(
    model: BridgeModel,
    route: Seq<usize>,
    slot: EndpointSlot,
    evaluation: EndpointCandidateEvaluation,
) -> bool {
    &&& model.endpoint_evaluation(route, slot, evaluation.candidate) == Ok::<
        EndpointCandidateEvaluation,
        crate::bridge::BridgeError,
    >(evaluation)
    &&& evaluation.accepted
    &&& evaluation.repeat_safe
    &&& !route.contains(evaluation.candidate)
    &&& evaluation.percentile <= model.config.max_leg_percentile
}

/// Whether a route and what is noted of its ends come of a route through the
/// gaps, for what the ends leave to them, with a track at each end that takes
/// one. Only an end that is offered takes a track, and only one that passes
/// there.
#[verifier::opaque]
pub open spec fn built_with_ends(
    model: ExactModel,
    gaps: Seq<AutomaticGapView>,
    ends: ExactEndpointSlotsView,
    route: Seq<usize>,
    noted: Seq<EndpointDecisionView>,
    inside: Seq<usize>,
    opening: Option<SelectedEndpointView>,
    closing: Option<SelectedEndpointView>,
) -> bool {
    let begun = opened(inside, opening);
    &&& model.inside(taken(opening) + taken(closing)).selection(gaps) matches Ok(found)
        && found.final_route == Some(inside)
    &&& route == closed_with(begun, closing)
    &&& noted == noted_end(
        noted_end(seq![], EndpointSlot::Opening, ends.opening, opening),
        EndpointSlot::Closing,
        ends.closing,
        closing,
    )
    &&& opening matches Some(choice) ==> ends.opening is Some && passes_at_end(
        model.bridge,
        inside,
        EndpointSlot::Opening,
        choice.evaluation,
    )
    &&& closing matches Some(choice) ==> ends.closing is Some && passes_at_end(
        model.bridge,
        begun,
        EndpointSlot::Closing,
        choice.evaluation,
    )
}

/// Whether a route and what is noted of its ends come of some route through the
/// gaps and some choice for each end.
pub open spec fn built_of_parts(
    model: ExactModel,
    gaps: Seq<AutomaticGapView>,
    ends: ExactEndpointSlotsView,
    route: Seq<usize>,
    noted: Seq<EndpointDecisionView>,
) -> bool {
    exists|
        inside: Seq<usize>,
        opening: Option<SelectedEndpointView>,
        closing: Option<SelectedEndpointView>,
    | #[trigger]
        built_with_ends(model, gaps, ends, route, noted, inside, opening, closing)
}

spec fn of_its_parts(
    model: ExactModel,
    gaps: Seq<AutomaticGapView>,
    ends: ExactEndpointSlotsView,
) -> spec_fn(SearchStateView<EndpointRecordView>) -> bool {
    |state: SearchStateView<EndpointRecordView>|
        built_of_parts(model, gaps, ends, state.route, state.record.endpoint_decisions)
}

proof fn lemma_passes_at_end(
    model: BridgeModel,
    route: Seq<usize>,
    slot: EndpointSlot,
    evaluation: EndpointCandidateEvaluation,
)
    requires
        evaluation.accepted,
        at_end(model, route, slot)(evaluation),
    ensures
        passes_at_end(model, route, slot, evaluation),
{
    reveal(weighed_at_end);
}

proof fn lemma_with_closing_parts(
    model: ExactModel,
    gaps: Seq<AutomaticGapView>,
    inner: Inner,
    inside: Seq<usize>,
    opening: Option<SelectedEndpointView>,
    closing: Option<SelectedEndpointView>,
    run: EndpointRunView,
)
    requires
        built_with_ends(
            model,
            gaps,
            inner.ends,
            closed_with(opened(inside, opening), closing),
            noted_end(
                noted_end(seq![], EndpointSlot::Opening, inner.ends.opening, opening),
                EndpointSlot::Closing,
                inner.ends.closing,
                closing,
            ),
            inside,
            opening,
            closing,
        ),
        all_hold(run.variants, of_its_parts(model, gaps, inner.ends)),
    ensures
        model.with_closing(
            inner,
            opened(inside, opening),
            noted_end(seq![], EndpointSlot::Opening, inner.ends.opening, opening),
            closing,
            run,
        ) matches Ok(next) ==> all_hold(next.variants, of_its_parts(model, gaps, inner.ends)),
{
    let noted = noted_end(seq![], EndpointSlot::Opening, inner.ends.opening, opening);
    if let Ok(next) = model.with_closing(inner, opened(inside, opening), noted, closing, run) {
        if next.variants.len() > run.variants.len() {
            let last = next.variants.last();
            assert(next.variants =~= run.variants.push(last));
            assert(built_with_ends(
                model,
                gaps,
                inner.ends,
                last.route,
                last.record.endpoint_decisions,
                inside,
                opening,
                closing,
            ));
            lemma_all_hold_push(run.variants, last, of_its_parts(model, gaps, inner.ends));
        }
    }
}

proof fn lemma_closings_parts(
    model: ExactModel,
    gaps: Seq<AutomaticGapView>,
    inner: Inner,
    inside: Seq<usize>,
    opening: Option<SelectedEndpointView>,
    choices: Seq<SelectedEndpointView>,
    at: int,
    run: EndpointRunView,
)
    requires
        0 <= at,
        forall|i: int|
            0 <= i < choices.len() ==> built_with_ends(
                model,
                gaps,
                inner.ends,
                closed_with(opened(inside, opening), Some(#[trigger] choices[i])),
                noted_end(
                    noted_end(seq![], EndpointSlot::Opening, inner.ends.opening, opening),
                    EndpointSlot::Closing,
                    inner.ends.closing,
                    Some(choices[i]),
                ),
                inside,
                opening,
                Some(choices[i]),
            ),
        all_hold(run.variants, of_its_parts(model, gaps, inner.ends)),
    ensures
        model.closings_from(
            inner,
            opened(inside, opening),
            noted_end(seq![], EndpointSlot::Opening, inner.ends.opening, opening),
            choices,
            at,
            run,
        ) matches Ok(next) ==> all_hold(next.variants, of_its_parts(model, gaps, inner.ends)),
    decreases choices.len() - at,
{
    if at < choices.len() {
        let noted = noted_end(seq![], EndpointSlot::Opening, inner.ends.opening, opening);
        lemma_with_closing_parts(model, gaps, inner, inside, opening, Some(choices[at]), run);
        if let Ok(next) = model.with_closing(
            inner,
            opened(inside, opening),
            noted,
            Some(choices[at]),
            run,
        ) {
            lemma_closings_parts(model, gaps, inner, inside, opening, choices, at + 1, next);
        }
    }
}

proof fn lemma_with_opening_parts(
    model: ExactModel,
    gaps: Seq<AutomaticGapView>,
    inner: Inner,
    inside: Seq<usize>,
    opening: Option<SelectedEndpointView>,
    use_closing: bool,
    run: EndpointRunView,
)
    requires
        model.config.variation_percent <= 100,
        use_closing ==> inner.ends.closing is Some,
        model.inside(
            taken(opening) + (if use_closing {
                1int
            } else {
                0
            }),
        ).selection(gaps) matches Ok(found) && found.final_route == Some(inside),
        opening matches Some(choice) ==> inner.ends.opening is Some && passes_at_end(
            model.bridge,
            inside,
            EndpointSlot::Opening,
            choice.evaluation,
        ),
        all_hold(run.variants, of_its_parts(model, gaps, inner.ends)),
    ensures
        model.with_opening(inner, inside, opening, use_closing, run) matches Ok(next) ==> all_hold(
            next.variants,
            of_its_parts(model, gaps, inner.ends),
        ),
{
    reveal(built_with_ends);
    let begun = opened(inside, opening);
    if use_closing {
        let end = inner.ends.closing->Some_0;
        lemma_choices_accepted(
            model.bridge,
            begun,
            EndpointSlot::Closing,
            end.semantics.candidates,
            model.config.candidate_limit as int,
            model.config.guide(),
        );
        if let Ok(choices) = model.tried(begun, EndpointSlot::Closing, end) {
            assert forall|i: int| 0 <= i < choices.len() implies built_with_ends(
                model,
                gaps,
                inner.ends,
                closed_with(begun, Some(#[trigger] choices[i])),
                noted_end(
                    noted_end(seq![], EndpointSlot::Opening, inner.ends.opening, opening),
                    EndpointSlot::Closing,
                    inner.ends.closing,
                    Some(choices[i]),
                ),
                inside,
                opening,
                Some(choices[i]),
            ) by {
                lemma_passes_at_end(
                    model.bridge,
                    begun,
                    EndpointSlot::Closing,
                    choices[i].evaluation,
                );
            }
            lemma_closings_parts(model, gaps, inner, inside, opening, choices, 0, run);
        }
    } else {
        lemma_with_closing_parts(model, gaps, inner, inside, opening, None, run);
    }
}

proof fn lemma_openings_parts(
    model: ExactModel,
    gaps: Seq<AutomaticGapView>,
    inner: Inner,
    inside: Seq<usize>,
    use_closing: bool,
    choices: Seq<SelectedEndpointView>,
    at: int,
    run: EndpointRunView,
)
    requires
        0 <= at,
        model.config.variation_percent <= 100,
        use_closing ==> inner.ends.closing is Some,
        inner.ends.opening is Some,
        model.inside(
            1 + (if use_closing {
                1int
            } else {
                0
            }),
        ).selection(gaps) matches Ok(found) && found.final_route == Some(inside),
        forall|i: int|
            0 <= i < choices.len() ==> passes_at_end(
                model.bridge,
                inside,
                EndpointSlot::Opening,
                (#[trigger] choices[i]).evaluation,
            ),
        all_hold(run.variants, of_its_parts(model, gaps, inner.ends)),
    ensures
        model.openings_from(inner, inside, use_closing, choices, at, run) matches Ok(next)
            ==> all_hold(next.variants, of_its_parts(model, gaps, inner.ends)),
    decreases choices.len() - at,
{
    if at < choices.len() {
        lemma_with_opening_parts(
            model,
            gaps,
            inner,
            inside,
            Some(choices[at]),
            use_closing,
            run,
        );
        if let Ok(next) = model.with_opening(inner, inside, Some(choices[at]), use_closing, run) {
            lemma_openings_parts(model, gaps, inner, inside, use_closing, choices, at + 1, next);
        }
    }
}

proof fn lemma_combined_parts(
    model: ExactModel,
    gaps: Seq<AutomaticGapView>,
    ends: ExactEndpointSlotsView,
    use_opening: bool,
    use_closing: bool,
    run: EndpointRunView,
)
    requires
        model.config.variation_percent <= 100,
        all_hold(run.variants, of_its_parts(model, gaps, ends)),
    ensures
        model.combined(gaps, ends, use_opening, use_closing, run) matches Ok(next) ==> all_hold(
            next.variants,
            of_its_parts(model, gaps, ends),
        ),
{
    let end_count = (if use_opening {
        1int
    } else {
        0
    }) + (if use_closing {
        1int
    } else {
        0
    });
    if !(use_opening && ends.opening is None) && !(use_closing && ends.closing is None)
        && end_count <= model.config.requested_added_tracks {
        if let Ok(found) = model.inside(end_count).selection(gaps) {
            let ordered = stable_sort(gaps, original_order());
            let inner = Inner {
                gaps: ordered,
                chosen: chosen_for_gaps(found.decisions, ordered),
                ends,
            };
            let counted = EndpointRunView {
                variants: run.variants,
                evaluated: crate::anchored_path::capped_sum(
                    run.evaluated,
                    found.stats.evaluated_states as int,
                ),
                retained: crate::anchored_path::capped_sum(
                    run.retained,
                    found.stats.retained_states as int,
                ),
                most: crate::anchored_path::larger(
                    run.most,
                    found.stats.maximum_additions_found as nat,
                ),
            };
            if let Some(route) = found.final_route {
                if use_opening {
                    let end = ends.opening->Some_0;
                    lemma_choices_accepted(
                        model.bridge,
                        route,
                        EndpointSlot::Opening,
                        end.semantics.candidates,
                        model.config.candidate_limit as int,
                        model.config.guide(),
                    );
                    if let Ok(choices) = model.tried(route, EndpointSlot::Opening, end) {
                        assert forall|i: int| 0 <= i < choices.len() implies passes_at_end(
                            model.bridge,
                            route,
                            EndpointSlot::Opening,
                            (#[trigger] choices[i]).evaluation,
                        ) by {
                            lemma_passes_at_end(
                                model.bridge,
                                route,
                                EndpointSlot::Opening,
                                choices[i].evaluation,
                            );
                        }
                        lemma_openings_parts(
                            model,
                            gaps,
                            inner,
                            route,
                            use_closing,
                            choices,
                            0,
                            counted,
                        );
                    }
                } else {
                    lemma_with_opening_parts(
                        model,
                        gaps,
                        inner,
                        route,
                        None,
                        use_closing,
                        counted,
                    );
                }
            }
        }
    }
}

proof fn lemma_no_ends(
    model: ExactModel,
    gaps: Seq<AutomaticGapView>,
    ends: ExactEndpointSlotsView,
    selection: ExactSelectionView,
    route: Seq<usize>,
)
    requires
        ends.opening is None,
        ends.closing is None,
        model.selection(gaps) == Ok::<ExactSelectionView, PreviewErrorView>(selection),
        selection.final_route == Some(route),
    ensures
        built_of_parts(model, gaps, ends, route, selection.endpoint_decisions),
{
    let none: Option<SelectedEndpointView> = None;
    assert(model.inside(0) == model);
    assert(selection.endpoint_decisions =~= seq![]);
    assert(built_with_ends(
        model,
        gaps,
        ends,
        route,
        selection.endpoint_decisions,
        route,
        none,
        none,
    )) by {
        reveal(built_with_ends);
    }
}

proof fn lemma_run_parts(
    model: ExactModel,
    gaps: Seq<AutomaticGapView>,
    ends: ExactEndpointSlotsView,
)
    requires
        model.config.variation_percent <= 100,
    ensures
        model.endpoint_run(gaps, ends) matches Ok(run) ==> all_hold(
            run.variants,
            of_its_parts(model, gaps, ends),
        ),
{
    let none = EndpointRunView { variants: seq![], evaluated: 0, retained: 0, most: 0 };
    lemma_combined_parts(model, gaps, ends, false, false, none);
    if let Ok(plain) = model.combined(gaps, ends, false, false, none) {
        lemma_combined_parts(model, gaps, ends, false, true, plain);
        if let Ok(closing) = model.combined(gaps, ends, false, true, plain) {
            lemma_combined_parts(model, gaps, ends, true, false, closing);
            if let Ok(opening) = model.combined(gaps, ends, true, false, closing) {
                lemma_combined_parts(model, gaps, ends, true, true, opening);
            }
        }
    }
}

/// A route with its ends holds a route through the gaps that adds what the ends
/// leave to it, and at most one track in front and one behind: none where the
/// end is not offered, and only one that passes there. Each end that is offered
/// is decided on once.
pub proof fn ends_take_at_most_one_track(
    model: ExactModel,
    gaps: Seq<AutomaticGapView>,
    ends: ExactEndpointSlotsView,
)
    requires
        model.config.variation_percent <= 100,
    ensures
        model.endpoint_selection(gaps, ends) matches Ok(selection) ==> (
        selection.final_route matches Some(route) ==> built_of_parts(
            model,
            gaps,
            ends,
            route,
            selection.endpoint_decisions,
        )),
{
    if ends.opening is None && ends.closing is None {
        if let Ok(selection) = model.selection(gaps) {
            if let Some(route) = selection.final_route {
                lemma_no_ends(model, gaps, ends, selection, route);
            }
        }
    } else {
        lemma_run_parts(model, gaps, ends);
        if let Ok(run) = model.endpoint_run(gaps, ends) {
            lemma_best(run.variants, None, 0, None);
            if let Some(at) = crate::states::best_from(run.variants, None, 0, None) {
                assert(of_its_parts(model, gaps, ends)(run.variants[at]));
            }
        }
    }
}

} // verus!
