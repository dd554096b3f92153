//! Without variation the seed has no say in any selection.

use crate::anchored_path::{capped_sum, larger};
use crate::bridge::{BridgeCandidateEvaluation, BridgeModel, EndpointSlot};
use crate::contextual::ContextMatrixView;
use crate::exact::{
    gap_bound, DecidedState, EndpointDecisionView, ExactModel, FilledState, SelectedEndpointView,
};
use crate::exact_endpoints::{
    chosen_for_gaps, closed_with, endpoint_ranked, guided_endpoint_first, noted_end, opened,
    EndpointRunView, ExactEndpointSlotsView, Inner,
};
use crate::exact_multi::{
    candidate_decision, candidate_decisions_from, final_decisions_from, gap_decisions, PathState,
};
use crate::preview::{
    automatic_from, automatic_selection, evolving_ranked, first_entry, gap_outcome, gap_position,
    guided_first, original_order, right_position, search_objective, AutomaticGapView,
    AutomaticSelectionConfig, DecisionReason, EvolvingAcceptance, ExactSelectionConfig,
    GapDecisionView, Guidance,
};
use crate::reports::search_config;
use crate::requests::{AdaptiveSettings, RepeatWindows, SearchSettings, SelectionSettings};
use crate::seed_growth::{
    keyed, lemma_pool_fits, nothing_supported, picked_from, unguided_rankings_stay, GrowthModel,
    PreferenceView,
};
use crate::semantic::CandidateSemanticsView;
use crate::sequences::position;
use crate::sorting::stable_sort;
use crate::states::{advanced, most_added, Progress};
use vstd::prelude::*;

verus! {

// Rankings.

/// The same guidance with another seed.
pub open spec fn reseeded(guidance: Guidance, seed: u64) -> Guidance {
    Guidance {
        track_percent: guidance.track_percent,
        artist_percent: guidance.artist_percent,
        variation_percent: guidance.variation_percent,
        seed,
        minimum_pool: guidance.minimum_pool,
    }
}

/// Without variation a ranking for a gap does not depend on the seed.
pub proof fn ranking_without_variation_ignores_the_seed(
    model: BridgeModel,
    route: Seq<usize>,
    position: usize,
    semantics: Seq<CandidateSemanticsView>,
    matrix: Option<ContextMatrixView>,
    guidance: Guidance,
    acceptance: EvolvingAcceptance,
    seed: u64,
)
    requires
        guidance.variation_percent == 0,
    ensures
        evolving_ranked(
            model,
            route,
            position,
            semantics,
            matrix,
            reseeded(guidance, seed),
            acceptance,
        ) == evolving_ranked(model, route, position, semantics, matrix, guidance, acceptance),
{
    assert(guided_first(model.config, semantics, reseeded(guidance, seed), acceptance)
        =~= guided_first(model.config, semantics, guidance, acceptance));
}

/// Without variation a ranking for an end does not depend on the seed.
pub proof fn endpoint_ranking_without_variation_ignores_the_seed(
    model: BridgeModel,
    route: Seq<usize>,
    slot: EndpointSlot,
    semantics: Seq<CandidateSemanticsView>,
    guidance: Guidance,
    seed: u64,
)
    requires
        guidance.variation_percent == 0,
    ensures
        endpoint_ranked(model, route, slot, semantics, reseeded(guidance, seed))
            == endpoint_ranked(model, route, slot, semantics, guidance),
{
    assert(guided_endpoint_first(semantics, reseeded(guidance, seed)) =~= guided_endpoint_first(
        semantics,
        guidance,
    ));
}

// Automatic selection.

/// The same configuration with another seed.
pub open spec fn automatic_with_seed(
    config: AutomaticSelectionConfig,
    seed: u64,
) -> AutomaticSelectionConfig {
    AutomaticSelectionConfig {
        max_added_tracks: config.max_added_tracks,
        trigger_percentile: config.trigger_percentile,
        track_guidance_percent: config.track_guidance_percent,
        artist_guidance_percent: config.artist_guidance_percent,
        variation_percent: config.variation_percent,
        generation_seed: seed,
    }
}

proof fn lemma_gap_outcome_seed(
    model: BridgeModel,
    route: Seq<usize>,
    gap: AutomaticGapView,
    config: AutomaticSelectionConfig,
    added: int,
    seed: u64,
)
    requires
        config.variation_percent == 0,
    ensures
        gap_outcome(model, route, gap, automatic_with_seed(config, seed), added) == gap_outcome(
            model,
            route,
            gap,
            config,
            added,
        ),
{
    assert(automatic_with_seed(config, seed).guide() == reseeded(config.guide(), seed));
    if let Some(at) = gap_position(route, gap) {
        if let Ok(matrix) = model.gap_matrix(route, at) {
            ranking_without_variation_ignores_the_seed(
                model,
                route,
                at as usize,
                gap.semantics.candidates,
                matrix,
                config.guide(),
                EvolvingAcceptance::FullBridge,
                seed,
            );
        }
    }
}

proof fn lemma_automatic_seed(
    model: BridgeModel,
    gaps: Seq<AutomaticGapView>,
    config: AutomaticSelectionConfig,
    at: int,
    route: Seq<usize>,
    added: int,
    decisions: Seq<GapDecisionView>,
    seed: u64,
)
    requires
        config.variation_percent == 0,
    ensures
        automatic_from(
            model,
            gaps,
            automatic_with_seed(config, seed),
            at,
            route,
            added,
            decisions,
        ) == automatic_from(model, gaps, config, at, route, added, decisions),
    decreases gaps.len() - at,
{
    if at < gaps.len() {
        lemma_gap_outcome_seed(model, route, gaps[at], config, added, seed);
        if let Ok(outcome) = gap_outcome(model, route, gaps[at], config, added) {
            lemma_automatic_seed(
                model,
                gaps,
                config,
                at + 1,
                outcome.route,
                if outcome.decision.reason == DecisionReason::Selected {
                    added + 1
                } else {
                    added
                },
                decisions.push(outcome.decision),
                seed,
            );
        }
    }
}

/// Without variation an automatic selection does not depend on the seed.
pub proof fn automatic_selection_without_variation_ignores_the_seed(
    model: BridgeModel,
    original: Seq<usize>,
    gaps: Seq<AutomaticGapView>,
    config: AutomaticSelectionConfig,
    seed: u64,
)
    requires
        config.variation_percent == 0,
    ensures
        automatic_selection(model, original, gaps, automatic_with_seed(config, seed))
            == automatic_selection(model, original, gaps, config),
{
    lemma_automatic_seed(
        model,
        stable_sort(gaps, original_order()),
        config,
        0,
        original,
        0,
        seq![],
        seed,
    );
}

// Exact selection.

/// The same configuration with another seed.
pub open spec fn exact_with_seed(config: ExactSelectionConfig, seed: u64) -> ExactSelectionConfig {
    ExactSelectionConfig {
        requested_added_tracks: config.requested_added_tracks,
        candidate_limit: config.candidate_limit,
        beam_width: config.beam_width,
        max_tracks_per_gap: config.max_tracks_per_gap,
        track_guidance_percent: config.track_guidance_percent,
        artist_guidance_percent: config.artist_guidance_percent,
        variation_percent: config.variation_percent,
        generation_seed: seed,
    }
}

/// The same search with another seed.
pub open spec fn with_seed(model: ExactModel, seed: u64) -> ExactModel {
    ExactModel {
        bridge: model.bridge,
        original: model.original,
        config: exact_with_seed(model.config, seed),
    }
}

proof fn lemma_bridged_seed(
    model: ExactModel,
    state: DecidedState,
    gap: AutomaticGapView,
    at: int,
    followed: Seq<BridgeCandidateEvaluation>,
    next: int,
    done: Seq<DecidedState>,
    seed: u64,
)
    ensures
        with_seed(model, seed).bridged_from(state, gap, at, followed, next, done)
            == model.bridged_from(state, gap, at, followed, next, done),
    decreases followed.len() - next,
{
    if next < followed.len() {
        if let Ok(bridged) = model.bridging(state, gap, at, followed[next]) {
            lemma_bridged_seed(
                model,
                state,
                gap,
                at,
                followed,
                next + 1,
                done.push(bridged),
                seed,
            );
        }
    }
}

proof fn lemma_single_steps_seed(
    model: ExactModel,
    state: DecidedState,
    gap: AutomaticGapView,
    remaining: int,
    prune: bool,
    seed: u64,
)
    requires
        model.config.variation_percent == 0,
    ensures
        with_seed(model, seed).single_steps(state, gap, remaining, prune) == model.single_steps(
            state,
            gap,
            remaining,
            prune,
        ),
{
    let other = with_seed(model, seed);
    assert(other.config.guide() == reseeded(model.config.guide(), seed));
    if let Some(at) = gap_position(state.route, gap) {
        let added = state.route.len() - model.original.len();
        let skipped = if !prune || added + remaining >= model.config.requested_added_tracks {
            seq![model.skipping(state, gap, at)]
        } else {
            seq![]
        };
        if let Ok(matrix) = model.bridge.gap_matrix(state.route, at) {
            ranking_without_variation_ignores_the_seed(
                model.bridge,
                state.route,
                at as usize,
                gap.semantics.candidates,
                matrix,
                model.config.guide(),
                EvolvingAcceptance::FullBridge,
                seed,
            );
            if let Ok(ranked) = evolving_ranked(
                model.bridge,
                state.route,
                at as usize,
                gap.semantics.candidates,
                matrix,
                model.config.guide(),
                EvolvingAcceptance::FullBridge,
            ) {
                lemma_bridged_seed(
                    model,
                    state,
                    gap,
                    at,
                    model.followed(ranked, EvolvingAcceptance::FullBridge),
                    0,
                    skipped,
                    seed,
                );
            }
        }
    }
}

proof fn lemma_single_layer_seed(
    model: ExactModel,
    states: Seq<DecidedState>,
    gap: AutomaticGapView,
    remaining: int,
    prune: bool,
    at: int,
    done: Seq<DecidedState>,
    seed: u64,
)
    requires
        model.config.variation_percent == 0,
    ensures
        with_seed(model, seed).single_layer_from(states, gap, remaining, prune, at, done)
            == model.single_layer_from(states, gap, remaining, prune, at, done),
    decreases states.len() - at,
{
    if at < states.len() {
        lemma_single_steps_seed(model, states[at], gap, remaining, prune, seed);
        if let Ok(steps) = model.single_steps(states[at], gap, remaining, prune) {
            lemma_single_layer_seed(
                model,
                states,
                gap,
                remaining,
                prune,
                at + 1,
                done + steps,
                seed,
            );
        }
    }
}

proof fn lemma_single_seed(
    model: ExactModel,
    gaps: Seq<AutomaticGapView>,
    prune: bool,
    at: int,
    progress: Progress<Seq<GapDecisionView>>,
    seen: nat,
    seed: u64,
)
    requires
        model.config.variation_percent == 0,
    ensures
        with_seed(model, seed).single_from(gaps, prune, at, progress, seen) == model.single_from(
            gaps,
            prune,
            at,
            progress,
            seen,
        ),
    decreases gaps.len() - at,
{
    if at < gaps.len() {
        let remaining = gaps.len() - (at + 1);
        lemma_single_layer_seed(
            model,
            progress.states,
            gaps[at],
            remaining,
            prune,
            0,
            seq![],
            seed,
        );
        if let Ok(expanded) = model.single_layer_from(
            progress.states,
            gaps[at],
            remaining,
            prune,
            0,
            seq![],
        ) {
            let original = model.original.len() as int;
            lemma_single_seed(
                model,
                gaps,
                prune,
                at + 1,
                advanced(progress, expanded, original, model.config.beam_width as int),
                larger(
                    larger(
                        seen,
                        most_added(progress.states, original, progress.states.len() as int),
                    ),
                    most_added(expanded, original, expanded.len() as int),
                ),
                seed,
            );
        }
    }
}

proof fn lemma_branches_seed(
    model: ExactModel,
    variant: PathState,
    at: int,
    followed: Seq<BridgeCandidateEvaluation>,
    next: int,
    done: Seq<PathState>,
    seed: u64,
)
    ensures
        with_seed(model, seed).branches_from(variant, at, followed, next, done)
            == model.branches_from(variant, at, followed, next, done),
    decreases followed.len() - next,
{
    if next < followed.len() {
        if let Ok(state) = model.branch(variant, at, followed[next]) {
            lemma_branches_seed(model, variant, at, followed, next + 1, done.push(state), seed);
        }
    }
}

proof fn lemma_frontier_seed(
    model: ExactModel,
    frontier: Seq<PathState>,
    gap: AutomaticGapView,
    matrix: Option<ContextMatrixView>,
    at: int,
    done: Seq<PathState>,
    seed: u64,
)
    requires
        model.config.variation_percent == 0,
        0 <= at,
    ensures
        with_seed(model, seed).frontier_from(frontier, gap, matrix, at, done)
            == model.frontier_from(frontier, gap, matrix, at, done),
    decreases frontier.len() - at,
{
    if at < frontier.len() {
        let other = with_seed(model, seed);
        let variant = frontier[at];
        assert(other.config.guide() == reseeded(model.config.guide(), seed));
        if let Some(place) = right_position(variant.route, gap) {
            ranking_without_variation_ignores_the_seed(
                model.bridge,
                variant.route,
                place as usize,
                gap.semantics.candidates,
                matrix,
                model.config.guide(),
                EvolvingAcceptance::ReachableFromLeft,
                seed,
            );
            if let Ok(ranked) = evolving_ranked(
                model.bridge,
                variant.route,
                place as usize,
                gap.semantics.candidates,
                matrix,
                model.config.guide(),
                EvolvingAcceptance::ReachableFromLeft,
            ) {
                lemma_branches_seed(
                    model,
                    variant,
                    place,
                    model.followed(ranked, EvolvingAcceptance::ReachableFromLeft),
                    0,
                    done,
                    seed,
                );
            }
        }
        assert(other.variant_steps(variant, gap, matrix, done) == model.variant_steps(
            variant,
            gap,
            matrix,
            done,
        ));
        if let Ok(steps) = model.variant_steps(variant, gap, matrix, done) {
            lemma_frontier_seed(model, frontier, gap, matrix, at + 1, steps, seed);
        }
    }
}

proof fn lemma_finished_seed(
    model: ExactModel,
    base: Seq<Seq<usize>>,
    frontier: Seq<PathState>,
    done: Seq<FilledState>,
    count: int,
    seed: u64,
)
    ensures
        with_seed(model, seed).finished_upto(base, frontier, done, count) == model.finished_upto(
            base,
            frontier,
            done,
            count,
        ),
    decreases count,
{
    if count > 0 {
        lemma_finished_seed(model, base, frontier, done, count - 1, seed);
    }
}

proof fn lemma_filled_seed(
    model: ExactModel,
    base: Seq<Seq<usize>>,
    gap: AutomaticGapView,
    matrix: Option<ContextMatrixView>,
    limit: int,
    depth: int,
    frontier: Seq<PathState>,
    done: Seq<FilledState>,
    seed: u64,
)
    requires
        model.config.variation_percent == 0,
    ensures
        with_seed(model, seed).filled_from(base, gap, matrix, limit, depth, frontier, done)
            == model.filled_from(base, gap, matrix, limit, depth, frontier, done),
    decreases limit - depth,
{
    lemma_finished_seed(model, base, frontier, done, frontier.len() as int, seed);
    if depth < limit && frontier.len() > 0 {
        lemma_frontier_seed(model, frontier, gap, matrix, 0, seq![], seed);
        if let Ok(next) = model.frontier_from(frontier, gap, matrix, 0, seq![]) {
            lemma_filled_seed(
                model,
                base,
                gap,
                matrix,
                limit,
                depth + 1,
                model.narrowed(next),
                model.finished_upto(base, frontier, done, frontier.len() as int),
                seed,
            );
        }
    }
}

proof fn lemma_multi_layer_seed(
    model: ExactModel,
    states: Seq<FilledState>,
    gap: AutomaticGapView,
    at: int,
    done: Seq<FilledState>,
    seed: u64,
)
    requires
        model.config.variation_percent == 0,
    ensures
        with_seed(model, seed).multi_layer_from(states, gap, at, done) == model.multi_layer_from(
            states,
            gap,
            at,
            done,
        ),
    decreases states.len() - at,
{
    if at < states.len() {
        let state = states[at];
        let left = position(state.route, gap.left);
        if let Ok(matrix) = model.bridge.gap_matrix(state.route, left + 1) {
            lemma_filled_seed(
                model,
                state.record,
                gap,
                matrix,
                model.depth_limit(state.route),
                0,
                seq![model.entering(state)],
                done,
                seed,
            );
        }
        if let Ok(steps) = model.multi_steps(state, gap, done) {
            lemma_multi_layer_seed(model, states, gap, at + 1, steps, seed);
        }
    }
}

proof fn lemma_multi_seed(
    model: ExactModel,
    gaps: Seq<AutomaticGapView>,
    at: int,
    progress: Progress<Seq<Seq<usize>>>,
    seed: u64,
)
    requires
        model.config.variation_percent == 0,
    ensures
        with_seed(model, seed).multi_from(gaps, at, progress) == model.multi_from(
            gaps,
            at,
            progress,
        ),
    decreases gaps.len() - at,
{
    if at < gaps.len() {
        lemma_multi_layer_seed(model, progress.states, gaps[at], 0, seq![], seed);
        if let Ok(expanded) = model.multi_layer_from(progress.states, gaps[at], 0, seq![]) {
            lemma_multi_seed(
                model,
                gaps,
                at + 1,
                advanced(
                    progress,
                    expanded,
                    model.original.len() as int,
                    model.config.beam_width as int,
                ),
                seed,
            );
        }
    }
}

proof fn lemma_candidate_decisions_seed(
    model: BridgeModel,
    guidance: Guidance,
    route: Seq<usize>,
    gap: AutomaticGapView,
    chosen: Seq<usize>,
    at: int,
    done: Seq<GapDecisionView>,
    seed: u64,
)
    requires
        guidance.variation_percent == 0,
    ensures
        candidate_decisions_from(model, reseeded(guidance, seed), route, gap, chosen, at, done)
            == candidate_decisions_from(model, guidance, route, gap, chosen, at, done),
    decreases chosen.len() - at,
{
    if at < chosen.len() {
        let candidate = chosen[at];
        assert(candidate_decision(model, reseeded(guidance, seed), route, gap, candidate)
            == candidate_decision(model, guidance, route, gap, candidate)) by {
            reveal(candidate_decision);
            let candidates = gap.semantics.candidates;
            let place = position(route, candidate);
            let entry = first_entry(candidates, candidate, 0);
            let without = route.remove(place);
            let left = position(without, gap.left);
            if let Ok(matrix) = model.gap_matrix(without, left + 1) {
                ranking_without_variation_ignores_the_seed(
                    model,
                    without,
                    place as usize,
                    seq![candidates[entry]],
                    matrix,
                    guidance,
                    EvolvingAcceptance::FullBridge,
                    seed,
                );
            }
        }
        if let Ok(decision) = candidate_decision(model, guidance, route, gap, candidate) {
            lemma_candidate_decisions_seed(
                model,
                guidance,
                route,
                gap,
                chosen,
                at + 1,
                done.push(decision),
                seed,
            );
        }
    }
}

proof fn lemma_final_decisions_seed(
    model: BridgeModel,
    guidance: Guidance,
    route: Seq<usize>,
    gaps: Seq<AutomaticGapView>,
    chosen: Seq<Seq<usize>>,
    at: int,
    done: Seq<GapDecisionView>,
    seed: u64,
)
    requires
        guidance.variation_percent == 0,
    ensures
        final_decisions_from(model, reseeded(guidance, seed), route, gaps, chosen, at, done)
            == final_decisions_from(model, guidance, route, gaps, chosen, at, done),
    decreases gaps.len() - at,
{
    if at < gaps.len() {
        assert(gap_decisions(model, reseeded(guidance, seed), route, gaps[at], chosen[at], done)
            == gap_decisions(model, guidance, route, gaps[at], chosen[at], done)) by {
            reveal(gap_decisions);
            lemma_candidate_decisions_seed(
                model,
                guidance,
                route,
                gaps[at],
                chosen[at],
                0,
                done,
                seed,
            );
        }
        if let Ok(decisions) = gap_decisions(model, guidance, route, gaps[at], chosen[at], done) {
            lemma_final_decisions_seed(
                model,
                guidance,
                route,
                gaps,
                chosen,
                at + 1,
                decisions,
                seed,
            );
        }
    }
}

/// Without variation an exact selection does not depend on the seed.
pub proof fn exact_selection_without_variation_ignores_the_seed(
    model: ExactModel,
    gaps: Seq<AutomaticGapView>,
    seed: u64,
)
    requires
        model.config.variation_percent == 0,
    ensures
        with_seed(model, seed).selection(gaps) == model.selection(gaps),
{
    let other = with_seed(model, seed);
    let ordered = stable_sort(gaps, original_order());
    assert(other.config.guide() == reseeded(model.config.guide(), seed));
    if let Ok(objective) = search_objective(
        model.bridge,
        model.original,
        model.original,
    ) {
        if model.config.max_tracks_per_gap == 1 {
            let prune = model.config.requested_added_tracks <= gap_bound(ordered, 1);
            let start = model.beginning(objective, Seq::<GapDecisionView>::empty());
            lemma_single_seed(model, ordered, prune, 0, start, 0, seed);
        } else {
            let start = model.beginning(objective, Seq::<Seq<usize>>::empty());
            lemma_multi_seed(model, ordered, 0, start, seed);
            if let Ok(progress) = model.multi_from(ordered, 0, start) {
                if let Some(state) = model.winner(progress.states) {
                    lemma_final_decisions_seed(
                        model.bridge,
                        model.config.guide(),
                        state.route,
                        ordered,
                        state.record,
                        0,
                        seq![],
                        seed,
                    );
                }
            }
        }
    }
}

// With the ends.

proof fn lemma_with_closing_seed(
    model: ExactModel,
    inner: Inner,
    route: Seq<usize>,
    noted: Seq<EndpointDecisionView>,
    closing: Option<SelectedEndpointView>,
    run: EndpointRunView,
    seed: u64,
)
    requires
        model.config.variation_percent == 0,
    ensures
        with_seed(model, seed).with_closing(inner, route, noted, closing, run)
            == model.with_closing(inner, route, noted, closing, run),
{
    let whole = closed_with(route, closing);
    assert(with_seed(model, seed).config.guide() == reseeded(model.config.guide(), seed));
    lemma_final_decisions_seed(
        model.bridge,
        model.config.guide(),
        whole,
        inner.gaps,
        inner.chosen,
        0,
        seq![],
        seed,
    );
}

proof fn lemma_closings_seed(
    model: ExactModel,
    inner: Inner,
    route: Seq<usize>,
    noted: Seq<EndpointDecisionView>,
    choices: Seq<SelectedEndpointView>,
    at: int,
    run: EndpointRunView,
    seed: u64,
)
    requires
        model.config.variation_percent == 0,
    ensures
        with_seed(model, seed).closings_from(inner, route, noted, choices, at, run)
            == model.closings_from(inner, route, noted, choices, at, run),
    decreases choices.len() - at,
{
    if at < choices.len() {
        lemma_with_closing_seed(model, inner, route, noted, Some(choices[at]), run, seed);
        if let Ok(next) = model.with_closing(inner, route, noted, Some(choices[at]), run) {
            lemma_closings_seed(model, inner, route, noted, choices, at + 1, next, seed);
        }
    }
}

proof fn lemma_with_opening_seed(
    model: ExactModel,
    inner: Inner,
    route: Seq<usize>,
    opening: Option<SelectedEndpointView>,
    use_closing: bool,
    run: EndpointRunView,
    seed: u64,
)
    requires
        model.config.variation_percent == 0,
    ensures
        with_seed(model, seed).with_opening(inner, route, opening, use_closing, run)
            == model.with_opening(inner, route, opening, use_closing, run),
{
    let begun = opened(route, opening);
    let noted = noted_end(seq![], EndpointSlot::Opening, inner.ends.opening, opening);
    assert(with_seed(model, seed).config.guide() == reseeded(model.config.guide(), seed));
    if use_closing && inner.ends.closing is Some {
        let end = inner.ends.closing->Some_0;
        endpoint_ranking_without_variation_ignores_the_seed(
            model.bridge,
            begun,
            EndpointSlot::Closing,
            end.semantics.candidates,
            model.config.guide(),
            seed,
        );
        if let Ok(choices) = model.tried(begun, EndpointSlot::Closing, end) {
            lemma_closings_seed(model, inner, begun, noted, choices, 0, run, seed);
        }
    } else {
        lemma_with_closing_seed(model, inner, begun, noted, None, run, seed);
    }
}

proof fn lemma_openings_seed(
    model: ExactModel,
    inner: Inner,
    route: Seq<usize>,
    use_closing: bool,
    choices: Seq<SelectedEndpointView>,
    at: int,
    run: EndpointRunView,
    seed: u64,
)
    requires
        model.config.variation_percent == 0,
    ensures
        with_seed(model, seed).openings_from(inner, route, use_closing, choices, at, run)
            == model.openings_from(inner, route, use_closing, choices, at, run),
    decreases choices.len() - at,
{
    if at < choices.len() {
        lemma_with_opening_seed(model, inner, route, Some(choices[at]), use_closing, run, seed);
        if let Ok(next) = model.with_opening(inner, route, Some(choices[at]), use_closing, run) {
            lemma_openings_seed(model, inner, route, use_closing, choices, at + 1, next, seed);
        }
    }
}

proof fn lemma_combined_seed(
    model: ExactModel,
    gaps: Seq<AutomaticGapView>,
    ends: ExactEndpointSlotsView,
    use_opening: bool,
    use_closing: bool,
    run: EndpointRunView,
    seed: u64,
)
    requires
        model.config.variation_percent == 0,
    ensures
        with_seed(model, seed).combined(gaps, ends, use_opening, use_closing, run)
            == model.combined(gaps, ends, use_opening, use_closing, run),
{
    let other = with_seed(model, seed);
    let end_count = (if use_opening {
        1int
    } else {
        0
    }) + (if use_closing {
        1int
    } else {
        0
    });
    let inside = model.inside(end_count);
    assert(other.inside(end_count) == with_seed(inside, seed));
    exact_selection_without_variation_ignores_the_seed(inside, gaps, seed);
    assert(other.config.guide() == reseeded(model.config.guide(), seed));
    if let Ok(found) = inside.selection(gaps) {
        let ordered = stable_sort(gaps, original_order());
        let inner = Inner {
            gaps: ordered,
            chosen: chosen_for_gaps(found.decisions, ordered),
            ends,
        };
        let counted = EndpointRunView {
            variants: run.variants,
            evaluated: capped_sum(
                run.evaluated,
                found.stats.evaluated_states as int,
            ),
            retained: capped_sum(
                run.retained,
                found.stats.retained_states as int,
            ),
            most: larger(
                run.most,
                found.stats.maximum_additions_found as nat,
            ),
        };
        if let Some(route) = found.final_route {
            if use_opening {
                let end = ends.opening->Some_0;
                endpoint_ranking_without_variation_ignores_the_seed(
                    model.bridge,
                    route,
                    EndpointSlot::Opening,
                    end.semantics.candidates,
                    model.config.guide(),
                    seed,
                );
                if let Ok(choices) = model.tried(route, EndpointSlot::Opening, end) {
                    lemma_openings_seed(
                        model,
                        inner,
                        route,
                        use_closing,
                        choices,
                        0,
                        counted,
                        seed,
                    );
                }
            } else {
                lemma_with_opening_seed(model, inner, route, None, use_closing, counted, seed);
            }
        }
    }
}

/// Without variation the seed has no say in an exact selection with the ends
/// either.
pub proof fn endpoint_selection_without_variation_ignores_the_seed(
    model: ExactModel,
    gaps: Seq<AutomaticGapView>,
    ends: ExactEndpointSlotsView,
    seed: u64,
)
    requires
        model.config.variation_percent == 0,
    ensures
        with_seed(model, seed).endpoint_selection(gaps, ends) == model.endpoint_selection(
            gaps,
            ends,
        ),
{
    exact_selection_without_variation_ignores_the_seed(model, gaps, seed);
    let none = EndpointRunView { variants: seq![], evaluated: 0, retained: 0, most: 0 };
    lemma_combined_seed(model, gaps, ends, false, false, none, seed);
    if let Ok(plain) = model.combined(gaps, ends, false, false, none) {
        lemma_combined_seed(model, gaps, ends, false, true, plain, seed);
        if let Ok(closing) = model.combined(gaps, ends, false, true, plain) {
            lemma_combined_seed(model, gaps, ends, true, false, closing, seed);
            if let Ok(opening) = model.combined(gaps, ends, true, false, closing) {
                lemma_combined_seed(model, gaps, ends, true, true, opening, seed);
            }
        }
    }
}

// Routes and additions.

/// Without variation a route is searched with the seed of the search alone.
pub proof fn route_search_without_variation_ignores_the_seed(
    adaptive: AdaptiveSettings,
    search: SearchSettings,
    windows: RepeatWindows,
    selection: SelectionSettings,
    other: SelectionSettings,
)
    requires
        selection.variation_percent == 0,
        other.variation_percent == 0,
    ensures
        search_config(adaptive, search, windows, selection) == search_config(
            adaptive,
            search,
            windows,
            other,
        ),
        search_config(adaptive, search, windows, selection).deterministic_seed
            == search.deterministic_seed,
{
}

/// Without variation the seed has no say in the tracks that are added to the
/// sources, and without evidence they are the nearest that fit.
pub proof fn additions_without_variation_ignore_the_seed(model: GrowthModel, seed: u64)
    requires
        model.preference.variation_percent == 0,
        model.eligible.len() <= usize::MAX,
    ensures
        ({
            let preference = PreferenceView { generation_seed: seed, ..model.preference };
            model.additions() == (GrowthModel { preference, ..model }).additions()
        }),
        nothing_supported(model.preference.supports) ==> model.additions() == picked_from(
            model.tracks,
            model.sources,
            model.ranked(),
            model.capacities(),
            model.requested(),
            0,
            seq![],
        ),
{
    let preference = PreferenceView { generation_seed: seed, ..model.preference };
    let other = GrowthModel { preference, ..model };
    let ranked = model.ranked();
    let size = model.pool_size();
    assert(other.ranked() == ranked);
    assert(other.pool_size() == size);
    assert(keyed(ranked, model.sources, model.preference, size) =~= keyed(
        ranked,
        model.sources,
        preference,
        size,
    ));
    lemma_pool_fits(model);
    if nothing_supported(model.preference.supports) {
        unguided_rankings_stay(ranked, model.sources, model.preference, size);
    }
}

} // verus!
