//! Choosing an exact number of bridges where a gap may take several.

use crate::bridge::{
    gap_context_matrix, matrix_of, matrix_view, BridgeCandidateEvaluation, BridgeModel,
};
use crate::contextual::{ContextMatrix, ContextMatrixView, ContextualError};
use crate::exact::{
    bound_of_gaps, follow_up, gap_bound, lemma_all_hold_push, lemma_followed, lemma_within,
    select_exact_count_single_gap_bridges, weighed, within, EndpointDecision, ExactModel,
    ExactSearch, ExactSearchStats, ExactSelection, ExactSelectionView, FilledState,
};
use crate::preview::{
    accepts, decided, evolving_ranked, exact_decision, find_entry, first_entry, gap_right_position,
    gap_search_objective, numbers_of, ordered_gaps, original_order, rank_for_evolving_route,
    right_position, search_objective, AutomaticGap, AutomaticGapView, DecisionReason,
    EvolvingAcceptance, ExactScoringContext, ExactSelectionConfig, GapDecision, GapDecisionView,
    Guidance, PreviewError, PreviewErrorView, SelectedBridge, SelectedBridgeView,
    MAX_EXACT_TRACKS_PER_GAP,
};
use crate::semantic::CandidateSemantics;
use crate::sequences::{
    copied, find_position, lemma_lex_less_strict, lemma_lex_less_transitive, lemma_views_push,
    lex_less, position, precedes_lexically, same_route, views,
};
use crate::sorting::{
    all_hold, dedup, dedup_views, first_few, is_ranking, lemma_all_hold, sort_views, stable_sort,
    truncate_views,
};
use crate::states::{
    advanced, best_from, best_state_first, comes_before, find_best, find_most_added, keep_states,
    lemma_best, lemma_kept_hold, lemma_state_ranking, most_added, same_state_route, state_precedes,
    Progress, SearchState, SearchStateView,
};
use vstd::prelude::*;

verus! {

// The final decisions.

/// The decision on a gap that a candidate was put into, from the final route.
#[verifier::opaque]
pub open spec fn candidate_decision(
    bridge: BridgeModel,
    guidance: Guidance,
    route: Seq<usize>,
    gap: AutomaticGapView,
    candidate: usize,
) -> Result<GapDecisionView, PreviewErrorView> {
    let candidates = gap.semantics.candidates;
    let at = position(route, candidate);
    let entry = first_entry(candidates, candidate, 0);
    if at >= route.len() {
        Err(
            PreviewErrorView::FinalRouteInvalid("selected bridge is absent from the final route"@),
        )
    } else if entry >= candidates.len() {
        Err(
            PreviewErrorView::FinalRouteInvalid("selected bridge has no frozen semantic evidence"@),
        )
    } else {
        let without = route.remove(at);
        let left = position(without, gap.left);
        if left >= without.len() {
            Err(PreviewErrorView::InvalidOriginalGap(gap.original_position))
        } else {
            match bridge.gap_matrix(without, left + 1) {
                Err(error) => Err(PreviewErrorView::Scoring(error)),
                Ok(matrix) => match evolving_ranked(
                    bridge,
                    without,
                    at as usize,
                    seq![candidates[entry]],
                    matrix,
                    guidance,
                    EvolvingAcceptance::FullBridge,
                ) {
                    Err(error) => Err(error),
                    Ok(ranked) => if ranked.len() == 0 {
                        Err(
                            PreviewErrorView::FinalRouteInvalid(
                                "selected bridge has no final contextual evaluation"@,
                            ),
                        )
                    } else if !ranked[0].accepted {
                        Err(
                            PreviewErrorView::FinalRouteInvalid(
                                "selected bridge fails final contextual validation"@,
                            ),
                        )
                    } else {
                        Ok(
                            decided(
                                gap,
                                at,
                                DecisionReason::Selected,
                                Some(
                                    SelectedBridgeView {
                                        semantics: candidates[entry],
                                        evaluation: ranked[0],
                                    },
                                ),
                            ),
                        )
                    },
                },
            }
        }
    }
}

/// The decisions for the candidates of a gap from `at` on, behind those in
/// `done`.
pub open spec fn candidate_decisions_from(
    bridge: BridgeModel,
    guidance: Guidance,
    route: Seq<usize>,
    gap: AutomaticGapView,
    chosen: Seq<usize>,
    at: int,
    done: Seq<GapDecisionView>,
) -> Result<Seq<GapDecisionView>, PreviewErrorView>
    decreases chosen.len() - at,
{
    if at >= chosen.len() {
        Ok(done)
    } else {
        match candidate_decision(bridge, guidance, route, gap, chosen[at]) {
            Err(error) => Err(error),
            Ok(decision) => candidate_decisions_from(
                bridge,
                guidance,
                route,
                gap,
                chosen,
                at + 1,
                done.push(decision),
            ),
        }
    }
}

/// The decisions on one gap, behind those in `done`.
#[verifier::opaque]
pub open spec fn gap_decisions(
    bridge: BridgeModel,
    guidance: Guidance,
    route: Seq<usize>,
    gap: AutomaticGapView,
    chosen: Seq<usize>,
    done: Seq<GapDecisionView>,
) -> Result<Seq<GapDecisionView>, PreviewErrorView> {
    if chosen.len() == 0 {
        match right_position(route, gap) {
            None => Err(PreviewErrorView::InvalidOriginalGap(gap.original_position)),
            Some(at) => Ok(done.push(decided(gap, at, DecisionReason::NotSelected, None))),
        }
    } else {
        candidate_decisions_from(bridge, guidance, route, gap, chosen, 0, done)
    }
}

/// The decisions on the gaps from `at` on, behind those in `done`.
pub open spec fn final_decisions_from(
    bridge: BridgeModel,
    guidance: Guidance,
    route: Seq<usize>,
    gaps: Seq<AutomaticGapView>,
    chosen: Seq<Seq<usize>>,
    at: int,
    done: Seq<GapDecisionView>,
) -> Result<Seq<GapDecisionView>, PreviewErrorView>
    decreases gaps.len() - at,
{
    if at >= gaps.len() {
        Ok(done)
    } else {
        match gap_decisions(bridge, guidance, route, gaps[at], chosen[at], done) {
            Err(error) => Err(error),
            Ok(decisions) => final_decisions_from(
                bridge,
                guidance,
                route,
                gaps,
                chosen,
                at + 1,
                decisions,
            ),
        }
    }
}

/// The decisions on all gaps of a final route, every chosen track judged again
/// where it now stands.
pub open spec fn final_decisions(
    bridge: BridgeModel,
    guidance: Guidance,
    route: Seq<usize>,
    gaps: Seq<AutomaticGapView>,
    chosen: Seq<Seq<usize>>,
) -> Result<Seq<GapDecisionView>, PreviewErrorView> {
    if gaps.len() != chosen.len() {
        Err(
            PreviewErrorView::FinalRouteInvalid(
                "gap selection count does not match the original gap count"@,
            ),
        )
    } else {
        final_decisions_from(bridge, guidance, route, gaps, chosen, 0, seq![])
    }
}

fn decide_candidate<
    P: Fn(&[usize], u16) -> Result<(), ContextualError>,
    D: Fn(&[usize], u16, &[usize], usize) -> u64,
>(
    final_route: &[usize],
    gap: &AutomaticGap,
    candidate: usize,
    scoring: &ExactScoringContext<'_, P, D>,
    guidance: &Guidance,
) -> (decision: Result<GapDecision, PreviewError>)
    requires
        scoring.scorer.valid(),
        guidance.variation_percent <= 100,
        final_route@.len() < usize::MAX,
    ensures
        match candidate_decision(scoring.model(), *guidance, final_route@, gap@, candidate) {
            Ok(found) => decision is Ok && decision->Ok_0@ == found,
            Err(error) => decision is Err && decision->Err_0@ == error,
        },
{
    reveal(candidate_decision);
    let at: usize = match find_position(final_route, candidate) {
        None => {
            return Err(
                PreviewError::FinalRouteInvalid("selected bridge is absent from the final route"),
            );
        },
        Some(at) => at,
    };
    let entry: usize = match find_entry(gap.semantics.candidates.as_slice(), candidate) {
        None => {
            return Err(
                PreviewError::FinalRouteInvalid("selected bridge has no frozen semantic evidence"),
            );
        },
        Some(entry) => entry,
    };
    assert(gap@.semantics.candidates[entry as int] == gap.semantics.candidates@[entry as int]@);
    let semantics = gap.semantics.candidates[entry].clone();
    let mut without = copied(final_route);
    without.remove(at);
    let left: usize = match find_position(without.as_slice(), gap.left) {
        None => {
            return Err(PreviewError::InvalidOriginalGap(gap.original_position));
        },
        Some(left) => left,
    };
    let matrix = match gap_context_matrix(
        without.as_slice(),
        left + 1,
        scoring.tracks,
        scoring.scorer,
        scoring.config,
    ) {
        Err(error) => {
            return Err(PreviewError::Scoring(error));
        },
        Ok(matrix) => matrix,
    };
    let mut alone: Vec<CandidateSemantics> = Vec::new();
    alone.push(gap.semantics.candidates[entry].clone());
    assert(views(alone@) =~= seq![gap@.semantics.candidates[entry as int]]);
    let ranked = match rank_for_evolving_route(
        without.as_slice(),
        at,
        alone.as_slice(),
        scoring,
        matrix.as_ref(),
        guidance,
        EvolvingAcceptance::FullBridge,
    ) {
        Err(error) => {
            return Err(error);
        },
        Ok(ranked) => ranked,
    };
    if ranked.len() == 0 {
        return Err(
            PreviewError::FinalRouteInvalid("selected bridge has no final contextual evaluation"),
        );
    }
    let evaluation = ranked[0];
    if !evaluation.accepted {
        return Err(
            PreviewError::FinalRouteInvalid("selected bridge fails final contextual validation"),
        );
    }
    Ok(
        exact_decision(
            gap,
            at,
            DecisionReason::Selected,
            Some(SelectedBridge { semantics, evaluation }),
        ),
    )
}

fn decide_gap<
    P: Fn(&[usize], u16) -> Result<(), ContextualError>,
    D: Fn(&[usize], u16, &[usize], usize) -> u64,
>(
    final_route: &[usize],
    gap: &AutomaticGap,
    chosen: &Vec<usize>,
    scoring: &ExactScoringContext<'_, P, D>,
    guidance: &Guidance,
    decisions: &mut Vec<GapDecision>,
) -> (outcome: Result<(), PreviewError>)
    requires
        scoring.scorer.valid(),
        guidance.variation_percent <= 100,
        final_route@.len() < usize::MAX,
    ensures
        match gap_decisions(
            scoring.model(),
            *guidance,
            final_route@,
            gap@,
            chosen@,
            views(old(decisions)@),
        ) {
            Ok(all) => outcome is Ok && views(final(decisions)@) == all,
            Err(error) => outcome is Err && outcome->Err_0@ == error,
        },
{
    reveal(gap_decisions);
    let ghost model = scoring.model();
    let ghost before = views(decisions@);
    if chosen.len() == 0 {
        let at: usize = match gap_right_position(final_route, gap) {
            None => {
                return Err(PreviewError::InvalidOriginalGap(gap.original_position));
            },
            Some(at) => at,
        };
        let decision = exact_decision(gap, at, DecisionReason::NotSelected, None);
        proof {
            lemma_views_push(decisions@, decision);
        }
        decisions.push(decision);
        return Ok(());
    }
    let mut at: usize = 0;
    while at < chosen.len()
        invariant
            at <= chosen@.len(),
            scoring.scorer.valid(),
            guidance.variation_percent <= 100,
            final_route@.len() < usize::MAX,
            model == scoring.model(),
            chosen@.len() > 0,
            before == views(old(decisions)@),
            candidate_decisions_from(model, *guidance, final_route@, gap@, chosen@, 0, before)
                == candidate_decisions_from(
                model,
                *guidance,
                final_route@,
                gap@,
                chosen@,
                at as int,
                views(decisions@),
            ),
        decreases chosen@.len() - at,
    {
        match decide_candidate(final_route, gap, chosen[at], scoring, guidance) {
            Err(error) => {
                reveal(gap_decisions);
                return Err(error);
            },
            Ok(decision) => {
                proof {
                    lemma_views_push(decisions@, decision);
                }
                decisions.push(decision);
            },
        }
        at += 1;
    }
    Ok(())
}

/// Judges every chosen track again on the final route.
pub fn final_exact_decisions<
    P: Fn(&[usize], u16) -> Result<(), ContextualError>,
    D: Fn(&[usize], u16, &[usize], usize) -> u64,
>(
    final_route: &[usize],
    gaps: &[AutomaticGap],
    gap_selections: &[Vec<usize>],
    scoring: &ExactScoringContext<'_, P, D>,
    selection_config: &ExactSelectionConfig,
) -> (decisions: Result<Vec<GapDecision>, PreviewError>)
    requires
        scoring.scorer.valid(),
        selection_config.variation_percent <= 100,
        final_route@.len() < usize::MAX,
    ensures
        match final_decisions(
            scoring.model(),
            selection_config.guide(),
            final_route@,
            views(gaps@),
            views(gap_selections@),
        ) {
            Ok(found) => decisions is Ok && views(decisions->Ok_0@) == found,
            Err(error) => decisions is Err && decisions->Err_0@ == error,
        },
{
    if gaps.len() != gap_selections.len() {
        return Err(
            PreviewError::FinalRouteInvalid(
                "gap selection count does not match the original gap count",
            ),
        );
    }
    let ghost model = scoring.model();
    let ghost all = views(gaps@);
    let ghost chosen = views(gap_selections@);
    let guidance = selection_config.guidance();
    let mut decisions: Vec<GapDecision> = Vec::new();
    let mut at: usize = 0;
    assert(views(decisions@) =~= seq![]);
    while at < gaps.len()
        invariant
            at <= gaps@.len(),
            gaps@.len() == gap_selections@.len(),
            scoring.scorer.valid(),
            guidance == selection_config.guide(),
            guidance.variation_percent <= 100,
            final_route@.len() < usize::MAX,
            model == scoring.model(),
            all == views(gaps@),
            chosen == views(gap_selections@),
            final_decisions_from(model, guidance, final_route@, all, chosen, 0, seq![])
                == final_decisions_from(
                model,
                guidance,
                final_route@,
                all,
                chosen,
                at as int,
                views(decisions@),
            ),
        decreases gaps@.len() - at,
    {
        assert(all[at as int] == gaps@[at as int]@);
        assert(chosen[at as int] == gap_selections@[at as int]@);
        match decide_gap(
            final_route,
            &gaps[at],
            &gap_selections[at],
            scoring,
            &guidance,
            &mut decisions,
        ) {
            Err(error) => {
                return Err(error);
            },
            Ok(_) => {},
        }
        at += 1;
    }
    Ok(decisions)
}

// Filling a gap.

/// The tracks put into the gap that is being filled, and whether the last of
/// them reaches the right anchor.
#[verifier::ext_equal]
pub struct GapPathView {
    pub selected: Seq<usize>,
    pub connected: bool,
}

/// The tracks put into the gap that is being filled, and whether the last of
/// them reaches the right anchor.
pub struct GapPath {
    pub selected: Vec<usize>,
    pub connected: bool,
}

impl View for GapPath {
    type V = GapPathView;

    open spec fn view(&self) -> GapPathView {
        GapPathView { selected: self.selected@, connected: self.connected }
    }
}

/// A state in the middle of a gap.
pub type PathState = SearchStateView<GapPathView>;

/// Whether a state in the middle of a gap ranks no later than another.
pub open spec fn path_at_least(a: PathState, b: PathState) -> bool {
    if state_precedes(a, b) {
        true
    } else if state_precedes(b, a) {
        false
    } else {
        !lex_less(b.record.selected, a.record.selected)
    }
}

/// The ranking of states in the middle of a gap.
pub open spec fn best_path_first() -> spec_fn(PathState, PathState) -> bool {
    |a: PathState, b: PathState| path_at_least(a, b)
}

/// States in the middle of a gap can be ranked.
pub proof fn lemma_path_ranking()
    ensures
        is_ranking(best_path_first()),
{
    let leq = best_path_first();
    let states = best_state_first::<GapPathView>();
    lemma_state_ranking::<GapPathView>();
    assert forall|a: PathState, b: PathState| #[trigger] leq(a, b) || leq(b, a) by {
        lemma_lex_less_strict(a.record.selected, b.record.selected, 0);
        lemma_lex_less_strict(a.route, b.route, 0);
    }
    assert forall|a: PathState, b: PathState, c: PathState| #[trigger] leq(a, b) && #[trigger] leq(
        b,
        c,
    ) implies leq(a, c) by {
        lemma_lex_less_strict(a.route, b.route, 0);
        lemma_lex_less_strict(b.route, c.route, 0);
        lemma_lex_less_strict(a.route, c.route, 0);
        assert(states(a, b) && states(b, c));
        assert(states(a, c));
        if !state_precedes(a, c) {
            assert(states(c, a));
            assert(states(b, a)) by {
                assert(states(b, c) && states(c, a));
            }
            assert(states(c, b)) by {
                assert(states(c, a) && states(a, b));
            }
            let x = a.record.selected;
            let y = b.record.selected;
            let z = c.record.selected;
            lemma_lex_less_strict(x, y, 0);
            lemma_lex_less_strict(y, z, 0);
            if lex_less(z, x) {
                if lex_less(x, y) {
                    lemma_lex_less_transitive(z, x, y, 0);
                }
            }
        }
    }
}

impl ExactModel {
    /// A state in the middle of a gap with one more track in front of the right
    /// anchor.
    pub open spec fn branch(
        self,
        variant: PathState,
        at: int,
        evaluation: BridgeCandidateEvaluation,
    ) -> Result<PathState, PreviewErrorView> {
        let route = variant.route.insert(at, evaluation.candidate);
        match search_objective(self.bridge, route, self.original) {
            Err(error) => Err(error),
            Ok(objective) => Ok(
                SearchStateView {
                    route,
                    objective,
                    record: GapPathView {
                        selected: variant.record.selected.push(evaluation.candidate),
                        connected: evaluation.accepted,
                    },
                },
            ),
        }
    }

    /// The states with one of the followed candidates from `next` on, behind
    /// those in `done`.
    pub open spec fn branches_from(
        self,
        variant: PathState,
        at: int,
        followed: Seq<BridgeCandidateEvaluation>,
        next: int,
        done: Seq<PathState>,
    ) -> Result<Seq<PathState>, PreviewErrorView>
        decreases followed.len() - next,
    {
        if next >= followed.len() {
            Ok(done)
        } else {
            match self.branch(variant, at, followed[next]) {
                Err(error) => Err(error),
                Ok(state) => self.branches_from(
                    variant,
                    at,
                    followed,
                    next + 1,
                    done.push(state),
                ),
            }
        }
    }

    /// The states that one state in the middle of a gap leads to, behind those
    /// in `done`.
    pub open spec fn variant_steps(
        self,
        variant: PathState,
        gap: AutomaticGapView,
        matrix: Option<ContextMatrixView>,
        done: Seq<PathState>,
    ) -> Result<Seq<PathState>, PreviewErrorView> {
        match right_position(variant.route, gap) {
            None => Err(PreviewErrorView::InvalidOriginalGap(gap.original_position)),
            Some(at) => match evolving_ranked(
                self.bridge,
                variant.route,
                at as usize,
                gap.semantics.candidates,
                matrix,
                self.config.guide(),
                EvolvingAcceptance::ReachableFromLeft,
            ) {
                Err(error) => Err(error),
                Ok(ranked) => self.branches_from(
                    variant,
                    at,
                    self.followed(ranked, EvolvingAcceptance::ReachableFromLeft),
                    0,
                    done,
                ),
            },
        }
    }

    /// The states that those from `at` on lead to, behind those in `done`.
    pub open spec fn frontier_from(
        self,
        frontier: Seq<PathState>,
        gap: AutomaticGapView,
        matrix: Option<ContextMatrixView>,
        at: int,
        done: Seq<PathState>,
    ) -> Result<Seq<PathState>, PreviewErrorView>
        decreases frontier.len() - at,
    {
        if at >= frontier.len() {
            Ok(done)
        } else {
            match self.variant_steps(frontier[at], gap, matrix, done) {
                Err(error) => Err(error),
                Ok(steps) => self.frontier_from(frontier, gap, matrix, at + 1, steps),
            }
        }
    }

    /// What is kept of the states in the middle of a gap.
    pub open spec fn narrowed(self, states: Seq<PathState>) -> Seq<PathState> {
        first_few(
            dedup(stable_sort(states, best_path_first()), same_state_route()),
            self.config.beam_width as int,
        )
    }

    /// The state behind a gap that was filled with the tracks of a path.
    pub open spec fn finished(self, base: Seq<Seq<usize>>, variant: PathState) -> FilledState {
        SearchStateView {
            route: variant.route,
            objective: variant.objective,
            record: base.push(variant.record.selected),
        }
    }

    /// The states behind a gap for the first `count` paths that reach its right
    /// anchor, behind those in `done`.
    pub open spec fn finished_upto(
        self,
        base: Seq<Seq<usize>>,
        frontier: Seq<PathState>,
        done: Seq<FilledState>,
        count: int,
    ) -> Seq<FilledState>
        decreases count,
    {
        if count <= 0 {
            done
        } else if frontier[count - 1].record.connected {
            self.finished_upto(base, frontier, done, count - 1).push(
                self.finished(base, frontier[count - 1]),
            )
        } else {
            self.finished_upto(base, frontier, done, count - 1)
        }
    }

    /// The states behind a gap with up to `limit` tracks in it, once paths of
    /// `depth` tracks are reached and the shorter ones are in `done`.
    pub open spec fn filled_from(
        self,
        base: Seq<Seq<usize>>,
        gap: AutomaticGapView,
        matrix: Option<ContextMatrixView>,
        limit: int,
        depth: int,
        frontier: Seq<PathState>,
        done: Seq<FilledState>,
    ) -> Result<Seq<FilledState>, PreviewErrorView>
        decreases limit - depth,
    {
        let completed = self.finished_upto(base, frontier, done, frontier.len() as int);
        if depth >= limit || frontier.len() == 0 {
            Ok(completed)
        } else {
            match self.frontier_from(frontier, gap, matrix, 0, seq![]) {
                Err(error) => Err(error),
                Ok(next) => self.filled_from(
                    base,
                    gap,
                    matrix,
                    limit,
                    depth + 1,
                    self.narrowed(next),
                    completed,
                ),
            }
        }
    }

    /// The most tracks that a state may still put into one gap.
    pub open spec fn depth_limit(self, route: Seq<usize>) -> int {
        let left = self.config.requested_added_tracks - (route.len() - self.original.len());
        if left <= 0 {
            0
        } else if left < self.config.max_tracks_per_gap {
            left
        } else {
            self.config.max_tracks_per_gap as int
        }
    }

    /// A state at the left end of a gap.
    pub open spec fn entering(self, state: FilledState) -> PathState {
        SearchStateView {
            route: state.route,
            objective: state.objective,
            record: GapPathView { selected: seq![], connected: true },
        }
    }

    /// The states that one state leads to at a gap, behind those in `done`.
    pub open spec fn multi_steps(
        self,
        state: FilledState,
        gap: AutomaticGapView,
        done: Seq<FilledState>,
    ) -> Result<Seq<FilledState>, PreviewErrorView> {
        let left = position(state.route, gap.left);
        if left >= state.route.len() {
            Err(PreviewErrorView::InvalidOriginalGap(gap.original_position))
        } else {
            match self.bridge.gap_matrix(state.route, left + 1) {
                Err(error) => Err(PreviewErrorView::Scoring(error)),
                Ok(matrix) => self.filled_from(
                    state.record,
                    gap,
                    matrix,
                    self.depth_limit(state.route),
                    0,
                    seq![self.entering(state)],
                    done,
                ),
            }
        }
    }

    /// The states that the states from `at` on lead to, behind those in `done`.
    pub open spec fn multi_layer_from(
        self,
        states: Seq<FilledState>,
        gap: AutomaticGapView,
        at: int,
        done: Seq<FilledState>,
    ) -> Result<Seq<FilledState>, PreviewErrorView>
        decreases states.len() - at,
    {
        if at >= states.len() {
            Ok(done)
        } else {
            match self.multi_steps(states[at], gap, done) {
                Err(error) => Err(error),
                Ok(steps) => self.multi_layer_from(states, gap, at + 1, steps),
            }
        }
    }

    /// How far the search gets through the gaps from `at` on.
    pub open spec fn multi_from(
        self,
        gaps: Seq<AutomaticGapView>,
        at: int,
        progress: Progress<Seq<Seq<usize>>>,
    ) -> Result<Progress<Seq<Seq<usize>>>, PreviewErrorView>
        decreases gaps.len() - at,
    {
        if at >= gaps.len() {
            Ok(progress)
        } else {
            match self.multi_layer_from(progress.states, gaps[at], 0, seq![]) {
                Err(error) => Err(error),
                Ok(expanded) => self.multi_from(
                    gaps,
                    at + 1,
                    advanced(
                        progress,
                        expanded,
                        self.original.len() as int,
                        self.config.beam_width as int,
                    ),
                ),
            }
        }
    }

    /// The selection that a finished search stands for.
    pub open spec fn multi_outcome(
        self,
        outcome: Result<Progress<Seq<Seq<usize>>>, PreviewErrorView>,
        gaps: Seq<AutomaticGapView>,
        bound: int,
    ) -> Result<ExactSelectionView, PreviewErrorView> {
        match outcome {
            Err(error) => Err(error),
            Ok(progress) => {
                let winner = self.winner(progress.states);
                match (match winner {
                    Some(state) => final_decisions(
                        self.bridge,
                        self.config.guide(),
                        state.route,
                        gaps,
                        state.record,
                    ),
                    None => Ok(seq![]),
                }) {
                    Err(error) => Err(error),
                    Ok(decisions) => Ok(
                        ExactSelectionView {
                            requested_added_tracks: self.config.requested_added_tracks,
                            final_route: match winner {
                                Some(state) => Some(state.route),
                                None => None,
                            },
                            decisions,
                            endpoint_decisions: seq![],
                            stats: ExactSearchStats {
                                max_tracks_per_gap: self.config.max_tracks_per_gap,
                                evaluated_states: progress.evaluated as usize,
                                retained_states: progress.retained as usize,
                                maximum_additions_found: most_added(
                                    progress.states,
                                    self.original.len() as int,
                                    progress.states.len() as int,
                                ) as usize,
                                structural_upper_bound: bound as usize,
                            },
                        },
                    ),
                }
            },
        }
    }

    /// The selection with several tracks to a gap.
    pub open spec fn multi(self, gaps: Seq<AutomaticGapView>) -> Result<
        ExactSelectionView,
        PreviewErrorView,
    > {
        let ordered = stable_sort(gaps, original_order());
        match search_objective(self.bridge, self.original, self.original) {
            Err(error) => Err(error),
            Ok(objective) => self.multi_outcome(
                self.multi_from(ordered, 0, self.beginning(objective, seq![])),
                ordered,
                gap_bound(ordered, self.config.max_tracks_per_gap as int),
            ),
        }
    }
}

// What holds on the way.

/// Whether every step in a gap keeps what `grow` says of paths by their number
/// of tracks.
pub open spec fn steps_keep(
    model: ExactModel,
    gap: AutomaticGapView,
    limit: int,
    grow: spec_fn(int, PathState) -> bool,
) -> bool {
    forall|depth: int, variant: PathState, at: int, evaluation: BridgeCandidateEvaluation|
        #![trigger grow(depth, variant), model.branch(variant, at, evaluation)]
        0 <= depth < limit && grow(depth, variant) && right_position(variant.route, gap) == Some(at)
            && evaluation.repeat_safe && weighed(model.bridge, variant.route, at, evaluation)
            && numbers_of(gap.semantics.candidates).contains(evaluation.candidate) ==> (model.branch(variant, at, evaluation) matches Ok(state)
            ==> grow(depth + 1, state))
}

/// Whether `property` holds behind a gap wherever `grow` holds of a path that
/// reaches its right anchor.
pub open spec fn ends_keep(
    model: ExactModel,
    base: Seq<Seq<usize>>,
    limit: int,
    grow: spec_fn(int, PathState) -> bool,
    property: spec_fn(FilledState) -> bool,
) -> bool {
    forall|depth: int, variant: PathState|
        0 <= depth <= limit && #[trigger] grow(depth, variant) && variant.record.connected
            ==> property(model.finished(base, variant))
}

/// Whether `grow` holds only of routes that fit into memory.
pub open spec fn lengths_fit(grow: spec_fn(int, PathState) -> bool) -> bool {
    forall|depth: int, variant: PathState| #[trigger]
        grow(depth, variant) ==> variant.route.len() <= usize::MAX
}

/// Whether `grow` holds of every path.
pub open spec fn all_grow(
    states: Seq<PathState>,
    depth: int,
    grow: spec_fn(int, PathState) -> bool,
) -> bool {
    forall|i: int| 0 <= i < states.len() ==> grow(depth, #[trigger] states[i])
}

impl ExactModel {
    proof fn lemma_branches(
        self,
        gap: AutomaticGapView,
        limit: int,
        depth: int,
        variant: PathState,
        at: int,
        followed: Seq<BridgeCandidateEvaluation>,
        next: int,
        done: Seq<PathState>,
        grow: spec_fn(int, PathState) -> bool,
    )
        requires
            0 <= next,
            0 <= depth < limit,
            steps_keep(self, gap, limit, grow),
            grow(depth, variant),
            right_position(variant.route, gap) == Some(at),
            forall|i: int|
                0 <= i < followed.len() ==> (#[trigger] followed[i]).repeat_safe && weighed(
                    self.bridge,
                    variant.route,
                    at,
                    followed[i],
                ) && numbers_of(gap.semantics.candidates).contains(followed[i].candidate),
            all_grow(done, depth + 1, grow),
        ensures
            self.branches_from(variant, at, followed, next, done) matches Ok(states) ==> all_grow(
                states,
                depth + 1,
                grow,
            ),
        decreases followed.len() - next,
    {
        if next < followed.len() {
            if let Ok(state) = self.branch(variant, at, followed[next]) {
                assert(followed[next].repeat_safe);
                assert(grow(depth, variant));
                assert(grow(depth + 1, state));
                self.lemma_branches(
                    gap,
                    limit,
                    depth,
                    variant,
                    at,
                    followed,
                    next + 1,
                    done.push(state),
                    grow,
                );
            }
        }
    }

    proof fn lemma_variant_steps(
        self,
        gap: AutomaticGapView,
        matrix: Option<ContextMatrixView>,
        limit: int,
        depth: int,
        variant: PathState,
        done: Seq<PathState>,
        grow: spec_fn(int, PathState) -> bool,
    )
        requires
            self.config.variation_percent <= 100,
            variant.route.len() <= usize::MAX,
            0 <= depth < limit,
            steps_keep(self, gap, limit, grow),
            grow(depth, variant),
            all_grow(done, depth + 1, grow),
        ensures
            self.variant_steps(variant, gap, matrix, done) matches Ok(states) ==> all_grow(
                states,
                depth + 1,
                grow,
            ),
    {
        crate::sequences::lemma_position_of_member(variant.route, gap.left);
        crate::sequences::lemma_position_of_member(variant.route, gap.right);
        if let Some(at) = right_position(variant.route, gap) {
            if let Ok(ranked) = evolving_ranked(
                self.bridge,
                variant.route,
                at as usize,
                gap.semantics.candidates,
                matrix,
                self.config.guide(),
                EvolvingAcceptance::ReachableFromLeft,
            ) {
                let acceptance = EvolvingAcceptance::ReachableFromLeft;
                let followed = self.followed(ranked, acceptance);
                lemma_followed(
                    self,
                    variant.route,
                    at as usize,
                    gap.semantics.candidates,
                    matrix,
                    acceptance,
                );
                assert forall|i: int| 0 <= i < followed.len() implies (
                #[trigger] followed[i]).repeat_safe && weighed(
                    self.bridge,
                    variant.route,
                    at,
                    followed[i],
                ) && numbers_of(gap.semantics.candidates).contains(followed[i].candidate) by {
                    assert(accepts(acceptance, followed[i], self.bridge.config));
                }
                self.lemma_branches(gap, limit, depth, variant, at, followed, 0, done, grow);
            }
        }
    }

    proof fn lemma_frontier(
        self,
        gap: AutomaticGapView,
        matrix: Option<ContextMatrixView>,
        limit: int,
        depth: int,
        frontier: Seq<PathState>,
        at: int,
        done: Seq<PathState>,
        grow: spec_fn(int, PathState) -> bool,
    )
        requires
            self.config.variation_percent <= 100,
            lengths_fit(grow),
            0 <= at,
            0 <= depth < limit,
            steps_keep(self, gap, limit, grow),
            all_grow(frontier, depth, grow),
            all_grow(done, depth + 1, grow),
        ensures
            self.frontier_from(frontier, gap, matrix, at, done) matches Ok(states) ==> all_grow(
                states,
                depth + 1,
                grow,
            ) && all_grow(self.narrowed(states), depth + 1, grow),
        decreases frontier.len() - at,
    {
        if at < frontier.len() {
            assert(grow(depth, frontier[at]));
            self.lemma_variant_steps(gap, matrix, limit, depth, frontier[at], done, grow);
            if let Ok(steps) = self.variant_steps(frontier[at], gap, matrix, done) {
                self.lemma_frontier(gap, matrix, limit, depth, frontier, at + 1, steps, grow);
            }
        } else {
            let property = |state: PathState| grow(depth + 1, state);
            let width = self.config.beam_width as int;
            let leq = best_path_first();
            let same = same_state_route::<GapPathView>();
            assert(all_hold(done, property));
            lemma_all_hold(done, property, leq, same, width);
            let sorted = stable_sort(done, leq);
            lemma_all_hold(sorted, property, leq, same, width);
            lemma_all_hold(dedup(sorted, same), property, leq, same, width);
            let kept = self.narrowed(done);
            assert forall|i: int| 0 <= i < kept.len() implies grow(
                depth + 1,
                #[trigger] kept[i],
            ) by {
                assert(property(kept[i]));
            }
        }
    }

    proof fn lemma_finished(
        self,
        base: Seq<Seq<usize>>,
        limit: int,
        depth: int,
        frontier: Seq<PathState>,
        done: Seq<FilledState>,
        count: int,
        grow: spec_fn(int, PathState) -> bool,
        property: spec_fn(FilledState) -> bool,
    )
        requires
            0 <= count <= frontier.len(),
            0 <= depth <= limit,
            ends_keep(self, base, limit, grow, property),
            all_grow(frontier, depth, grow),
            all_hold(done, property),
        ensures
            all_hold(self.finished_upto(base, frontier, done, count), property),
        decreases count,
    {
        if count > 0 {
            self.lemma_finished(base, limit, depth, frontier, done, count - 1, grow, property);
            if frontier[count - 1].record.connected {
                assert(grow(depth, frontier[count - 1]));
                lemma_all_hold_push(
                    self.finished_upto(base, frontier, done, count - 1),
                    self.finished(base, frontier[count - 1]),
                    property,
                );
            }
        }
    }

    /// What every step in a gap keeps holds behind the gap.
    pub proof fn lemma_filled(
        self,
        base: Seq<Seq<usize>>,
        gap: AutomaticGapView,
        matrix: Option<ContextMatrixView>,
        limit: int,
        depth: int,
        frontier: Seq<PathState>,
        done: Seq<FilledState>,
        grow: spec_fn(int, PathState) -> bool,
        property: spec_fn(FilledState) -> bool,
    )
        requires
            self.config.variation_percent <= 100,
            lengths_fit(grow),
            0 <= depth <= limit,
            steps_keep(self, gap, limit, grow),
            ends_keep(self, base, limit, grow, property),
            all_grow(frontier, depth, grow),
            all_hold(done, property),
        ensures
            self.filled_from(base, gap, matrix, limit, depth, frontier, done) matches Ok(states)
                ==> all_hold(states, property),
        decreases limit - depth,
    {
        let completed = self.finished_upto(base, frontier, done, frontier.len() as int);
        self.lemma_finished(
            base,
            limit,
            depth,
            frontier,
            done,
            frontier.len() as int,
            grow,
            property,
        );
        if depth < limit && frontier.len() > 0 {
            self.lemma_frontier(gap, matrix, limit, depth, frontier, 0, seq![], grow);
            if let Ok(next) = self.frontier_from(frontier, gap, matrix, 0, seq![]) {
                self.lemma_filled(
                    base,
                    gap,
                    matrix,
                    limit,
                    depth + 1,
                    self.narrowed(next),
                    completed,
                    grow,
                    property,
                );
            }
        }
    }
}

/// Whether a path's route has `start` tracks and one more for every step.
pub open spec fn length_grows(start: int, limit: int) -> spec_fn(int, PathState) -> bool {
    |depth: int, state: PathState|
        state.route.len() == start + depth && depth <= limit && start + limit <= usize::MAX
}

impl ExactModel {
    proof fn lemma_lengths(self, gap: AutomaticGapView, limit: int, start: int)
        ensures
            steps_keep(self, gap, limit, length_grows(start, limit)),
            lengths_fit(length_grows(start, limit)),
    {
        let grow = length_grows(start, limit);
        assert forall|
            depth: int,
            variant: PathState,
            at: int,
            evaluation: BridgeCandidateEvaluation,
        |
            #![trigger grow(depth, variant), self.branch(variant, at, evaluation)]
            0 <= depth < limit && grow(depth, variant) && right_position(variant.route, gap)
                == Some(at) && evaluation.repeat_safe && weighed(
            self.bridge,
            variant.route,
            at,
            evaluation,
        ) && numbers_of(gap.semantics.candidates).contains(
            evaluation.candidate,
        ) implies (self.branch(variant, at, evaluation) matches Ok(state) ==> grow(depth + 1, state)) by {
            crate::sequences::lemma_position_of_member(variant.route, gap.left);
            crate::sequences::lemma_position_of_member(variant.route, gap.right);
        }
    }

    proof fn lemma_multi_steps_room(
        self,
        state: FilledState,
        gap: AutomaticGapView,
        done: Seq<FilledState>,
        room: int,
    )
        requires
            self.config.variation_percent <= 100,
            self.original.len() + room + self.config.max_tracks_per_gap <= usize::MAX,
            within::<Seq<Seq<usize>>>(self.original.len() as int, room)(state),
            all_hold(
                done,
                within(self.original.len() as int, room + self.config.max_tracks_per_gap),
            ),
        ensures
            self.multi_steps(state, gap, done) matches Ok(states) ==> all_hold(
                states,
                within(self.original.len() as int, room + self.config.max_tracks_per_gap),
            ),
    {
        let left = position(state.route, gap.left);
        if left < state.route.len() {
            if let Ok(matrix) = self.bridge.gap_matrix(state.route, left + 1) {
                let limit = self.depth_limit(state.route);
                let start = state.route.len() as int;
                let property = within::<Seq<Seq<usize>>>(
                    self.original.len() as int,
                    room + self.config.max_tracks_per_gap,
                );
                let frontier = seq![self.entering(state)];
                self.lemma_lengths(gap, limit, start);
                assert(all_grow(frontier, 0, length_grows(start, limit as int)));
                self.lemma_filled(
                    state.record,
                    gap,
                    matrix,
                    limit,
                    0,
                    frontier,
                    done,
                    length_grows(start, limit as int),
                    property,
                );
            }
        }
    }

    proof fn lemma_multi_room(
        self,
        states: Seq<FilledState>,
        gap: AutomaticGapView,
        at: int,
        done: Seq<FilledState>,
        room: int,
    )
        requires
            self.config.variation_percent <= 100,
            self.original.len() + room + self.config.max_tracks_per_gap <= usize::MAX,
            0 <= at,
            all_hold(states, within(self.original.len() as int, room)),
            all_hold(
                done,
                within(self.original.len() as int, room + self.config.max_tracks_per_gap),
            ),
        ensures
            self.multi_layer_from(states, gap, at, done) matches Ok(expanded) ==> all_hold(
                expanded,
                within(self.original.len() as int, room + self.config.max_tracks_per_gap),
            ),
        decreases states.len() - at,
    {
        if at < states.len() {
            assert(within::<Seq<Seq<usize>>>(self.original.len() as int, room)(states[at]));
            self.lemma_multi_steps_room(states[at], gap, done, room);
            if let Ok(steps) = self.multi_steps(states[at], gap, done) {
                self.lemma_multi_room(states, gap, at + 1, steps, room);
            }
        }
    }
}

// Running the search.

/// The noted tracks of every gap so far.
pub struct Selections {
    pub lists: Vec<Vec<usize>>,
}

impl View for Selections {
    type V = Seq<Seq<usize>>;

    open spec fn view(&self) -> Seq<Seq<usize>> {
        views(self.lists@)
    }
}

fn copied_lists(lists: &Vec<Vec<usize>>) -> (copy: Vec<Vec<usize>>)
    ensures
        views(copy@) == views(lists@),
{
    let mut copy: Vec<Vec<usize>> = Vec::new();
    let mut at: usize = 0;
    while at < lists.len()
        invariant
            at <= lists@.len(),
            views(copy@) =~= views(lists@).take(at as int),
        decreases lists@.len() - at,
    {
        let item = copied(lists[at].as_slice());
        proof {
            lemma_views_push(copy@, item);
        }
        copy.push(item);
        at += 1;
    }
    assert(views(copy@) =~= views(lists@));
    copy
}

fn narrow(states: Vec<SearchState<GapPath>>, width: usize) -> (kept: Vec<SearchState<GapPath>>)
    ensures
        views(kept@) == first_few(
            dedup(stable_sort(views(states@), best_path_first()), same_state_route()),
            width as int,
        ),
{
    let leq = |a: &SearchState<GapPath>, b: &SearchState<GapPath>| -> (first: bool)
        ensures
            first == best_path_first()(a@, b@),
        {
            if comes_before(a, b) {
                true
            } else if comes_before(b, a) {
                false
            } else {
                !precedes_lexically(b.record.selected.as_slice(), a.record.selected.as_slice())
            }
        };
    proof {
        lemma_path_ranking();
    }
    let sorted = sort_views(states, &leq, Ghost(best_path_first()));
    let is_same = |a: &SearchState<GapPath>, b: &SearchState<GapPath>| -> (same: bool)
        ensures
            same == same_state_route::<GapPathView>()(a@, b@),
        { same_route(a.route.as_slice(), b.route.as_slice()) };
    let mut kept = dedup_views(sorted, &is_same, Ghost(same_state_route::<GapPathView>()));
    truncate_views(&mut kept, width);
    kept
}

impl<
    'a,
    P: Fn(&[usize], u16) -> Result<(), ContextualError>,
    D: Fn(&[usize], u16, &[usize], usize) -> u64,
> ExactSearch<'a, P, D> {
    fn add_variant_steps(
        &self,
        variant: &SearchState<GapPath>,
        gap: &AutomaticGap,
        matrix: Option<&ContextMatrix>,
        next: &mut Vec<SearchState<GapPath>>,
    ) -> (outcome: Result<(), PreviewError>)
        requires
            self.valid(),
            variant.route@.len() < usize::MAX - 1,
        ensures
            match self.model().variant_steps(
                variant@,
                gap@,
                matrix_view(matrix),
                views(old(next)@),
            ) {
                Ok(steps) => outcome is Ok && views(final(next)@) == steps,
                Err(error) => outcome is Err && outcome->Err_0@ == error,
            },
    {
        let ghost model = self.model();
        let ghost before = views(next@);
        let ghost from = variant@;
        let at: usize = match gap_right_position(variant.route.as_slice(), gap) {
            None => {
                return Err(PreviewError::InvalidOriginalGap(gap.original_position));
            },
            Some(at) => at,
        };
        let ranked = match rank_for_evolving_route(
            variant.route.as_slice(),
            at,
            gap.semantics.candidates.as_slice(),
            self.scoring,
            matrix,
            &self.config.guidance(),
            EvolvingAcceptance::ReachableFromLeft,
        ) {
            Err(error) => {
                return Err(error);
            },
            Ok(ranked) => ranked,
        };
        let followed = follow_up(
            &ranked,
            EvolvingAcceptance::ReachableFromLeft,
            self.scoring.config,
            self.config.candidate_limit,
        );
        let mut index: usize = 0;
        while index < followed.len()
            invariant
                index <= followed@.len(),
                self.valid(),
                model == self.model(),
                from == variant@,
                before == views(old(next)@),
                0 < at < variant.route@.len(),
                variant.route@.len() < usize::MAX - 1,
                model.variant_steps(from, gap@, matrix_view(matrix), before)
                    == model.branches_from(from, at as int, followed@, 0, before),
                model.branches_from(from, at as int, followed@, 0, before) == model.branches_from(
                    from,
                    at as int,
                    followed@,
                    index as int,
                    views(next@),
                ),
            decreases followed@.len() - index,
        {
            let evaluation = followed[index];
            let mut route = copied(variant.route.as_slice());
            route.insert(at, evaluation.candidate);
            let objective: u128 = match gap_search_objective(
                route.as_slice(),
                self.original,
                self.scoring,
            ) {
                Err(error) => {
                    return Err(error);
                },
                Ok(objective) => objective,
            };
            let mut selected = copied(variant.record.selected.as_slice());
            selected.push(evaluation.candidate);
            let state = SearchState {
                route,
                objective,
                record: GapPath { selected, connected: evaluation.accepted },
            };
            proof {
                assert(model.branch(from, at as int, evaluation) == Ok::<
                    PathState,
                    PreviewErrorView,
                >(state@));
                lemma_views_push(next@, state);
            }
            next.push(state);
            index += 1;
        }
        Ok(())
    }

    fn grow_frontier(
        &self,
        frontier: &Vec<SearchState<GapPath>>,
        gap: &AutomaticGap,
        matrix: Option<&ContextMatrix>,
    ) -> (next: Result<Vec<SearchState<GapPath>>, PreviewError>)
        requires
            self.valid(),
            forall|i: int|
                0 <= i < frontier@.len() ==> (#[trigger] frontier@[i]).route@.len() < usize::MAX
                    - 1,
        ensures
            match self.model().frontier_from(
                views(frontier@),
                gap@,
                matrix_view(matrix),
                0,
                seq![],
            ) {
                Ok(steps) => next is Ok && views(next->Ok_0@) == steps,
                Err(error) => next is Err && next->Err_0@ == error,
            },
    {
        let ghost model = self.model();
        let ghost all = views(frontier@);
        let mut next: Vec<SearchState<GapPath>> = Vec::new();
        let mut at: usize = 0;
        assert(views(next@) =~= seq![]);
        while at < frontier.len()
            invariant
                at <= frontier@.len(),
                self.valid(),
                model == self.model(),
                all == views(frontier@),
                forall|i: int|
                    0 <= i < frontier@.len() ==> (#[trigger] frontier@[i]).route@.len()
                        < usize::MAX - 1,
                model.frontier_from(all, gap@, matrix_view(matrix), 0, seq![])
                    == model.frontier_from(
                    all,
                    gap@,
                    matrix_view(matrix),
                    at as int,
                    views(next@),
                ),
            decreases frontier@.len() - at,
        {
            assert(all[at as int] == frontier@[at as int]@);
            match self.add_variant_steps(&frontier[at], gap, matrix, &mut next) {
                Err(error) => {
                    return Err(error);
                },
                Ok(_) => {},
            }
            at += 1;
        }
        Ok(next)
    }

    fn add_finished(
        &self,
        base: &Vec<Vec<usize>>,
        frontier: &Vec<SearchState<GapPath>>,
        completed: &mut Vec<SearchState<Selections>>,
    )
        ensures
            views(final(completed)@) == self.model().finished_upto(
                views(base@),
                views(frontier@),
                views(old(completed)@),
                frontier@.len() as int,
            ),
    {
        let ghost model = self.model();
        let ghost all = views(frontier@);
        let ghost before = views(completed@);
        let mut at: usize = 0;
        while at < frontier.len()
            invariant
                at <= frontier@.len(),
                model == self.model(),
                all == views(frontier@),
                views(completed@) == model.finished_upto(views(base@), all, before, at as int),
            decreases frontier@.len() - at,
        {
            assert(all[at as int] == frontier@[at as int]@);
            let variant = &frontier[at];
            if variant.record.connected {
                let mut lists = copied_lists(base);
                let selected = copied(variant.record.selected.as_slice());
                proof {
                    lemma_views_push(lists@, selected);
                }
                lists.push(selected);
                let state = SearchState {
                    route: copied(variant.route.as_slice()),
                    objective: variant.objective,
                    record: Selections { lists },
                };
                proof {
                    assert(state@ =~= model.finished(views(base@), all[at as int]));
                    lemma_views_push(completed@, state);
                }
                completed.push(state);
            }
            at += 1;
        }
    }

    fn add_multi_steps(
        &self,
        state: &SearchState<Selections>,
        gap: &AutomaticGap,
        expanded: &mut Vec<SearchState<Selections>>,
    ) -> (outcome: Result<(), PreviewError>)
        requires
            self.valid(),
            self.original@.len() <= state.route@.len(),
            state.route@.len() + self.config.max_tracks_per_gap < usize::MAX - 1,
        ensures
            match self.model().multi_steps(state@, gap@, views(old(expanded)@)) {
                Ok(steps) => outcome is Ok && views(final(expanded)@) == steps,
                Err(error) => outcome is Err && outcome->Err_0@ == error,
            },
    {
        let ghost model = self.model();
        let ghost before = views(expanded@);
        let ghost from = state@;
        let left: usize = match find_position(state.route.as_slice(), gap.left) {
            None => {
                return Err(PreviewError::InvalidOriginalGap(gap.original_position));
            },
            Some(left) => left,
        };
        let matrix = match gap_context_matrix(
            state.route.as_slice(),
            left + 1,
            self.scoring.tracks,
            self.scoring.scorer,
            self.scoring.config,
        ) {
            Err(error) => {
                return Err(PreviewError::Scoring(error));
            },
            Ok(matrix) => matrix,
        };
        let ghost frozen = matrix_of(matrix);
        let added: usize = state.route.len() - self.original.len();
        let open: usize = self.config.requested_added_tracks.saturating_sub(added);
        let limit: usize = if open < self.config.max_tracks_per_gap {
            open
        } else {
            self.config.max_tracks_per_gap
        };
        assert(limit == model.depth_limit(from.route));
        let first = SearchState {
            route: copied(state.route.as_slice()),
            objective: state.objective,
            record: GapPath { selected: Vec::new(), connected: true },
        };
        let mut frontier: Vec<SearchState<GapPath>> = Vec::new();
        proof {
            assert(first@ =~= model.entering(from));
            assert(views(frontier@) =~= seq![]);
            lemma_views_push(frontier@, first);
        }
        frontier.push(first);
        assert(views(frontier@) =~= seq![model.entering(from)]);
        let ghost start = from.route.len() as int;
        let ghost grow = length_grows(start, limit as int);
        proof {
            model.lemma_lengths(gap@, limit as int, start);
            assert(all_grow(views(frontier@), 0, grow));
        }
        let mut depth: usize = 0;
        let ghost mut done = before;
        self.add_finished(&state.record.lists, &frontier, expanded);
        while depth < limit && frontier.len() > 0
            invariant
                depth <= limit,
                limit <= self.config.max_tracks_per_gap,
                self.valid(),
                model == self.model(),
                from == state@,
                before == views(old(expanded)@),
                frozen == matrix_of(matrix),
                start == from.route.len(),
                start + self.config.max_tracks_per_gap < usize::MAX - 1,
                grow == length_grows(start, limit as int),
                lengths_fit(grow),
                steps_keep(model, gap@, limit as int, grow),
                all_grow(views(frontier@), depth as int, grow),
                model.multi_steps(from, gap@, before) == model.filled_from(
                    from.record,
                    gap@,
                    frozen,
                    limit as int,
                    0,
                    seq![model.entering(from)],
                    before,
                ),
                views(expanded@) == model.finished_upto(
                    from.record,
                    views(frontier@),
                    done,
                    frontier@.len() as int,
                ),
                model.filled_from(
                    from.record,
                    gap@,
                    frozen,
                    limit as int,
                    0,
                    seq![model.entering(from)],
                    before,
                ) == model.filled_from(
                    from.record,
                    gap@,
                    frozen,
                    limit as int,
                    depth as int,
                    views(frontier@),
                    done,
                ),
            decreases limit - depth,
        {
            let ghost paths = views(frontier@);
            proof {
                assert forall|i: int| 0 <= i < frontier@.len() implies (
                #[trigger] frontier@[i]).route@.len() < usize::MAX - 1 by {
                    assert(grow(depth as int, paths[i]));
                }
                model.lemma_frontier(
                    gap@,
                    frozen,
                    limit as int,
                    depth as int,
                    paths,
                    0,
                    seq![],
                    grow,
                );
            }
            let next = match self.grow_frontier(&frontier, gap, matrix.as_ref()) {
                Err(error) => {
                    return Err(error);
                },
                Ok(next) => next,
            };
            frontier = narrow(next, self.config.beam_width);
            depth += 1;
            proof {
                done = views(expanded@);
            }
            self.add_finished(&state.record.lists, &frontier, expanded);
        }
        Ok(())
    }
}

impl<
    'a,
    P: Fn(&[usize], u16) -> Result<(), ContextualError>,
    D: Fn(&[usize], u16, &[usize], usize) -> u64,
> ExactSearch<'a, P, D> {
    fn multi_layer(&self, states: &Vec<SearchState<Selections>>, gap: &AutomaticGap) -> (expanded:
        Result<Vec<SearchState<Selections>>, PreviewError>)
        requires
            self.valid(),
            forall|i: int|
                0 <= i < states@.len() ==> self.original@.len() <= (
                #[trigger] states@[i]).route@.len() && states@[i].route@.len()
                    + self.config.max_tracks_per_gap < usize::MAX - 1,
        ensures
            match self.model().multi_layer_from(views(states@), gap@, 0, seq![]) {
                Ok(layer) => expanded is Ok && views(expanded->Ok_0@) == layer,
                Err(error) => expanded is Err && expanded->Err_0@ == error,
            },
    {
        let ghost model = self.model();
        let ghost all = views(states@);
        let mut expanded: Vec<SearchState<Selections>> = Vec::new();
        let mut at: usize = 0;
        assert(views(expanded@) =~= seq![]);
        while at < states.len()
            invariant
                at <= states@.len(),
                self.valid(),
                model == self.model(),
                all == views(states@),
                forall|i: int|
                    0 <= i < states@.len() ==> self.original@.len() <= (
                    #[trigger] states@[i]).route@.len() && states@[i].route@.len()
                        + self.config.max_tracks_per_gap < usize::MAX - 1,
                model.multi_layer_from(all, gap@, 0, seq![]) == model.multi_layer_from(
                    all,
                    gap@,
                    at as int,
                    views(expanded@),
                ),
            decreases states@.len() - at,
        {
            assert(all[at as int] == states@[at as int]@);
            match self.add_multi_steps(&states[at], gap, &mut expanded) {
                Err(error) => {
                    return Err(error);
                },
                Ok(_) => {},
            }
            at += 1;
        }
        Ok(expanded)
    }
}

/// Chooses an exact number of bridges, several for a gap where that serves.
pub fn select_exact_count_multi_gap_bridges<
    P: Fn(&[usize], u16) -> Result<(), ContextualError>,
    D: Fn(&[usize], u16, &[usize], usize) -> u64,
>(search: &ExactSearch<'_, P, D>, gaps: &[AutomaticGap]) -> (selection: Result<
    ExactSelection,
    PreviewError,
>)
    requires
        search.valid(),
        search.original@.len() + gaps@.len() * search.config.max_tracks_per_gap < usize::MAX - 2,
    ensures
        match search.model().multi(views(gaps@)) {
            Ok(found) => selection is Ok && selection->Ok_0@ == found,
            Err(error) => selection is Err && selection->Err_0@ == error,
        },
        selection matches Ok(found) ==> (found.final_route matches Some(route) ==> route@.len()
            <= search.original@.len() + gaps@.len() * search.config.max_tracks_per_gap),
{
    let ghost model = search.model();
    let original: usize = search.original.len();
    let width: usize = search.config.beam_width;
    let requested: usize = search.config.requested_added_tracks;
    let per_gap: usize = search.config.max_tracks_per_gap;
    let ordered = ordered_gaps(gaps);
    let ghost all = views(ordered@);
    proof {
        crate::sorting::stable_sort_keeps_items(views(gaps@), original_order());
        assert(gaps@.len() * per_gap >= 0) by (nonlinear_arith);
    }
    let bound: usize = bound_of_gaps(ordered.as_slice(), per_gap);
    let objective: u128 = match gap_search_objective(
        search.original,
        search.original,
        search.scoring,
    ) {
        Err(error) => {
            return Err(error);
        },
        Ok(objective) => objective,
    };
    let first = SearchState {
        route: copied(search.original),
        objective,
        record: Selections { lists: Vec::new() },
    };
    let ghost start = model.beginning(objective as nat, Seq::<Seq<usize>>::empty());
    let mut states: Vec<SearchState<Selections>> = Vec::new();
    proof {
        assert(first.record@ =~= Seq::<Seq<usize>>::empty());
        assert(views(states@) =~= seq![]);
        lemma_views_push(states@, first);
    }
    states.push(first);
    assert(views(states@) =~= start.states);
    let mut evaluated: usize = 1;
    let mut retained: usize = 1;
    let mut at: usize = 0;
    assert(all_hold(start.states, within(original as int, 0)));
    while at < ordered.len()
        invariant
            at <= ordered@.len(),
            search.valid(),
            model == search.model(),
            all == views(ordered@),
            ordered@.len() == gaps@.len(),
            original == search.original@.len(),
            width == search.config.beam_width,
            per_gap == search.config.max_tracks_per_gap,
            original + ordered@.len() * per_gap < usize::MAX - 2,
            model.multi(views(gaps@)) == model.multi_outcome(
                model.multi_from(all, 0, start),
                all,
                gap_bound(all, per_gap as int),
            ),
            all_hold(views(states@), within(original as int, at * per_gap)),
            model.multi_from(all, 0, start) == model.multi_from(
                all,
                at as int,
                Progress {
                    states: views(states@),
                    evaluated: evaluated as int,
                    retained: retained as int,
                },
            ),
        decreases ordered@.len() - at,
    {
        let gap = &ordered[at];
        assert(all[at as int] == gap@);
        let ghost before = views(states@);
        proof {
            let count = ordered@.len() as int;
            assert(at * per_gap + per_gap == (at + 1) * per_gap) by (nonlinear_arith);
            assert((at + 1) * per_gap <= count * per_gap) by (nonlinear_arith)
                requires
                    at + 1 <= count,
                    per_gap >= 0,
            ;
            lemma_within(states@, original as int, at * per_gap);
            model.lemma_multi_room(before, gap@, 0, seq![], at * per_gap);
        }
        let expanded = match search.multi_layer(&states, gap) {
            Err(error) => {
                return Err(error);
            },
            Ok(expanded) => expanded,
        };
        let ghost layer = views(expanded@);
        proof {
            lemma_within(expanded@, original as int, (at + 1) * per_gap);
            lemma_kept_hold(
                layer,
                within(original as int, (at + 1) * per_gap),
                original as int,
                width as int,
            );
        }
        evaluated = evaluated.saturating_add(expanded.len());
        states = keep_states(expanded, original, width);
        retained = retained.saturating_add(states.len());
        at += 1;
    }
    proof {
        lemma_within(states@, original as int, at * per_gap);
    }
    let most: usize = find_most_added(&states, original);
    let stats = ExactSearchStats {
        max_tracks_per_gap: per_gap,
        evaluated_states: evaluated,
        retained_states: retained,
        maximum_additions_found: most,
        structural_upper_bound: bound,
    };
    let found: Option<usize> = match original.checked_add(requested) {
        Some(length) => find_best(&states, Some(length)),
        None => None,
    };
    proof {
        lemma_best(views(states@), Some(original + requested), 0, None);
        if original + requested > usize::MAX {
            if let Some(i) = best_from(views(states@), Some(original + requested), 0, None) {
                assert(within::<Seq<Seq<usize>>>(original as int, at * per_gap)(
                    views(states@)[i],
                ));
            }
        }
    }
    let ending: Vec<EndpointDecision> = Vec::new();
    assert(views(ending@) =~= seq![]);
    match found {
        Some(index) => {
            let ghost ended = views(states@);
            assert(ended[index as int] == states@[index as int]@);
            assert(within::<Seq<Seq<usize>>>(original as int, at * per_gap)(ended[index as int]));
            let state = states.remove(index);
            let decisions = match final_exact_decisions(
                state.route.as_slice(),
                ordered.as_slice(),
                state.record.lists.as_slice(),
                search.scoring,
                search.config,
            ) {
                Err(error) => {
                    return Err(error);
                },
                Ok(decisions) => decisions,
            };
            Ok(
                ExactSelection {
                    requested_added_tracks: requested,
                    final_route: Some(state.route),
                    decisions,
                    endpoint_decisions: ending,
                    stats,
                },
            )
        },
        None => {
            let none: Vec<GapDecision> = Vec::new();
            assert(views(none@) =~= seq![]);
            Ok(
                ExactSelection {
                    requested_added_tracks: requested,
                    final_route: None,
                    decisions: none,
                    endpoint_decisions: ending,
                    stats,
                },
            )
        },
    }
}

impl ExactModel {
    /// Why no search is made, if so.
    pub open spec fn refusal(self) -> Option<PreviewErrorView> {
        if self.config.candidate_limit == 0 {
            Some(
                PreviewErrorView::InvalidExactConfig(
                    "exact-count candidate limit must be at least one"@,
                ),
            )
        } else if self.config.beam_width == 0 {
            Some(
                PreviewErrorView::InvalidExactConfig(
                    "exact-count beam width must be at least one"@,
                ),
            )
        } else if self.config.max_tracks_per_gap == 0 {
            Some(
                PreviewErrorView::InvalidExactConfig(
                    "exact-count max tracks per gap must be at least one"@,
                ),
            )
        } else if self.config.max_tracks_per_gap > MAX_EXACT_TRACKS_PER_GAP {
            Some(
                PreviewErrorView::InvalidExactConfig(
                    "exact-count max tracks per gap exceeds the supported limit"@,
                ),
            )
        } else {
            None
        }
    }

    /// The selection of an exact number of bridges.
    pub open spec fn selection(self, gaps: Seq<AutomaticGapView>) -> Result<
        ExactSelectionView,
        PreviewErrorView,
    > {
        match self.refusal() {
            Some(error) => Err(error),
            None => if self.config.max_tracks_per_gap == 1 {
                self.single(gaps)
            } else {
                self.multi(gaps)
            },
        }
    }
}

/// Chooses exactly as many bridges as are asked for, or none at all.
pub fn select_exact_count_bridges<
    P: Fn(&[usize], u16) -> Result<(), ContextualError>,
    D: Fn(&[usize], u16, &[usize], usize) -> u64,
>(
    original_route: &[usize],
    gaps: &[AutomaticGap],
    selection_config: &ExactSelectionConfig,
    scoring: &ExactScoringContext<'_, P, D>,
) -> (selection: Result<ExactSelection, PreviewError>)
    requires
        scoring.scorer.valid(),
        selection_config.variation_percent <= 100,
        original_route@.len() + gaps@.len() * MAX_EXACT_TRACKS_PER_GAP < usize::MAX - 2,
    ensures
        match (ExactModel {
            bridge: scoring.model(),
            original: original_route@,
            config: *selection_config,
        }).selection(views(gaps@)) {
            Ok(found) => selection is Ok && selection->Ok_0@ == found,
            Err(error) => selection is Err && selection->Err_0@ == error,
        },
        selection matches Ok(found) ==> (found.final_route matches Some(route) ==> route@.len()
            <= original_route@.len() + gaps@.len() * MAX_EXACT_TRACKS_PER_GAP),
{
    if selection_config.candidate_limit == 0 {
        return Err(
            PreviewError::InvalidExactConfig("exact-count candidate limit must be at least one"),
        );
    }
    if selection_config.beam_width == 0 {
        return Err(PreviewError::InvalidExactConfig("exact-count beam width must be at least one"));
    }
    if selection_config.max_tracks_per_gap == 0 {
        return Err(
            PreviewError::InvalidExactConfig(
                "exact-count max tracks per gap must be at least one",
            ),
        );
    }
    if selection_config.max_tracks_per_gap > MAX_EXACT_TRACKS_PER_GAP {
        return Err(
            PreviewError::InvalidExactConfig(
                "exact-count max tracks per gap exceeds the supported limit",
            ),
        );
    }
    let search = ExactSearch { original: original_route, config: selection_config, scoring };
    proof {
        let count = gaps@.len() as int;
        let per_gap = selection_config.max_tracks_per_gap as int;
        assert(count * per_gap <= count * MAX_EXACT_TRACKS_PER_GAP) by (nonlinear_arith)
            requires
                0 <= count,
                per_gap <= MAX_EXACT_TRACKS_PER_GAP,
        ;
    }
    if selection_config.max_tracks_per_gap == 1 {
        select_exact_count_single_gap_bridges(&search, gaps)
    } else {
        select_exact_count_multi_gap_bridges(&search, gaps)
    }
}

} // verus!
