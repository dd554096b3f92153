//! Choosing an exact number of bridges.

use crate::anchored_path::larger;
use crate::bridge::{
    gap_context_matrix, matrix_of, BridgeCandidateEvaluation, BridgeModel,
    EndpointCandidateEvaluation, EndpointSlot,
};
use crate::contextual::{ContextMatrixView, ContextualError};
use crate::preview::{
    accepts, copied_decisions, decided, evolving_ranked, exact_decision, find_entry, first_entry,
    gap_position, gap_search_objective, lemma_evolving_members, numbers_of, ordered_gaps,
    original_order, rank_for_evolving_route, route_position, search_objective, AutomaticGap,
    AutomaticGapView, DecisionReason, EvolvingAcceptance, ExactScoringContext, ExactSelectionConfig,
    GapDecision, GapDecisionView, PreviewError, PreviewErrorView, SelectedBridge,
    SelectedBridgeView,
};
use crate::semantic::{CandidateSemantics, CandidateSemanticsView, SemanticPool};
use crate::sequences::{copied, lemma_views_push, views};
use crate::sorting::{all_hold, first_few, stable_sort};
use crate::states::{
    advanced, best_from, find_best, find_most_added, keep_states, lemma_best, lemma_kept_hold,
    most_added, Progress, SearchState, SearchStateView,
};
use std::collections::HashSet;
use vstd::prelude::*;

verus! {

// Results.

/// How much a search looked at.
#[derive(Clone, Copy, Debug, PartialEq, Eq)]
pub struct ExactSearchStats {
    pub max_tracks_per_gap: usize,
    pub evaluated_states: usize,
    pub retained_states: usize,
    pub maximum_additions_found: usize,
    pub structural_upper_bound: usize,
}

/// A track chosen for an end of the playlist.
#[verifier::ext_equal]
pub struct SelectedEndpointView {
    pub semantics: CandidateSemanticsView,
    pub evaluation: EndpointCandidateEvaluation,
}

/// A track chosen for an end of the playlist.
#[derive(Debug, PartialEq, Eq)]
pub struct SelectedEndpoint {
    pub semantics: CandidateSemantics,
    pub evaluation: EndpointCandidateEvaluation,
}

impl View for SelectedEndpoint {
    type V = SelectedEndpointView;

    open spec fn view(&self) -> SelectedEndpointView {
        SelectedEndpointView { semantics: self.semantics@, evaluation: self.evaluation }
    }
}

impl Clone for SelectedEndpoint {
    fn clone(&self) -> (copy: Self)
        ensures
            copy@ == self@,
    {
        SelectedEndpoint { semantics: self.semantics.clone(), evaluation: self.evaluation }
    }
}

/// The value of an endpoint that may be missing.
pub open spec fn endpoint_in(selected: Option<SelectedEndpoint>) -> Option<SelectedEndpointView> {
    match selected {
        Some(endpoint) => Some(endpoint@),
        None => None,
    }
}

/// What became of an end of the playlist.
#[verifier::ext_equal]
pub struct EndpointDecisionView {
    pub slot: EndpointSlot,
    pub anchor: usize,
    pub semantic_pool: SemanticPool,
    pub reason: DecisionReason,
    pub selected: Option<SelectedEndpointView>,
}

/// What became of an end of the playlist.
#[derive(Debug, PartialEq, Eq)]
pub struct EndpointDecision {
    pub slot: EndpointSlot,
    pub anchor: usize,
    pub semantic_pool: SemanticPool,
    pub reason: DecisionReason,
    pub selected: Option<SelectedEndpoint>,
}

impl View for EndpointDecision {
    type V = EndpointDecisionView;

    open spec fn view(&self) -> EndpointDecisionView {
        EndpointDecisionView {
            slot: self.slot,
            anchor: self.anchor,
            semantic_pool: self.semantic_pool,
            reason: self.reason,
            selected: endpoint_in(self.selected),
        }
    }
}

impl Clone for EndpointDecision {
    fn clone(&self) -> (copy: Self)
        ensures
            copy@ == self@,
    {
        EndpointDecision {
            slot: self.slot,
            anchor: self.anchor,
            semantic_pool: self.semantic_pool,
            reason: self.reason,
            selected: match &self.selected {
                Some(endpoint) => Some(endpoint.clone()),
                None => None,
            },
        }
    }
}

/// What an exact selection comes to.
#[verifier::ext_equal]
pub struct ExactSelectionView {
    pub requested_added_tracks: usize,
    pub final_route: Option<Seq<usize>>,
    pub decisions: Seq<GapDecisionView>,
    pub endpoint_decisions: Seq<EndpointDecisionView>,
    pub stats: ExactSearchStats,
}

/// What an exact selection comes to. A route is there only when it adds exactly
/// as many tracks as were asked for.
#[derive(Debug, PartialEq, Eq)]
pub struct ExactSelection {
    pub requested_added_tracks: usize,
    pub final_route: Option<Vec<usize>>,
    pub decisions: Vec<GapDecision>,
    pub endpoint_decisions: Vec<EndpointDecision>,
    pub stats: ExactSearchStats,
}

/// The value of a route that may be missing.
pub open spec fn route_in(route: Option<Vec<usize>>) -> Option<Seq<usize>> {
    match route {
        Some(tracks) => Some(tracks@),
        None => None,
    }
}

impl View for ExactSelection {
    type V = ExactSelectionView;

    open spec fn view(&self) -> ExactSelectionView {
        ExactSelectionView {
            requested_added_tracks: self.requested_added_tracks,
            final_route: route_in(self.final_route),
            decisions: views(self.decisions@),
            endpoint_decisions: views(self.endpoint_decisions@),
            stats: self.stats,
        }
    }
}

/// A copy of decisions on ends.
pub fn copied_ends(decisions: &Vec<EndpointDecision>) -> (copy: Vec<EndpointDecision>)
    ensures
        views(copy@) == views(decisions@),
{
    let mut copy: Vec<EndpointDecision> = Vec::new();
    let mut at: usize = 0;
    while at < decisions.len()
        invariant
            at <= decisions@.len(),
            views(copy@) =~= views(decisions@).take(at as int),
        decreases decisions@.len() - at,
    {
        let item = decisions[at].clone();
        proof {
            lemma_views_push(copy@, item);
        }
        copy.push(item);
        at += 1;
    }
    assert(views(copy@) =~= views(decisions@));
    copy
}

impl Clone for ExactSelection {
    fn clone(&self) -> (copy: Self)
        ensures
            copy@ == self@,
    {
        ExactSelection {
            requested_added_tracks: self.requested_added_tracks,
            final_route: match &self.final_route {
                Some(route) => Some(copied(route.as_slice())),
                None => None,
            },
            decisions: copied_decisions(&self.decisions),
            endpoint_decisions: copied_ends(&self.endpoint_decisions),
            stats: self.stats,
        }
    }
}

// Candidates.

/// Some numbers and those of the first `count` candidates.
pub open spec fn with_candidates(
    known: Set<usize>,
    semantics: Seq<CandidateSemanticsView>,
    count: int,
) -> Set<usize>
    decreases count,
{
    if count <= 0 {
        known
    } else {
        with_candidates(known, semantics, count - 1).insert(semantics[count - 1].candidate)
    }
}

/// The numbers of the candidates for the first `count` gaps.
pub open spec fn gap_candidates(gaps: Seq<AutomaticGapView>, count: int) -> Set<usize>
    decreases count,
{
    if count <= 0 {
        Set::empty()
    } else {
        with_candidates(
            gap_candidates(gaps, count - 1),
            gaps[count - 1].semantics.candidates,
            gaps[count - 1].semantics.candidates.len() as int,
        )
    }
}

/// Notes the numbers of candidates.
pub fn note_candidates(known: &mut HashSet<usize>, semantics: &Vec<CandidateSemantics>)
    ensures
        final(known)@ == with_candidates(
            old(known)@,
            views(semantics@),
            semantics@.len() as int,
        ),
{
    broadcast use vstd::std_specs::hash::group_hash_axioms;

    let ghost all = views(semantics@);
    let ghost before = known@;
    let mut at: usize = 0;
    while at < semantics.len()
        invariant
            at <= semantics@.len(),
            all == views(semantics@),
            known@ == with_candidates(before, all, at as int),
        decreases semantics@.len() - at,
    {
        assert(all[at as int] == semantics@[at as int]@);
        known.insert(semantics[at].candidate);
        at += 1;
    }
}

/// Collects the numbers of the candidates for gaps.
pub fn candidates_of_gaps(gaps: &[AutomaticGap]) -> (known: HashSet<usize>)
    ensures
        known@ == gap_candidates(views(gaps@), gaps@.len() as int),
{
    broadcast use vstd::std_specs::hash::group_hash_axioms;

    let ghost all = views(gaps@);
    let mut known: HashSet<usize> = HashSet::new();
    let mut at: usize = 0;
    assert(known@ =~= gap_candidates(all, 0));
    while at < gaps.len()
        invariant
            at <= gaps@.len(),
            all == views(gaps@),
            known@ == gap_candidates(all, at as int),
        decreases gaps@.len() - at,
    {
        assert(all[at as int] == gaps@[at as int]@);
        note_candidates(&mut known, &gaps[at].semantics.candidates);
        at += 1;
    }
    known
}

/// The number of different candidates.
pub fn count_candidates(known: &HashSet<usize>) -> (count: usize)
    ensures
        count == known@.len(),
{
    broadcast use vstd::std_specs::hash::group_hash_axioms;

    known.len()
}

/// The product of two counts, or the largest count.
pub open spec fn capped_product(a: int, b: int) -> int {
    if a * b > usize::MAX {
        usize::MAX as int
    } else {
        a * b
    }
}

/// The smaller of two counts.
pub open spec fn smaller(a: int, b: int) -> int {
    if a < b {
        a
    } else {
        b
    }
}

/// How many tracks the gaps and their candidates allow at most.
pub open spec fn gap_bound(gaps: Seq<AutomaticGapView>, per_gap: int) -> int {
    smaller(
        capped_product(gaps.len() as int, per_gap),
        gap_candidates(gaps, gaps.len() as int).len() as int,
    )
}

/// Bounds how many tracks can be added.
pub fn bound_of_gaps(gaps: &[AutomaticGap], per_gap: usize) -> (bound: usize)
    ensures
        bound == gap_bound(views(gaps@), per_gap as int),
{
    let known = candidates_of_gaps(gaps);
    let unique: usize = count_candidates(&known);
    let room: usize = match gaps.len().checked_mul(per_gap) {
        Some(room) => room,
        None => usize::MAX,
    };
    if room < unique {
        room
    } else {
        unique
    }
}

/// The accepted ones among the first `count` candidates of a ranking.
pub open spec fn accepted_upto(
    ranked: Seq<BridgeCandidateEvaluation>,
    acceptance: EvolvingAcceptance,
    config: crate::bridge::BridgeConfig,
    count: int,
) -> Seq<BridgeCandidateEvaluation>
    decreases count,
{
    if count <= 0 {
        seq![]
    } else if accepts(acceptance, ranked[count - 1], config) {
        accepted_upto(ranked, acceptance, config, count - 1).push(ranked[count - 1])
    } else {
        accepted_upto(ranked, acceptance, config, count - 1)
    }
}

/// What is accepted comes from the ranking.
pub proof fn lemma_accepted_upto(
    ranked: Seq<BridgeCandidateEvaluation>,
    acceptance: EvolvingAcceptance,
    config: crate::bridge::BridgeConfig,
    count: int,
)
    requires
        0 <= count <= ranked.len(),
    ensures
        accepted_upto(ranked, acceptance, config, count).len() <= count,
        forall|i: int|
            0 <= i < accepted_upto(ranked, acceptance, config, count).len() ==> accepts(
                acceptance,
                #[trigger] accepted_upto(ranked, acceptance, config, count)[i],
                config,
            ) && ranked.contains(accepted_upto(ranked, acceptance, config, count)[i]),
    decreases count,
{
    if count > 0 {
        lemma_accepted_upto(ranked, acceptance, config, count - 1);
        let before = accepted_upto(ranked, acceptance, config, count - 1);
        let after = accepted_upto(ranked, acceptance, config, count);
        assert forall|i: int| 0 <= i < after.len() implies accepts(
            acceptance,
            #[trigger] after[i],
            config,
        ) && ranked.contains(after[i]) by {
            if i < before.len() {
                assert(after[i] == before[i]);
            } else {
                assert(ranked[count - 1] == after[i]);
            }
        }
    }
}

// The search.

/// What an exact search looks at.
#[verifier::ext_equal]
pub struct ExactModel {
    pub bridge: BridgeModel,
    pub original: Seq<usize>,
    pub config: ExactSelectionConfig,
}

/// A search for an exact number of bridges.
pub struct ExactSearch<'a, P, D> {
    pub original: &'a [usize],
    pub config: &'a ExactSelectionConfig,
    pub scoring: &'a ExactScoringContext<'a, P, D>,
}

impl<
    'a,
    P: Fn(&[usize], u16) -> Result<(), ContextualError>,
    D: Fn(&[usize], u16, &[usize], usize) -> u64,
> ExactSearch<'a, P, D> {
    /// What this search looks at.
    pub open spec fn model(&self) -> ExactModel {
        ExactModel {
            bridge: self.scoring.model(),
            original: self.original@,
            config: *self.config,
        }
    }

    /// Whether the search can be run.
    pub open spec fn valid(&self) -> bool {
        self.scoring.scorer.valid() && self.config.variation_percent <= 100
    }
}

/// A state that notes a decision on every gap so far.
pub type DecidedState = SearchStateView<Seq<GapDecisionView>>;

/// A state that notes the tracks in every gap so far.
pub type FilledState = SearchStateView<Seq<Seq<usize>>>;

impl ExactModel {
    /// The best accepted candidates for a gap, as many as are followed up.
    pub open spec fn followed(
        self,
        ranked: Seq<BridgeCandidateEvaluation>,
        acceptance: EvolvingAcceptance,
    ) -> Seq<BridgeCandidateEvaluation> {
        first_few(
            accepted_upto(ranked, acceptance, self.bridge.config, ranked.len() as int),
            self.config.candidate_limit as int,
        )
    }

    /// A state with one gap left alone.
    pub open spec fn skipping(self, state: DecidedState, gap: AutomaticGapView, at: int) -> DecidedState {
        SearchStateView {
            route: state.route,
            objective: state.objective,
            record: state.record.push(decided(gap, at, DecisionReason::NotSelected, None)),
        }
    }

    /// A state with a bridge put into a gap.
    pub open spec fn bridging(
        self,
        state: DecidedState,
        gap: AutomaticGapView,
        at: int,
        evaluation: BridgeCandidateEvaluation,
    ) -> Result<DecidedState, PreviewErrorView> {
        let route = state.route.insert(at, evaluation.candidate);
        let entry = first_entry(gap.semantics.candidates, evaluation.candidate, 0);
        match search_objective(self.bridge, route, self.original) {
            Err(error) => Err(error),
            Ok(objective) => Ok(
                SearchStateView {
                    route,
                    objective,
                    record: state.record.push(
                        decided(
                            gap,
                            at,
                            DecisionReason::Selected,
                            Some(
                                SelectedBridgeView {
                                    semantics: gap.semantics.candidates[entry],
                                    evaluation,
                                },
                            ),
                        ),
                    ),
                },
            ),
        }
    }

    /// The states with one of the followed candidates from `next` on in a gap,
    /// behind those in `done`.
    pub open spec fn bridged_from(
        self,
        state: DecidedState,
        gap: AutomaticGapView,
        at: int,
        followed: Seq<BridgeCandidateEvaluation>,
        next: int,
        done: Seq<DecidedState>,
    ) -> Result<Seq<DecidedState>, PreviewErrorView>
        decreases followed.len() - next,
    {
        if next >= followed.len() {
            Ok(done)
        } else {
            match self.bridging(state, gap, at, followed[next]) {
                Err(error) => Err(error),
                Ok(bridged) => self.bridged_from(
                    state,
                    gap,
                    at,
                    followed,
                    next + 1,
                    done.push(bridged),
                ),
            }
        }
    }

    /// The states that one state leads to at a gap that takes at most one
    /// track. `remaining` gaps come later. With `prune`, a state that can no
    /// longer reach the requested number is dropped.
    pub open spec fn single_steps(
        self,
        state: DecidedState,
        gap: AutomaticGapView,
        remaining: int,
        prune: bool,
    ) -> Result<Seq<DecidedState>, PreviewErrorView> {
        let added = state.route.len() - self.original.len();
        match gap_position(state.route, gap) {
            None => Err(PreviewErrorView::InvalidOriginalGap(gap.original_position)),
            Some(at) => {
                let skipped = if !prune || added + remaining
                    >= self.config.requested_added_tracks {
                    seq![self.skipping(state, gap, at)]
                } else {
                    seq![]
                };
                if added < self.config.requested_added_tracks
                    && gap.semantics.candidates.len() > 0 {
                    match self.bridge.gap_matrix(state.route, at) {
                        Err(error) => Err(PreviewErrorView::Scoring(error)),
                        Ok(matrix) => match evolving_ranked(
                            self.bridge,
                            state.route,
                            at as usize,
                            gap.semantics.candidates,
                            matrix,
                            self.config.guide(),
                            EvolvingAcceptance::FullBridge,
                        ) {
                            Err(error) => Err(error),
                            Ok(ranked) => self.bridged_from(
                                state,
                                gap,
                                at,
                                self.followed(ranked, EvolvingAcceptance::FullBridge),
                                0,
                                skipped,
                            ),
                        },
                    }
                } else {
                    Ok(skipped)
                }
            },
        }
    }

    /// The states that the states from `at` on lead to, behind those in `done`.
    pub open spec fn single_layer_from(
        self,
        states: Seq<DecidedState>,
        gap: AutomaticGapView,
        remaining: int,
        prune: bool,
        at: int,
        done: Seq<DecidedState>,
    ) -> Result<Seq<DecidedState>, PreviewErrorView>
        decreases states.len() - at,
    {
        if at >= states.len() {
            Ok(done)
        } else {
            match self.single_steps(states[at], gap, remaining, prune) {
                Err(error) => Err(error),
                Ok(steps) => self.single_layer_from(
                    states,
                    gap,
                    remaining,
                    prune,
                    at + 1,
                    done + steps,
                ),
            }
        }
    }

    /// How far the search gets through the gaps from `at` on, and the most
    /// tracks that it saw added.
    pub open spec fn single_from(
        self,
        gaps: Seq<AutomaticGapView>,
        prune: bool,
        at: int,
        progress: Progress<Seq<GapDecisionView>>,
        seen: nat,
    ) -> Result<(Progress<Seq<GapDecisionView>>, nat), PreviewErrorView>
        decreases gaps.len() - at,
    {
        if at >= gaps.len() {
            Ok((progress, seen))
        } else {
            match self.single_layer_from(
                progress.states,
                gaps[at],
                gaps.len() - (at + 1),
                prune,
                0,
                seq![],
            ) {
                Err(error) => Err(error),
                Ok(expanded) => {
                    let original = self.original.len() as int;
                    self.single_from(
                        gaps,
                        prune,
                        at + 1,
                        advanced(progress, expanded, original, self.config.beam_width as int),
                        larger(
                            larger(
                                seen,
                                most_added(
                                    progress.states,
                                    original,
                                    progress.states.len() as int,
                                ),
                            ),
                            most_added(expanded, original, expanded.len() as int),
                        ),
                    )
                },
            }
        }
    }

    /// A search that has not looked at any gap.
    pub open spec fn beginning<R>(self, objective: nat, record: R) -> Progress<R> {
        Progress {
            states: seq![SearchStateView { route: self.original, objective, record }],
            evaluated: 1,
            retained: 1,
        }
    }

    /// The state that a search ends with, if one has the requested number of
    /// tracks.
    pub open spec fn winner<R>(self, states: Seq<SearchStateView<R>>) -> Option<
        SearchStateView<R>,
    > {
        match best_from(
            states,
            Some(self.original.len() + self.config.requested_added_tracks),
            0,
            None,
        ) {
            Some(at) => Some(states[at]),
            None => None,
        }
    }

    /// The selection that a finished search stands for.
    pub open spec fn single_outcome(
        self,
        outcome: Result<(Progress<Seq<GapDecisionView>>, nat), PreviewErrorView>,
        bound: int,
    ) -> Result<ExactSelectionView, PreviewErrorView> {
        match outcome {
            Err(error) => Err(error),
            Ok((progress, seen)) => {
                let winner = self.winner(progress.states);
                Ok(
                    ExactSelectionView {
                        requested_added_tracks: self.config.requested_added_tracks,
                        final_route: match winner {
                            Some(state) => Some(state.route),
                            None => None,
                        },
                        decisions: match winner {
                            Some(state) => state.record,
                            None => seq![],
                        },
                        endpoint_decisions: seq![],
                        stats: ExactSearchStats {
                            max_tracks_per_gap: 1,
                            evaluated_states: progress.evaluated as usize,
                            retained_states: progress.retained as usize,
                            maximum_additions_found: larger(
                                most_added(
                                    progress.states,
                                    self.original.len() as int,
                                    progress.states.len() as int,
                                ),
                                seen,
                            ) as usize,
                            structural_upper_bound: bound as usize,
                        },
                    },
                )
            },
        }
    }

    /// The selection with at most one track to a gap.
    pub open spec fn single(self, gaps: Seq<AutomaticGapView>) -> Result<
        ExactSelectionView,
        PreviewErrorView,
    > {
        let ordered = stable_sort(gaps, original_order());
        let bound = gap_bound(ordered, 1);
        let prune = self.config.requested_added_tracks <= bound;
        if self.config.candidate_limit == 0 {
            Err(
                PreviewErrorView::InvalidExactConfig(
                    "exact-count candidate limit must be at least one"@,
                ),
            )
        } else if self.config.beam_width == 0 {
            Err(
                PreviewErrorView::InvalidExactConfig(
                    "exact-count beam width must be at least one"@,
                ),
            )
        } else {
            match search_objective(self.bridge, self.original, self.original) {
                Err(error) => Err(error),
                Ok(objective) => self.single_outcome(
                    self.single_from(ordered, prune, 0, self.beginning(objective, seq![]), 0),
                    bound,
                ),
            }
        }
    }
}

// Running a search.

/// The noted decisions of a state.
pub struct Decisions {
    pub list: Vec<GapDecision>,
}

impl View for Decisions {
    type V = Seq<GapDecisionView>;

    open spec fn view(&self) -> Seq<GapDecisionView> {
        views(self.list@)
    }
}

/// Whether a state's route has the original tracks and at most `room` more.
pub open spec fn within<R>(original: int, room: int) -> spec_fn(SearchStateView<R>) -> bool {
    |state: SearchStateView<R>| original <= state.route.len() <= original + room
}

pub proof fn lemma_within<R: View>(states: Seq<SearchState<R>>, original: int, room: int)
    requires
        all_hold(views(states), within::<R::V>(original, room)),
    ensures
        forall|i: int|
            0 <= i < states.len() ==> original <= (#[trigger] states[i]).route@.len() <= original
                + room,
{
    assert forall|i: int| 0 <= i < states.len() implies original <= (
    #[trigger] states[i]).route@.len() <= original + room by {
        assert(within::<R::V>(original, room)(views(states)[i]));
    }
}

pub proof fn lemma_all_hold_add<V>(left: Seq<V>, right: Seq<V>, property: spec_fn(V) -> bool)
    requires
        all_hold(left, property),
        all_hold(right, property),
    ensures
        all_hold(left + right, property),
{
    let both = left + right;
    assert forall|i: int| 0 <= i < both.len() implies property(#[trigger] both[i]) by {
        if i < left.len() {
            assert(property(left[i]));
        } else {
            assert(property(right[i - left.len()]));
        }
    }
}

pub proof fn lemma_all_hold_push<V>(items: Seq<V>, item: V, property: spec_fn(V) -> bool)
    requires
        all_hold(items, property),
        property(item),
    ensures
        all_hold(items.push(item), property),
{
    let all = items.push(item);
    assert forall|i: int| 0 <= i < all.len() implies property(#[trigger] all[i]) by {
        if i < items.len() {
            assert(property(items[i]));
        }
    }
}

/// Whether an evaluation is that of its candidate in front of the track at a
/// position of a route.
pub open spec fn weighed(
    bridge: BridgeModel,
    route: Seq<usize>,
    at: int,
    evaluation: BridgeCandidateEvaluation,
) -> bool {
    exists|matrix: Option<ContextMatrixView>| #[trigger]
        bridge.evaluation(route, at, evaluation.candidate, matrix) == Ok::<
            BridgeCandidateEvaluation,
            crate::bridge::BridgeError,
        >(evaluation)
}

/// Whether an evaluation is that of its candidate under the matrix of the gap in
/// front of the track at a position.
pub open spec fn weighed_in_gap(
    bridge: BridgeModel,
    route: Seq<usize>,
    at: int,
    evaluation: BridgeCandidateEvaluation,
) -> bool {
    bridge.gap_matrix(route, at) matches Ok(matrix) && bridge.evaluation(
        route,
        at,
        evaluation.candidate,
        matrix,
    ) == Ok::<BridgeCandidateEvaluation, crate::bridge::BridgeError>(evaluation)
}

/// The candidates that are followed up are accepted and truly evaluated.
pub proof fn lemma_followed(
    model: ExactModel,
    route: Seq<usize>,
    at: usize,
    semantics: Seq<CandidateSemanticsView>,
    matrix: Option<ContextMatrixView>,
    acceptance: EvolvingAcceptance,
)
    requires
        model.config.variation_percent <= 100,
    ensures
        evolving_ranked(
            model.bridge,
            route,
            at,
            semantics,
            matrix,
            model.config.guide(),
            acceptance,
        ) matches Ok(ranked) ==> forall|i: int|
            0 <= i < model.followed(ranked, acceptance).len() ==> {
                let evaluation = #[trigger] model.followed(ranked, acceptance)[i];
                &&& accepts(acceptance, evaluation, model.bridge.config)
                &&& weighed(model.bridge, route, at as int, evaluation)
                &&& model.bridge.evaluation(
                    route,
                    at as int,
                    evaluation.candidate,
                    matrix,
                ) == Ok::<BridgeCandidateEvaluation, crate::bridge::BridgeError>(evaluation)
                &&& numbers_of(semantics).contains(evaluation.candidate)
            },
{
    let guidance = model.config.guide();
    lemma_evolving_members(model.bridge, route, at, semantics, matrix, guidance, acceptance);
    if let Ok(ranked) = evolving_ranked(
        model.bridge,
        route,
        at,
        semantics,
        matrix,
        guidance,
        acceptance,
    ) {
        let all = accepted_upto(ranked, acceptance, model.bridge.config, ranked.len() as int);
        lemma_accepted_upto(ranked, acceptance, model.bridge.config, ranked.len() as int);
        let followed = model.followed(ranked, acceptance);
        assert forall|i: int| 0 <= i < followed.len() implies {
            let evaluation = #[trigger] followed[i];
            &&& accepts(acceptance, evaluation, model.bridge.config)
            &&& weighed(model.bridge, route, at as int, evaluation)
            &&& model.bridge.evaluation(route, at as int, evaluation.candidate, matrix) == Ok::<
                BridgeCandidateEvaluation,
                crate::bridge::BridgeError,
            >(evaluation)
            &&& numbers_of(semantics).contains(evaluation.candidate)
        } by {
            assert(followed[i] == all[i]);
            assert(ranked.contains(all[i]));
            let j = choose|j: int| 0 <= j < ranked.len() && ranked[j] == followed[i];
            assert(numbers_of(semantics).contains(ranked[j].candidate));
        }
    }
}

impl ExactModel {
    proof fn lemma_bridged_from(
        self,
        state: DecidedState,
        gap: AutomaticGapView,
        at: int,
        followed: Seq<BridgeCandidateEvaluation>,
        next: int,
        done: Seq<DecidedState>,
        property: spec_fn(DecidedState) -> bool,
    )
        requires
            0 <= next,
            all_hold(done, property),
            forall|i: int|
                0 <= i < followed.len() ==> (self.bridging(state, gap, at, #[trigger] followed[i])
                    matches Ok(bridged) ==> property(bridged)),
        ensures
            self.bridged_from(state, gap, at, followed, next, done) matches Ok(states) ==> all_hold(
                states,
                property,
            ),
        decreases followed.len() - next,
    {
        if next < followed.len() {
            if let Ok(bridged) = self.bridging(state, gap, at, followed[next]) {
                lemma_all_hold_push(done, bridged, property);
                self.lemma_bridged_from(
                    state,
                    gap,
                    at,
                    followed,
                    next + 1,
                    done.push(bridged),
                    property,
                );
            }
        }
    }

    /// What holds of a state with the gap left alone, and with every accepted
    /// candidate in it, holds of every state that it leads to.
    pub proof fn lemma_single_steps(
        self,
        state: DecidedState,
        gap: AutomaticGapView,
        remaining: int,
        prune: bool,
        property: spec_fn(DecidedState) -> bool,
    )
        requires
            self.config.variation_percent <= 100,
            forall|at: int|
                gap_position(state.route, gap) == Some(at) ==> property(
                    #[trigger] self.skipping(state, gap, at),
                ),
            state.route.len() - self.original.len() < self.config.requested_added_tracks
                ==> forall|at: int, evaluation: BridgeCandidateEvaluation|
                gap_position(state.route, gap) == Some(at) && evaluation.accepted && weighed(
                    self.bridge,
                    state.route,
                    at,
                    evaluation,
                ) && weighed_in_gap(self.bridge, state.route, at, evaluation) && numbers_of(
                    gap.semantics.candidates,
                ).contains(evaluation.candidate) ==> (
                #[trigger] self.bridging(state, gap, at, evaluation) matches Ok(bridged)
                    ==> property(bridged)),
            state.route.len() <= usize::MAX,
        ensures
            self.single_steps(state, gap, remaining, prune) matches Ok(states) ==> all_hold(
                states,
                property,
            ),
    {
        crate::preview::lemma_adjacent(state.route, gap.left, gap.right, 0);
        if let Some(at) = gap_position(state.route, gap) {
            let added = state.route.len() - self.original.len();
            let skipped = if !prune || added + remaining >= self.config.requested_added_tracks {
                seq![self.skipping(state, gap, at)]
            } else {
                seq![]
            };
            assert(all_hold(skipped, property));
            if added < self.config.requested_added_tracks && gap.semantics.candidates.len() > 0 {
                if let Ok(matrix) = self.bridge.gap_matrix(state.route, at) {
                    if let Ok(ranked) = evolving_ranked(
                        self.bridge,
                        state.route,
                        at as usize,
                        gap.semantics.candidates,
                        matrix,
                        self.config.guide(),
                        EvolvingAcceptance::FullBridge,
                    ) {
                        let followed = self.followed(ranked, EvolvingAcceptance::FullBridge);
                        lemma_followed(
                            self,
                            state.route,
                            at as usize,
                            gap.semantics.candidates,
                            matrix,
                            EvolvingAcceptance::FullBridge,
                        );
                        assert forall|i: int| 0 <= i < followed.len() implies (self.bridging(
                            state,
                            gap,
                            at,
                            #[trigger] followed[i],
                        ) matches Ok(bridged) ==> property(bridged)) by {
                            assert(followed[i].accepted);
                            let bridged = self.bridging(state, gap, at, followed[i]);
                        }
                        self.lemma_bridged_from(state, gap, at, followed, 0, skipped, property);
                    }
                }
            }
        }
    }
}

/// Follows up the best accepted candidates.
pub fn follow_up(
    ranked: &Vec<BridgeCandidateEvaluation>,
    acceptance: EvolvingAcceptance,
    config: &crate::bridge::BridgeConfig,
    limit: usize,
) -> (followed: Vec<BridgeCandidateEvaluation>)
    ensures
        followed@ == first_few(
            accepted_upto(ranked@, acceptance, *config, ranked@.len() as int),
            limit as int,
        ),
        forall|i: int|
            0 <= i < followed@.len() ==> accepts(acceptance, #[trigger] followed@[i], *config)
                && ranked@.contains(followed@[i]),
{
    let mut followed: Vec<BridgeCandidateEvaluation> = Vec::new();
    let mut at: usize = 0;
    while at < ranked.len()
        invariant
            at <= ranked@.len(),
            followed@ =~= first_few(
                accepted_upto(ranked@, acceptance, *config, at as int),
                limit as int,
            ),
        decreases ranked@.len() - at,
    {
        if acceptance.accepts(&ranked[at], config) && followed.len() < limit {
            followed.push(ranked[at]);
        }
        at += 1;
    }
    proof {
        lemma_accepted_upto(ranked@, acceptance, *config, ranked@.len() as int);
        let all = accepted_upto(ranked@, acceptance, *config, ranked@.len() as int);
        assert forall|i: int| 0 <= i < followed@.len() implies accepts(
            acceptance,
            #[trigger] followed@[i],
            *config,
        ) && ranked@.contains(followed@[i]) by {
            assert(followed@[i] == all[i]);
        }
    }
    followed
}

impl<
    'a,
    P: Fn(&[usize], u16) -> Result<(), ContextualError>,
    D: Fn(&[usize], u16, &[usize], usize) -> u64,
> ExactSearch<'a, P, D> {
    fn add_single_steps(
        &self,
        state: &SearchState<Decisions>,
        gap: &AutomaticGap,
        remaining: usize,
        prune: bool,
        expanded: &mut Vec<SearchState<Decisions>>,
    ) -> (done: Result<(), PreviewError>)
        requires
            self.valid(),
            self.original@.len() <= state.route@.len(),
            state.route@.len() < usize::MAX - 1,
        ensures
            match self.model().single_steps(state@, gap@, remaining as int, prune) {
                Ok(steps) => done is Ok && views(final(expanded)@) == views(old(expanded)@)
                    + steps,
                Err(error) => done is Err && done->Err_0@ == error,
            },
    {
        let ghost model = self.model();
        let ghost before = views(expanded@);
        let ghost from = state@;
        let at: usize = match route_position(state.route.as_slice(), gap) {
            None => {
                return Err(PreviewError::InvalidOriginalGap(gap.original_position));
            },
            Some(at) => at,
        };
        let added: usize = state.route.len() - self.original.len();
        let requested: usize = self.config.requested_added_tracks;
        let ghost mut done: Seq<DecidedState> = seq![];
        assert(before + done =~= before);
        if !prune || added >= requested || remaining >= requested - added {
            let mut list = copied_decisions(&state.record.list);
            let decision = exact_decision(gap, at, DecisionReason::NotSelected, None);
            proof {
                lemma_views_push(list@, decision);
            }
            list.push(decision);
            let skipped = SearchState {
                route: copied(state.route.as_slice()),
                objective: state.objective,
                record: Decisions { list },
            };
            proof {
                assert(skipped@ =~= model.skipping(from, gap@, at as int));
                lemma_views_push(expanded@, skipped);
                done = seq![skipped@];
                assert(before + done =~= before.push(skipped@));
            }
            expanded.push(skipped);
        }
        let ghost skipped = done;
        if added < requested && gap.semantics.candidates.len() > 0 {
            let matrix = match gap_context_matrix(
                state.route.as_slice(),
                at,
                self.scoring.tracks,
                self.scoring.scorer,
                self.scoring.config,
            ) {
                Err(error) => {
                    return Err(PreviewError::Scoring(error));
                },
                Ok(matrix) => matrix,
            };
            let ranked = match rank_for_evolving_route(
                state.route.as_slice(),
                at,
                gap.semantics.candidates.as_slice(),
                self.scoring,
                matrix.as_ref(),
                &self.config.guidance(),
                EvolvingAcceptance::FullBridge,
            ) {
                Err(error) => {
                    return Err(error);
                },
                Ok(ranked) => ranked,
            };
            let followed = follow_up(
                &ranked,
                EvolvingAcceptance::FullBridge,
                self.scoring.config,
                self.config.candidate_limit,
            );
            let ghost candidates = gap@.semantics.candidates;
            proof {
                lemma_evolving_members(
                    model.bridge,
                    from.route,
                    at,
                    candidates,
                    matrix_of(matrix),
                    model.config.guide(),
                    EvolvingAcceptance::FullBridge,
                );
                assert forall|i: int| 0 <= i < followed@.len() implies numbers_of(
                    candidates,
                ).contains((#[trigger] followed@[i]).candidate) by {
                    assert(ranked@.contains(followed@[i]));
                    let j = choose|j: int| 0 <= j < ranked@.len() && ranked@[j] == followed@[i];
                    assert(numbers_of(candidates).contains(ranked@[j].candidate));
                }
            }
            let mut next: usize = 0;
            while next < followed.len()
                invariant
                    next <= followed@.len(),
                    self.valid(),
                    model == self.model(),
                    from == state@,
                    candidates == gap@.semantics.candidates,
                    0 < at < state.route@.len(),
                    state.route@.len() < usize::MAX - 1,
                    forall|i: int|
                        0 <= i < followed@.len() ==> numbers_of(candidates).contains(
                            (#[trigger] followed@[i]).candidate,
                        ),
                    views(expanded@) == before + done,
                    model.bridged_from(from, gap@, at as int, followed@, 0, skipped)
                        == model.bridged_from(
                        from,
                        gap@,
                        at as int,
                        followed@,
                        next as int,
                        done,
                    ),
                    match model.single_steps(from, gap@, remaining as int, prune) {
                        Ok(steps) => Ok::<Seq<DecidedState>, PreviewErrorView>(steps)
                            == model.bridged_from(from, gap@, at as int, followed@, 0, skipped),
                        Err(error) => Err::<Seq<DecidedState>, PreviewErrorView>(error)
                            == model.bridged_from(from, gap@, at as int, followed@, 0, skipped),
                    },
                decreases followed@.len() - next,
            {
                let evaluation = followed[next];
                proof {
                    crate::preview::lemma_first_entry(candidates, evaluation.candidate, 0);
                    assert(numbers_of(candidates).contains(followed@[next as int].candidate));
                    let i = choose|i: int|
                        0 <= i < candidates.len() && numbers_of(candidates)[i]
                            == evaluation.candidate;
                    assert(candidates[i].candidate == evaluation.candidate);
                }
                if let Some(entry) = find_entry(
                    gap.semantics.candidates.as_slice(),
                    evaluation.candidate,
                ) {
                    assert(candidates[entry as int] == gap.semantics.candidates@[entry as int]@);
                    let semantics = gap.semantics.candidates[entry].clone();
                    let mut route = copied(state.route.as_slice());
                    route.insert(at, evaluation.candidate);
                    let objective: u128 = match gap_search_objective(
                        route.as_slice(),
                        self.original,
                        self.scoring,
                    ) {
                        Err(error) => {
                            return Err(error);
                        },
                        Ok(objective) => objective,
                    };
                    let mut list = copied_decisions(&state.record.list);
                    let decision = exact_decision(
                        gap,
                        at,
                        DecisionReason::Selected,
                        Some(SelectedBridge { semantics, evaluation }),
                    );
                    proof {
                        lemma_views_push(list@, decision);
                    }
                    list.push(decision);
                    let bridged = SearchState { route, objective, record: Decisions { list } };
                    proof {
                        assert(model.bridging(from, gap@, at as int, evaluation) == Ok::<
                            DecidedState,
                            PreviewErrorView,
                        >(bridged@));
                        lemma_views_push(expanded@, bridged);
                        assert((before + done).push(bridged@) =~= before + done.push(bridged@));
                        done = done.push(bridged@);
                    }
                    expanded.push(bridged);
                }
                next += 1;
            }
        }
        Ok(())
    }
}

impl ExactModel {
    /// What holds of every state that any of the states leads to holds of the
    /// whole next layer.
    pub proof fn lemma_single_layer(
        self,
        states: Seq<DecidedState>,
        gap: AutomaticGapView,
        remaining: int,
        prune: bool,
        at: int,
        done: Seq<DecidedState>,
        property: spec_fn(DecidedState) -> bool,
    )
        requires
            0 <= at,
            all_hold(done, property),
            forall|i: int|
                0 <= i < states.len() ==> (self.single_steps(
                    #[trigger] states[i],
                    gap,
                    remaining,
                    prune,
                ) matches Ok(steps) ==> all_hold(steps, property)),
        ensures
            self.single_layer_from(states, gap, remaining, prune, at, done) matches Ok(expanded)
                ==> all_hold(expanded, property),
        decreases states.len() - at,
    {
        if at < states.len() {
            if let Ok(steps) = self.single_steps(states[at], gap, remaining, prune) {
                lemma_all_hold_add(done, steps, property);
                self.lemma_single_layer(
                    states,
                    gap,
                    remaining,
                    prune,
                    at + 1,
                    done + steps,
                    property,
                );
            }
        }
    }

    proof fn lemma_single_room(
        self,
        states: Seq<DecidedState>,
        gap: AutomaticGapView,
        remaining: int,
        prune: bool,
        room: int,
    )
        requires
            self.config.variation_percent <= 100,
            all_hold(states, within(self.original.len() as int, room)),
            self.original.len() + room <= usize::MAX,
        ensures
            self.single_layer_from(states, gap, remaining, prune, 0, seq![]) matches Ok(expanded)
                ==> all_hold(expanded, within(self.original.len() as int, room + 1)),
    {
        let original = self.original.len() as int;
        let after = within::<Seq<GapDecisionView>>(original, room + 1);
        assert forall|i: int| 0 <= i < states.len() implies (self.single_steps(
            #[trigger] states[i],
            gap,
            remaining,
            prune,
        ) matches Ok(steps) ==> all_hold(steps, after)) by {
            let state = states[i];
            assert(within::<Seq<GapDecisionView>>(original, room)(state));
            crate::preview::lemma_adjacent(state.route, gap.left, gap.right, 0);
            self.lemma_single_steps(state, gap, remaining, prune, after);
        }
        self.lemma_single_layer(states, gap, remaining, prune, 0, seq![], after);
    }
}

/// The larger of two counts.
pub fn larger_count(a: usize, b: usize) -> (larger_one: usize)
    ensures
        larger_one == larger(a as nat, b as nat),
{
    if a > b {
        a
    } else {
        b
    }
}

impl<
    'a,
    P: Fn(&[usize], u16) -> Result<(), ContextualError>,
    D: Fn(&[usize], u16, &[usize], usize) -> u64,
> ExactSearch<'a, P, D> {
    fn single_layer(
        &self,
        states: &Vec<SearchState<Decisions>>,
        gap: &AutomaticGap,
        remaining: usize,
        prune: bool,
    ) -> (expanded: Result<Vec<SearchState<Decisions>>, PreviewError>)
        requires
            self.valid(),
            forall|i: int|
                0 <= i < states@.len() ==> self.original@.len() <= (
                #[trigger] states@[i]).route@.len() < usize::MAX - 1,
        ensures
            match self.model().single_layer_from(
                views(states@),
                gap@,
                remaining as int,
                prune,
                0,
                seq![],
            ) {
                Ok(layer) => expanded is Ok && views(expanded->Ok_0@) == layer,
                Err(error) => expanded is Err && expanded->Err_0@ == error,
            },
    {
        let ghost model = self.model();
        let ghost all = views(states@);
        let mut expanded: Vec<SearchState<Decisions>> = Vec::new();
        let mut at: usize = 0;
        assert(views(expanded@) =~= seq![]);
        while at < states.len()
            invariant
                at <= states@.len(),
                self.valid(),
                model == self.model(),
                all == views(states@),
                forall|i: int|
                    0 <= i < states@.len() ==> self.original@.len() <= (
                    #[trigger] states@[i]).route@.len() < usize::MAX - 1,
                model.single_layer_from(all, gap@, remaining as int, prune, 0, seq![])
                    == model.single_layer_from(
                    all,
                    gap@,
                    remaining as int,
                    prune,
                    at as int,
                    views(expanded@),
                ),
            decreases states@.len() - at,
        {
            assert(all[at as int] == states@[at as int]@);
            match self.add_single_steps(&states[at], gap, remaining, prune, &mut expanded) {
                Err(error) => {
                    return Err(error);
                },
                Ok(_) => {},
            }
            at += 1;
        }
        Ok(expanded)
    }
}

/// Chooses an exact number of bridges, at most one for every gap.
pub fn select_exact_count_single_gap_bridges<
    P: Fn(&[usize], u16) -> Result<(), ContextualError>,
    D: Fn(&[usize], u16, &[usize], usize) -> u64,
>(search: &ExactSearch<'_, P, D>, gaps: &[AutomaticGap]) -> (selection: Result<
    ExactSelection,
    PreviewError,
>)
    requires
        search.valid(),
        search.original@.len() + gaps@.len() < usize::MAX - 2,
    ensures
        match search.model().single(views(gaps@)) {
            Ok(found) => selection is Ok && selection->Ok_0@ == found,
            Err(error) => selection is Err && selection->Err_0@ == error,
        },
        selection matches Ok(found) ==> (found.final_route matches Some(route) ==> route@.len()
            <= search.original@.len() + gaps@.len()),
{
    if search.config.candidate_limit == 0 {
        return Err(
            PreviewError::InvalidExactConfig("exact-count candidate limit must be at least one"),
        );
    }
    if search.config.beam_width == 0 {
        return Err(PreviewError::InvalidExactConfig("exact-count beam width must be at least one"));
    }
    let ghost model = search.model();
    let original: usize = search.original.len();
    let width: usize = search.config.beam_width;
    let requested: usize = search.config.requested_added_tracks;
    let ordered = ordered_gaps(gaps);
    let ghost all = views(ordered@);
    proof {
        crate::sorting::stable_sort_keeps_items(views(gaps@), original_order());
    }
    let bound: usize = bound_of_gaps(ordered.as_slice(), 1);
    let prune: bool = requested <= bound;
    let objective: u128 = match gap_search_objective(
        search.original,
        search.original,
        search.scoring,
    ) {
        Err(error) => {
            return Err(error);
        },
        Ok(objective) => objective,
    };
    let first = SearchState {
        route: copied(search.original),
        objective,
        record: Decisions { list: Vec::new() },
    };
    let ghost start = model.beginning(objective as nat, Seq::<GapDecisionView>::empty());
    let mut states: Vec<SearchState<Decisions>> = Vec::new();
    proof {
        assert(first.record@ =~= Seq::<GapDecisionView>::empty());
        assert(views(states@) =~= seq![]);
        lemma_views_push(states@, first);
    }
    states.push(first);
    assert(views(states@) =~= start.states);
    let mut evaluated: usize = 1;
    let mut retained: usize = 1;
    let mut seen: usize = 0;
    let mut at: usize = 0;
    assert(all_hold(start.states, within(original as int, 0)));
    while at < ordered.len()
        invariant
            at <= ordered@.len(),
            search.valid(),
            model == search.model(),
            all == views(ordered@),
            ordered@.len() == gaps@.len(),
            original == search.original@.len(),
            width == search.config.beam_width,
            original + ordered@.len() < usize::MAX - 2,
            model.single(views(gaps@)) == model.single_outcome(
                model.single_from(all, prune, 0, start, 0),
                gap_bound(all, 1),
            ),
            all_hold(views(states@), within(original as int, at as int)),
            model.single_from(all, prune, 0, start, 0) == model.single_from(
                all,
                prune,
                at as int,
                Progress {
                    states: views(states@),
                    evaluated: evaluated as int,
                    retained: retained as int,
                },
                seen as nat,
            ),
        decreases ordered@.len() - at,
    {
        let gap = &ordered[at];
        assert(all[at as int] == gap@);
        let remaining: usize = ordered.len() - (at + 1);
        let ghost before = views(states@);
        proof {
            lemma_within(states@, original as int, at as int);
            model.lemma_single_room(before, gap@, remaining as int, prune, at as int);
        }
        let expanded = match search.single_layer(&states, gap, remaining, prune) {
            Err(error) => {
                return Err(error);
            },
            Ok(expanded) => expanded,
        };
        let ghost layer = views(expanded@);
        proof {
            assert(all_hold(layer, within(original as int, at + 1)));
            lemma_within(expanded@, original as int, at + 1);
            lemma_kept_hold(layer, within(original as int, at + 1), original as int, width as int);
        }
        seen = larger_count(
            larger_count(seen, find_most_added(&states, original)),
            find_most_added(&expanded, original),
        );
        evaluated = evaluated.saturating_add(expanded.len());
        states = keep_states(expanded, original, width);
        retained = retained.saturating_add(states.len());
        at += 1;
    }
    let most: usize = larger_count(
        {
            proof {
                lemma_within(states@, original as int, at as int);
            }
            find_most_added(&states, original)
        },
        seen,
    );
    let stats = ExactSearchStats {
        max_tracks_per_gap: 1,
        evaluated_states: evaluated,
        retained_states: retained,
        maximum_additions_found: most,
        structural_upper_bound: bound,
    };
    let found: Option<usize> = match original.checked_add(requested) {
        Some(length) => find_best(&states, Some(length)),
        None => None,
    };
    proof {
        lemma_best(views(states@), Some(original + requested), 0, None);
        if original + requested > usize::MAX {
            if let Some(i) = best_from(views(states@), Some(original + requested), 0, None) {
                assert(within::<Seq<GapDecisionView>>(original as int, at as int)(
                    views(states@)[i],
                ));
            }
        }
    }
    match found {
        Some(index) => {
            let ghost ended = views(states@);
            assert(ended[index as int] == states@[index as int]@);
            assert(within::<Seq<GapDecisionView>>(original as int, at as int)(ended[index as int]));
            let state = states.remove(index);
            let ending: Vec<EndpointDecision> = Vec::new();
            assert(views(ending@) =~= seq![]);
            Ok(
                ExactSelection {
                    requested_added_tracks: requested,
                    final_route: Some(state.route),
                    decisions: state.record.list,
                    endpoint_decisions: ending,
                    stats,
                },
            )
        },
        None => {
            let none: Vec<GapDecision> = Vec::new();
            let ending: Vec<EndpointDecision> = Vec::new();
            assert(views(none@) =~= seq![]);
            assert(views(ending@) =~= seq![]);
            Ok(
                ExactSelection {
                    requested_added_tracks: requested,
                    final_route: None,
                    decisions: none,
                    endpoint_decisions: ending,
                    stats,
                },
            )
        },
    }
}

} // verus!
