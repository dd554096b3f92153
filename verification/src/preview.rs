//! Choosing bridges for the gaps of a playlist that is kept in order.

use crate::bridge::{
    distance_in_context, gap_context_matrix, matrix_of, matrix_view, rank_candidates_in_context,
    BridgeCandidateEvaluation, BridgeConfig, BridgeError, BridgeModel, CandidateScoringContext,
    FrozenReference, GapContextMode,
};
use crate::contextual::{AdaptiveScorer, ContextMatrix, ContextMatrixView, ContextualError};
use crate::route::{
    evaluate_adaptive_sequence, sequence_metrics, RouteError, RouteErrorView, RouteTrack,
};
use crate::semantic::{
    last_finding, CandidateSemantics, CandidateSemanticsView, GapEvidence, GapEvidenceView,
    SemanticPool,
};
use crate::sequences::{copied, find_position, lemma_views_push, position, views};
use crate::sorting::{sort_by, sort_views, stable_sort};
use crate::text::{decimal, text_around, text_with_number};
use crate::units::exceeds;
use crate::variation::{pool_length, variation_key, variation_key_of, varied_pool_length};
use vstd::prelude::*;

verus! {

/// The most tracks that are ever put into one gap.
pub const MAX_EXACT_TRACKS_PER_GAP: usize = 8;

// Requests.

/// A gap of the original playlist and the evidence for its candidates.
#[verifier::ext_equal]
pub struct AutomaticGapView {
    pub original_position: usize,
    pub left: usize,
    pub right: usize,
    pub direct_distance: u64,
    pub direct_percentile: u64,
    pub semantics: GapEvidenceView,
}

/// A gap of the original playlist and the evidence for its candidates.
#[derive(Debug, PartialEq, Eq)]
pub struct AutomaticGap {
    pub original_position: usize,
    pub left: usize,
    pub right: usize,
    pub direct_distance: u64,
    pub direct_percentile: u64,
    pub semantics: GapEvidence,
}

impl View for AutomaticGap {
    type V = AutomaticGapView;

    open spec fn view(&self) -> AutomaticGapView {
        AutomaticGapView {
            original_position: self.original_position,
            left: self.left,
            right: self.right,
            direct_distance: self.direct_distance,
            direct_percentile: self.direct_percentile,
            semantics: self.semantics@,
        }
    }
}

impl Clone for AutomaticGap {
    fn clone(&self) -> (copy: Self)
        ensures
            copy@ == self@,
    {
        AutomaticGap {
            original_position: self.original_position,
            left: self.left,
            right: self.right,
            direct_distance: self.direct_distance,
            direct_percentile: self.direct_percentile,
            semantics: self.semantics.clone(),
        }
    }
}

/// How bridges are chosen automatically.
#[derive(Clone, Copy, Debug, PartialEq, Eq)]
pub struct AutomaticSelectionConfig {
    pub max_added_tracks: usize,
    pub trigger_percentile: i64,
    pub track_guidance_percent: u8,
    pub artist_guidance_percent: u8,
    pub variation_percent: u8,
    pub generation_seed: u64,
}

/// How an exact number of bridges is chosen.
#[derive(Clone, Copy, Debug, PartialEq, Eq)]
pub struct ExactSelectionConfig {
    pub requested_added_tracks: usize,
    pub candidate_limit: usize,
    pub beam_width: usize,
    pub max_tracks_per_gap: usize,
    pub track_guidance_percent: u8,
    pub artist_guidance_percent: u8,
    pub variation_percent: u8,
    pub generation_seed: u64,
}

/// How much evidence and chance decide among acoustic equals.
#[derive(Clone, Copy, Debug, Default, PartialEq, Eq)]
pub struct Guidance {
    pub track_percent: u8,
    pub artist_percent: u8,
    pub variation_percent: u8,
    pub seed: u64,
    pub minimum_pool: usize,
}

impl AutomaticSelectionConfig {
    /// The guidance of an automatic selection.
    pub open spec fn guide(self) -> Guidance {
        Guidance {
            track_percent: self.track_guidance_percent,
            artist_percent: self.artist_guidance_percent,
            variation_percent: self.variation_percent,
            seed: self.generation_seed,
            minimum_pool: 2,
        }
    }

    /// The guidance of an automatic selection.
    pub fn guidance(&self) -> (guidance: Guidance)
        ensures
            guidance == self.guide(),
    {
        Guidance {
            track_percent: self.track_guidance_percent,
            artist_percent: self.artist_guidance_percent,
            variation_percent: self.variation_percent,
            seed: self.generation_seed,
            minimum_pool: 2,
        }
    }
}

impl ExactSelectionConfig {
    /// The guidance of an exact selection.
    pub open spec fn guide(self) -> Guidance {
        Guidance {
            track_percent: self.track_guidance_percent,
            artist_percent: self.artist_guidance_percent,
            variation_percent: self.variation_percent,
            seed: self.generation_seed,
            minimum_pool: if self.candidate_limit == usize::MAX {
                usize::MAX
            } else {
                (self.candidate_limit + 1) as usize
            },
        }
    }

    /// The guidance of an exact selection.
    pub fn guidance(&self) -> (guidance: Guidance)
        ensures
            guidance == self.guide(),
    {
        Guidance {
            track_percent: self.track_guidance_percent,
            artist_percent: self.artist_guidance_percent,
            variation_percent: self.variation_percent,
            seed: self.generation_seed,
            minimum_pool: self.candidate_limit.saturating_add(1),
        }
    }
}

/// What scoring needs.
pub struct ExactScoringContext<'a, P, D> {
    pub tracks: &'a [RouteTrack],
    pub scorer: &'a AdaptiveScorer<P, D>,
    pub config: &'a BridgeConfig,
    pub reference: &'a FrozenReference,
}

impl<
    'a,
    P: Fn(&[usize], u16) -> Result<(), ContextualError>,
    D: Fn(&[usize], u16, &[usize], usize) -> u64,
> ExactScoringContext<'a, P, D> {
    /// What this context means.
    pub open spec fn model(&self) -> BridgeModel {
        BridgeModel {
            scoring: self.scorer.scoring(),
            tracks: self.tracks@,
            config: *self.config,
            reference: self.reference@,
        }
    }
}

// Decisions.

/// Why a gap or an end got a track or none.
#[derive(Clone, Copy, Debug, PartialEq, Eq, Structural)]
pub enum DecisionReason {
    Selected,
    BelowThreshold,
    BudgetExhausted,
    NoEligibleCandidate,
    RepeatConflict,
    AcousticRejected,
    NoImprovement,
    NotSelected,
}

/// A chosen bridge.
#[verifier::ext_equal]
pub struct SelectedBridgeView {
    pub semantics: CandidateSemanticsView,
    pub evaluation: BridgeCandidateEvaluation,
}

/// A chosen bridge.
#[derive(Debug, PartialEq, Eq)]
pub struct SelectedBridge {
    pub semantics: CandidateSemantics,
    pub evaluation: BridgeCandidateEvaluation,
}

impl View for SelectedBridge {
    type V = SelectedBridgeView;

    open spec fn view(&self) -> SelectedBridgeView {
        SelectedBridgeView { semantics: self.semantics@, evaluation: self.evaluation }
    }
}

/// The value of a bridge that may be missing.
pub open spec fn bridge_in(selected: Option<SelectedBridge>) -> Option<SelectedBridgeView> {
    match selected {
        Some(bridge) => Some(bridge@),
        None => None,
    }
}

/// What became of a gap.
#[verifier::ext_equal]
pub struct GapDecisionView {
    pub original_position: usize,
    pub route_position: usize,
    pub left: usize,
    pub right: usize,
    pub direct_distance: u64,
    pub direct_percentile: u64,
    pub semantic_pool: SemanticPool,
    pub reason: DecisionReason,
    pub selected: Option<SelectedBridgeView>,
}

/// What became of a gap.
#[derive(Debug, PartialEq, Eq)]
pub struct GapDecision {
    pub original_position: usize,
    pub route_position: usize,
    pub left: usize,
    pub right: usize,
    pub direct_distance: u64,
    pub direct_percentile: u64,
    pub semantic_pool: SemanticPool,
    pub reason: DecisionReason,
    pub selected: Option<SelectedBridge>,
}

impl View for GapDecision {
    type V = GapDecisionView;

    open spec fn view(&self) -> GapDecisionView {
        GapDecisionView {
            original_position: self.original_position,
            route_position: self.route_position,
            left: self.left,
            right: self.right,
            direct_distance: self.direct_distance,
            direct_percentile: self.direct_percentile,
            semantic_pool: self.semantic_pool,
            reason: self.reason,
            selected: bridge_in(self.selected),
        }
    }
}

impl Clone for GapDecision {
    fn clone(&self) -> (copy: Self)
        ensures
            copy@ == self@,
    {
        GapDecision {
            original_position: self.original_position,
            route_position: self.route_position,
            left: self.left,
            right: self.right,
            direct_distance: self.direct_distance,
            direct_percentile: self.direct_percentile,
            semantic_pool: self.semantic_pool,
            reason: self.reason,
            selected: match &self.selected {
                Some(bridge) => Some(
                    SelectedBridge {
                        semantics: bridge.semantics.clone(),
                        evaluation: bridge.evaluation,
                    },
                ),
                None => None,
            },
        }
    }
}

/// A copy of decisions.
pub fn copied_decisions(decisions: &Vec<GapDecision>) -> (copy: Vec<GapDecision>)
    ensures
        views(copy@) == views(decisions@),
{
    let mut copy: Vec<GapDecision> = Vec::new();
    let mut at: usize = 0;
    while at < decisions.len()
        invariant
            at <= decisions@.len(),
            views(copy@) =~= views(decisions@).take(at as int),
        decreases decisions@.len() - at,
    {
        let item = decisions[at].clone();
        proof {
            lemma_views_push(copy@, item);
        }
        copy.push(item);
        at += 1;
    }
    assert(views(copy@) =~= views(decisions@));
    copy
}

/// What an automatic selection comes to.
#[verifier::ext_equal]
pub struct AutomaticSelectionView {
    pub final_route: Seq<usize>,
    pub decisions: Seq<GapDecisionView>,
}

/// What an automatic selection comes to.
#[derive(Debug, PartialEq, Eq)]
pub struct AutomaticSelection {
    pub final_route: Vec<usize>,
    pub decisions: Vec<GapDecision>,
}

impl View for AutomaticSelection {
    type V = AutomaticSelectionView;

    open spec fn view(&self) -> AutomaticSelectionView {
        AutomaticSelectionView {
            final_route: self.final_route@,
            decisions: views(self.decisions@),
        }
    }
}

// Errors.

/// Why no selection comes back.
#[verifier::ext_equal]
pub enum PreviewErrorView {
    InvalidOriginalGap(usize),
    InvalidExactConfig(Seq<char>),
    FinalRouteInvalid(Seq<char>),
    Scoring(BridgeError),
    RouteScoring(RouteErrorView),
}

/// Why no selection comes back.
#[derive(Clone, Debug, PartialEq, Eq)]
pub enum PreviewError {
    InvalidOriginalGap(usize),
    InvalidExactConfig(&'static str),
    FinalRouteInvalid(&'static str),
    Scoring(BridgeError),
    RouteScoring(RouteError),
}

impl View for PreviewError {
    type V = PreviewErrorView;

    open spec fn view(&self) -> PreviewErrorView {
        match self {
            PreviewError::InvalidOriginalGap(position) => {
                PreviewErrorView::InvalidOriginalGap(*position)
            },
            PreviewError::InvalidExactConfig(message) => {
                PreviewErrorView::InvalidExactConfig(message@)
            },
            PreviewError::FinalRouteInvalid(message) => {
                PreviewErrorView::FinalRouteInvalid(message@)
            },
            PreviewError::Scoring(error) => PreviewErrorView::Scoring(*error),
            PreviewError::RouteScoring(error) => PreviewErrorView::RouteScoring(error@),
        }
    }
}

impl PreviewErrorView {
    /// The text of the message for this error.
    pub open spec fn text(self) -> Seq<char> {
        match self {
            PreviewErrorView::InvalidOriginalGap(position) => "original gap "@ + decimal(
                position as int,
            ) + " is absent from the evolving route"@,
            PreviewErrorView::InvalidExactConfig(message) => message,
            PreviewErrorView::FinalRouteInvalid(message) => {
                "exact-count final route is invalid: "@ + message + ""@
            },
            PreviewErrorView::Scoring(error) => "automatic bridge scoring failed: "@ + error.text()
                + ""@,
            PreviewErrorView::RouteScoring(error) => "exact-count route scoring failed: "@
                + error.text() + ""@,
        }
    }
}

impl PreviewError {
    /// Says what went wrong.
    pub fn message(&self) -> (text: String)
        ensures
            text@ == self@.text(),
    {
        match self {
            PreviewError::InvalidOriginalGap(position) => text_with_number(
                "original gap ",
                *position as u64,
                " is absent from the evolving route",
            ),
            PreviewError::InvalidExactConfig(message) => (*message).to_owned(),
            PreviewError::FinalRouteInvalid(message) => text_around(
                "exact-count final route is invalid: ",
                *message,
                "",
            ),
            PreviewError::Scoring(error) => text_around(
                "automatic bridge scoring failed: ",
                error.message().as_str(),
                "",
            ),
            PreviewError::RouteScoring(error) => text_around(
                "exact-count route scoring failed: ",
                error.message().as_str(),
                "",
            ),
        }
    }
}

// Gaps on a route.

/// The first place at or after `from` where `left` is directly followed by
/// `right`, or the length.
pub open spec fn adjacent_from(route: Seq<usize>, left: usize, right: usize, from: int) -> int
    decreases route.len() - from,
{
    if from + 1 >= route.len() {
        route.len() as int
    } else if route[from] == left && route[from + 1] == right {
        from
    } else {
        adjacent_from(route, left, right, from + 1)
    }
}

/// The position of a gap's right anchor where both anchors are neighbours.
pub open spec fn gap_position(route: Seq<usize>, gap: AutomaticGapView) -> Option<int> {
    let at = adjacent_from(route, gap.left, gap.right, 0);
    if at < route.len() {
        Some(at + 1)
    } else {
        None
    }
}

/// The neighbours are where they are found.
pub proof fn lemma_adjacent(route: Seq<usize>, left: usize, right: usize, from: int)
    requires
        0 <= from <= route.len(),
    ensures
        from <= adjacent_from(route, left, right, from) <= route.len(),
        adjacent_from(route, left, right, from) < route.len() ==> adjacent_from(
            route,
            left,
            right,
            from,
        ) + 1 < route.len() && route[adjacent_from(route, left, right, from)] == left
            && route[adjacent_from(route, left, right, from) + 1] == right,
    decreases route.len() - from,
{
    if from + 1 < route.len() && !(route[from] == left && route[from + 1] == right) {
        lemma_adjacent(route, left, right, from + 1);
    }
}

/// Finds a gap whose anchors are neighbours.
pub fn route_position(route: &[usize], gap: &AutomaticGap) -> (found: Option<usize>)
    ensures
        match gap_position(route@, gap@) {
            Some(at) => found is Some && found->Some_0 == at && 0 < at < route@.len(),
            None => found is None,
        },
{
    proof {
        lemma_adjacent(route@, gap.left, gap.right, 0);
    }
    let mut at: usize = 0;
    while at < route.len() && at + 1 < route.len()
        invariant
            at <= route@.len(),
            adjacent_from(route@, gap.left, gap.right, 0) == adjacent_from(
                route@,
                gap.left,
                gap.right,
                at as int,
            ),
        decreases route@.len() - at,
    {
        if route[at] == gap.left && route[at + 1] == gap.right {
            return Some(at + 1);
        }
        at += 1;
    }
    None
}

/// The position of a gap's right anchor behind its left one.
pub open spec fn right_position(route: Seq<usize>, gap: AutomaticGapView) -> Option<int> {
    let left = position(route, gap.left);
    let right = position(route, gap.right);
    if left < right && right < route.len() {
        Some(right)
    } else {
        None
    }
}

/// Finds the right end of a gap.
pub fn gap_right_position(route: &[usize], gap: &AutomaticGap) -> (found: Option<usize>)
    ensures
        match right_position(route@, gap@) {
            Some(at) => found is Some && found->Some_0 == at && 0 < at < route@.len(),
            None => found is None,
        },
{
    proof {
        crate::sequences::lemma_position_of_member(route@, gap.left);
        crate::sequences::lemma_position_of_member(route@, gap.right);
    }
    let left: usize = match find_position(route, gap.left) {
        Some(left) => left,
        None => {
            return None;
        },
    };
    match find_position(route, gap.right) {
        Some(right) => if left < right {
            Some(right)
        } else {
            None
        },
        None => None,
    }
}

// Ranking with guidance.

/// When a candidate counts as accepted.
#[derive(Clone, Copy, Debug, PartialEq, Eq, Structural)]
pub enum EvolvingAcceptance {
    FullBridge,
    ReachableFromLeft,
}

/// Whether a candidate counts as accepted.
pub open spec fn accepts(
    acceptance: EvolvingAcceptance,
    evaluation: BridgeCandidateEvaluation,
    config: BridgeConfig,
) -> bool {
    match acceptance {
        EvolvingAcceptance::FullBridge => evaluation.accepted,
        EvolvingAcceptance::ReachableFromLeft => evaluation.repeat_safe
            && evaluation.left_percentile <= config.max_leg_percentile,
    }
}

impl EvolvingAcceptance {
    /// Decides whether a candidate counts as accepted.
    pub fn accepts(self, evaluation: &BridgeCandidateEvaluation, config: &BridgeConfig) -> (accepted:
        bool)
        ensures
            accepted == accepts(self, *evaluation, *config),
    {
        match self {
            EvolvingAcceptance::FullBridge => evaluation.accepted,
            EvolvingAcceptance::ReachableFromLeft => evaluation.repeat_safe
                && evaluation.left_percentile <= config.max_leg_percentile,
        }
    }
}

/// The numbers of candidates.
pub open spec fn numbers_of(semantics: Seq<CandidateSemanticsView>) -> Seq<usize> {
    Seq::new(semantics.len(), |i: int| semantics[i].candidate)
}

/// A candidate's percentile with guidance.
pub open spec fn guided_percentile(
    semantics: Seq<CandidateSemanticsView>,
    guidance: Guidance,
    candidate: usize,
    percentile: u64,
) -> int {
    match last_finding(semantics, candidate, semantics.len() as int) {
        Some(found) => found.adjusted_percentile(
            percentile as int,
            guidance.track_percent,
            guidance.artist_percent,
        ),
        None => percentile as int,
    }
}

/// Whether a candidate ranks no later than another under guidance. Acceptance
/// comes first, so that guidance never lifts a rejected candidate over an
/// accepted one.
pub open spec fn guided_at_least(
    config: BridgeConfig,
    semantics: Seq<CandidateSemanticsView>,
    guidance: Guidance,
    acceptance: EvolvingAcceptance,
    a: BridgeCandidateEvaluation,
    b: BridgeCandidateEvaluation,
) -> bool {
    let a_max = guided_percentile(semantics, guidance, a.candidate, a.max_percentile);
    let b_max = guided_percentile(semantics, guidance, b.candidate, b.max_percentile);
    let a_detour = guided_percentile(semantics, guidance, a.candidate, a.detour_percentile);
    let b_detour = guided_percentile(semantics, guidance, b.candidate, b.detour_percentile);
    if accepts(acceptance, a, config) != accepts(acceptance, b, config) {
        accepts(acceptance, a, config)
    } else if a_max != b_max {
        a_max < b_max
    } else if a_detour != b_detour {
        a_detour < b_detour
    } else if a.max_percentile != b.max_percentile {
        a.max_percentile < b.max_percentile
    } else if a.detour_percentile != b.detour_percentile {
        a.detour_percentile < b.detour_percentile
    } else {
        a.candidate <= b.candidate
    }
}

/// The ranking under guidance.
pub open spec fn guided_first(
    config: BridgeConfig,
    semantics: Seq<CandidateSemanticsView>,
    guidance: Guidance,
    acceptance: EvolvingAcceptance,
) -> spec_fn(BridgeCandidateEvaluation, BridgeCandidateEvaluation) -> bool {
    |a: BridgeCandidateEvaluation, b: BridgeCandidateEvaluation|
        guided_at_least(config, semantics, guidance, acceptance, a, b)
}

/// How many candidates from `at` on are accepted without a break.
pub open spec fn leading_accepted(
    ranked: Seq<BridgeCandidateEvaluation>,
    config: BridgeConfig,
    acceptance: EvolvingAcceptance,
    at: int,
) -> int
    decreases ranked.len() - at,
{
    if at >= ranked.len() || !accepts(acceptance, ranked[at], config) {
        at
    } else {
        leading_accepted(ranked, config, acceptance, at + 1)
    }
}

/// The order of the shuffled head of a ranking.
pub open spec fn shuffled_bridges(seed: u64, route: Seq<usize>, position: usize) -> spec_fn(
    BridgeCandidateEvaluation,
    BridgeCandidateEvaluation,
) -> bool {
    |a: BridgeCandidateEvaluation, b: BridgeCandidateEvaluation|
        variation_key_of(seed, route, position, a.candidate) <= variation_key_of(
            seed,
            route,
            position,
            b.candidate,
        )
}

/// A ranking with its first `pool` candidates shuffled.
pub open spec fn with_shuffled_head(
    ranked: Seq<BridgeCandidateEvaluation>,
    pool: int,
    seed: u64,
    route: Seq<usize>,
    position: usize,
) -> Seq<BridgeCandidateEvaluation> {
    if pool > 1 {
        stable_sort(ranked.take(pool), shuffled_bridges(seed, route, position)) + ranked.skip(pool)
    } else {
        ranked
    }
}

/// The candidates for a gap of an evolving route, the best first.
pub open spec fn evolving_ranked(
    model: BridgeModel,
    route: Seq<usize>,
    position: usize,
    semantics: Seq<CandidateSemanticsView>,
    matrix: Option<ContextMatrixView>,
    guidance: Guidance,
    acceptance: EvolvingAcceptance,
) -> Result<Seq<BridgeCandidateEvaluation>, PreviewErrorView> {
    match model.ranked(route, position as int, numbers_of(semantics), matrix) {
        Err(error) => Err(PreviewErrorView::Scoring(error)),
        Ok(evaluations) => {
            let ranked = stable_sort(
                evaluations,
                guided_first(model.config, semantics, guidance, acceptance),
            );
            let accepted = leading_accepted(ranked, model.config, acceptance, 0);
            let pool = pool_length(
                accepted,
                guidance.variation_percent,
                guidance.minimum_pool as int,
            );
            Ok(with_shuffled_head(ranked, pool, guidance.seed, route, position))
        },
    }
}

/// A candidate with the numbers that it is ranked by.
#[derive(Clone, Copy)]
struct Guided {
    evaluation: BridgeCandidateEvaluation,
    accepted: bool,
    max: i128,
    detour: i128,
}

spec fn guided_truly(
    item: Guided,
    config: BridgeConfig,
    semantics: Seq<CandidateSemanticsView>,
    guidance: Guidance,
    acceptance: EvolvingAcceptance,
) -> bool {
    let evaluation = item.evaluation;
    &&& item.accepted == accepts(acceptance, evaluation, config)
    &&& item.max == guided_percentile(
        semantics,
        guidance,
        evaluation.candidate,
        evaluation.max_percentile,
    )
    &&& item.detour == guided_percentile(
        semantics,
        guidance,
        evaluation.candidate,
        evaluation.detour_percentile,
    )
}

spec fn keyed_first() -> spec_fn(Guided, Guided) -> bool {
    |a: Guided, b: Guided|
        if a.accepted != b.accepted {
            a.accepted
        } else if a.max != b.max {
            a.max < b.max
        } else if a.detour != b.detour {
            a.detour < b.detour
        } else if a.evaluation.max_percentile != b.evaluation.max_percentile {
            a.evaluation.max_percentile < b.evaluation.max_percentile
        } else if a.evaluation.detour_percentile != b.evaluation.detour_percentile {
            a.evaluation.detour_percentile < b.evaluation.detour_percentile
        } else {
            a.evaluation.candidate <= b.evaluation.candidate
        }
}

/// Finds the last entry for a candidate.
pub fn find_last(semantics: &[CandidateSemantics], candidate: usize) -> (found: Option<usize>)
    ensures
        match found {
            Some(at) => at < semantics@.len() && last_finding(
                views(semantics@),
                candidate,
                semantics@.len() as int,
            ) == Some(semantics@[at as int]@),
            None => last_finding(views(semantics@), candidate, semantics@.len() as int) is None,
        },
{
    let ghost all = views(semantics@);
    let mut left: usize = semantics.len();
    while left > 0
        invariant
            left <= semantics@.len(),
            all == views(semantics@),
            last_finding(all, candidate, semantics@.len() as int) == last_finding(
                all,
                candidate,
                left as int,
            ),
        decreases left,
    {
        assert(all[left - 1] == semantics@[left - 1]@);
        if semantics[left - 1].candidate == candidate {
            return Some(left - 1);
        }
        left -= 1;
    }
    None
}

fn guide_one(
    evaluation: BridgeCandidateEvaluation,
    config: &BridgeConfig,
    semantics: &[CandidateSemantics],
    guidance: &Guidance,
    acceptance: EvolvingAcceptance,
) -> (item: Guided)
    ensures
        item.evaluation == evaluation,
        guided_truly(item, *config, views(semantics@), *guidance, acceptance),
{
    let accepted: bool = acceptance.accepts(&evaluation, config);
    match find_last(semantics, evaluation.candidate) {
        Some(at) => {
            let found = &semantics[at];
            Guided {
                evaluation,
                accepted,
                max: found.adjusted_percentile(
                    evaluation.max_percentile,
                    guidance.track_percent,
                    guidance.artist_percent,
                ),
                detour: found.adjusted_percentile(
                    evaluation.detour_percentile,
                    guidance.track_percent,
                    guidance.artist_percent,
                ),
            }
        },
        None => Guided {
            evaluation,
            accepted,
            max: evaluation.max_percentile as i128,
            detour: evaluation.detour_percentile as i128,
        },
    }
}

fn sort_guided(
    evaluations: Vec<BridgeCandidateEvaluation>,
    config: &BridgeConfig,
    semantics: &[CandidateSemantics],
    guidance: &Guidance,
    acceptance: EvolvingAcceptance,
) -> (ranked: Vec<BridgeCandidateEvaluation>)
    ensures
        ranked@ == stable_sort(
            evaluations@,
            guided_first(*config, views(semantics@), *guidance, acceptance),
        ),
{
    let ghost all = views(semantics@);
    let ghost order = guided_first(*config, all, *guidance, acceptance);
    let mut keyed: Vec<Guided> = Vec::new();
    let mut at: usize = 0;
    while at < evaluations.len()
        invariant
            at <= evaluations@.len(),
            all == views(semantics@),
            keyed@.len() == at,
            forall|i: int|
                0 <= i < at ==> (#[trigger] keyed@[i]).evaluation == evaluations@[i]
                    && guided_truly(keyed@[i], *config, all, *guidance, acceptance),
        decreases evaluations@.len() - at,
    {
        keyed.push(guide_one(evaluations[at], config, semantics, guidance, acceptance));
        at += 1;
    }
    let leq = |a: &Guided, b: &Guided| -> (first: bool)
        ensures
            first == keyed_first()(*a, *b),
        {
            if a.accepted != b.accepted {
                a.accepted
            } else if a.max != b.max {
                a.max < b.max
            } else if a.detour != b.detour {
                a.detour < b.detour
            } else if a.evaluation.max_percentile != b.evaluation.max_percentile {
                a.evaluation.max_percentile < b.evaluation.max_percentile
            } else if a.evaluation.detour_percentile != b.evaluation.detour_percentile {
                a.evaluation.detour_percentile < b.evaluation.detour_percentile
            } else {
                a.evaluation.candidate <= b.evaluation.candidate
            }
        };
    let ghost before = keyed@;
    let sorted = sort_by(keyed, &leq, Ghost(keyed_first()));
    proof {
        let image = |item: Guided| item.evaluation;
        let imaged = |a: Guided, b: Guided| order(a.evaluation, b.evaluation);
        assert forall|i: int, j: int|
            #![trigger before[i], before[j]]
            0 <= i < before.len() && 0 <= j < before.len() implies keyed_first()(
            before[i],
            before[j],
        ) == imaged(before[i], before[j]) by {
            assert(guided_truly(before[i], *config, all, *guidance, acceptance));
            assert(guided_truly(before[j], *config, all, *guidance, acceptance));
        }
        crate::sorting::lemma_same_ranking_same_sort(before, keyed_first(), imaged);
        crate::sorting::lemma_sort_image(before, imaged, image, order);
        assert(before.map_values(image) =~= evaluations@);
    }
    let mut ranked: Vec<BridgeCandidateEvaluation> = Vec::new();
    let mut next: usize = 0;
    while next < sorted.len()
        invariant
            next <= sorted@.len(),
            ranked@ =~= sorted@.map_values(|item: Guided| item.evaluation).take(next as int),
        decreases sorted@.len() - next,
    {
        ranked.push(sorted[next].evaluation);
        next += 1;
    }
    assert(ranked@ =~= sorted@.map_values(|item: Guided| item.evaluation));
    ranked
}

/// Where the leading accepted candidates end, and that they are accepted.
pub proof fn lemma_leading_accepted(
    ranked: Seq<BridgeCandidateEvaluation>,
    config: BridgeConfig,
    acceptance: EvolvingAcceptance,
    at: int,
)
    requires
        0 <= at <= ranked.len(),
    ensures
        at <= leading_accepted(ranked, config, acceptance, at) <= ranked.len(),
        forall|i: int|
            at <= i < leading_accepted(ranked, config, acceptance, at) ==> accepts(
                acceptance,
                #[trigger] ranked[i],
                config,
            ),
    decreases ranked.len() - at,
{
    if at < ranked.len() && accepts(acceptance, ranked[at], config) {
        lemma_leading_accepted(ranked, config, acceptance, at + 1);
    }
}

/// Ranks the candidates for a gap of an evolving route.
pub fn rank_for_evolving_route<
    P: Fn(&[usize], u16) -> Result<(), ContextualError>,
    D: Fn(&[usize], u16, &[usize], usize) -> u64,
>(
    route: &[usize],
    position: usize,
    semantics: &[CandidateSemantics],
    scoring: &ExactScoringContext<'_, P, D>,
    frozen_matrix: Option<&ContextMatrix>,
    guidance: &Guidance,
    acceptance: EvolvingAcceptance,
) -> (ranked: Result<Vec<BridgeCandidateEvaluation>, PreviewError>)
    requires
        scoring.scorer.valid(),
        guidance.variation_percent <= 100,
        route@.len() < usize::MAX,
    ensures
        match evolving_ranked(
            scoring.model(),
            route@,
            position,
            views(semantics@),
            matrix_view(frozen_matrix),
            *guidance,
            acceptance,
        ) {
            Ok(evaluations) => ranked is Ok && ranked->Ok_0@ == evaluations,
            Err(error) => ranked is Err && ranked->Err_0@ == error,
        },
{
    let mut candidates: Vec<usize> = Vec::new();
    let mut at: usize = 0;
    while at < semantics.len()
        invariant
            at <= semantics@.len(),
            candidates@ =~= numbers_of(views(semantics@)).take(at as int),
        decreases semantics@.len() - at,
    {
        candidates.push(semantics[at].candidate);
        at += 1;
    }
    assert(candidates@ =~= numbers_of(views(semantics@)));
    let context = CandidateScoringContext {
        scorer: scoring.scorer,
        config: scoring.config,
        reference: scoring.reference,
        frozen_matrix,
    };
    let evaluations = match rank_candidates_in_context(
        route,
        position,
        candidates.as_slice(),
        scoring.tracks,
        &context,
    ) {
        Err(error) => {
            return Err(PreviewError::Scoring(error));
        },
        Ok(evaluations) => evaluations,
    };
    let mut ranked = sort_guided(evaluations, scoring.config, semantics, guidance, acceptance);
    let mut accepted: usize = 0;
    proof {
        lemma_leading_accepted(ranked@, *scoring.config, acceptance, 0);
    }
    while accepted < ranked.len() && acceptance.accepts(&ranked[accepted], scoring.config)
        invariant
            accepted <= ranked@.len(),
            leading_accepted(ranked@, *scoring.config, acceptance, 0) == leading_accepted(
                ranked@,
                *scoring.config,
                acceptance,
                accepted as int,
            ),
        decreases ranked@.len() - accepted,
    {
        accepted += 1;
    }
    let pool: usize = varied_pool_length(
        accepted,
        guidance.variation_percent,
        guidance.minimum_pool,
    );
    if pool > 1 {
        let ghost all = ranked@;
        let mut tail = ranked.split_off(pool);
        assert(ranked@ =~= all.take(pool as int));
        assert(tail@ =~= all.skip(pool as int));
        let seed: u64 = guidance.seed;
        let leq = |a: &BridgeCandidateEvaluation, b: &BridgeCandidateEvaluation| -> (first: bool)
            ensures
                first == shuffled_bridges(seed, route@, position)(*a, *b),
            {
                variation_key(seed, route, position, a.candidate) <= variation_key(
                    seed,
                    route,
                    position,
                    b.candidate,
                )
            };
        ranked = sort_by(ranked, &leq, Ghost(shuffled_bridges(seed, route@, position)));
        ranked.append(&mut tail);
    }
    Ok(ranked)
}

// The objective of a route.

/// A stretch of a route that is scored under one matrix.
#[verifier::ext_equal]
pub struct FrozenStretch {
    pub left: int,
    pub right: int,
    pub matrix: ContextMatrixView,
}

/// The stretches between the original neighbours from `at` on, behind those in
/// `done`.
pub open spec fn stretches_from(
    model: BridgeModel,
    route: Seq<usize>,
    original: Seq<usize>,
    at: int,
    done: Seq<FrozenStretch>,
) -> Result<Seq<FrozenStretch>, PreviewErrorView>
    decreases original.len() - at,
{
    if at + 1 >= original.len() {
        Ok(done)
    } else {
        let left = position(route, original[at]);
        let right = position(route, original[at + 1]);
        if left >= route.len() {
            Err(PreviewErrorView::FinalRouteInvalid("source gap left anchor is absent"@))
        } else if right >= route.len() {
            Err(PreviewErrorView::FinalRouteInvalid("source gap right anchor is absent"@))
        } else {
            match model.gap_matrix(route, left + 1) {
                Err(error) => Err(PreviewErrorView::Scoring(error)),
                Ok(matrix) => stretches_from(
                    model,
                    route,
                    original,
                    at + 1,
                    done.push(FrozenStretch { left, right, matrix: matrix->Some_0 }),
                ),
            }
        }
    }
}

/// The first stretch at or after `at` that a position lies in, or their number.
pub open spec fn stretch_at(stretches: Seq<FrozenStretch>, position: int, at: int) -> int
    decreases stretches.len() - at,
{
    if at >= stretches.len() {
        stretches.len() as int
    } else if stretches[at].left < position && position <= stretches[at].right {
        at
    } else {
        stretch_at(stretches, position, at + 1)
    }
}

/// The matrix that a position is scored under, if a stretch fixes one.
pub open spec fn stretch_matrix(stretches: Seq<FrozenStretch>, position: int) -> Option<
    ContextMatrixView,
> {
    let at = stretch_at(stretches, position, 0);
    if at < stretches.len() {
        Some(stretches[at].matrix)
    } else {
        None
    }
}

/// The sum and the largest of the distances into the positions from `at` on,
/// added to what came before, or the first error.
pub open spec fn frozen_legs_from(
    model: BridgeModel,
    route: Seq<usize>,
    stretches: Seq<FrozenStretch>,
    at: int,
    sum: nat,
    worst: nat,
) -> Result<(nat, nat), PreviewErrorView>
    decreases route.len() - at,
{
    if at >= route.len() {
        Ok((sum, worst))
    } else {
        match model.distance(route.take(at), route[at], stretch_matrix(stretches, at)) {
            Err(error) => Err(PreviewErrorView::Scoring(error)),
            Ok(distance) => frozen_legs_from(
                model,
                route,
                stretches,
                at + 1,
                sum + distance as nat,
                if distance as nat > worst {
                    distance as nat
                } else {
                    worst
                },
            ),
        }
    }
}

/// The number by which routes with bridges are compared.
pub open spec fn search_objective(
    model: BridgeModel,
    route: Seq<usize>,
    original: Seq<usize>,
) -> Result<nat, PreviewErrorView> {
    match model.config.gap_context_mode {
        GapContextMode::Rolling => match sequence_metrics(
            model.scoring,
            route,
            model.tracks.len() as int,
            model.config.seed_limit,
            model.config.learned_percent,
        ) {
            Err(error) => Err(PreviewErrorView::RouteScoring(error)),
            Ok(metrics) => Ok(metrics.objective),
        },
        GapContextMode::Frozen => match stretches_from(model, route, original, 0, seq![]) {
            Err(error) => Err(error),
            Ok(stretches) => match frozen_legs_from(model, route, stretches, 1, 0, 0) {
                Err(error) => Err(error),
                Ok((sum, worst)) => Ok(sum + 2 * worst),
            },
        },
    }
}

struct Stretch {
    left: usize,
    right: usize,
    matrix: ContextMatrix,
}

impl View for Stretch {
    type V = FrozenStretch;

    closed spec fn view(&self) -> FrozenStretch {
        FrozenStretch { left: self.left as int, right: self.right as int, matrix: self.matrix@ }
    }
}

fn frozen_stretches<
    P: Fn(&[usize], u16) -> Result<(), ContextualError>,
    D: Fn(&[usize], u16, &[usize], usize) -> u64,
>(route: &[usize], original: &[usize], scoring: &ExactScoringContext<'_, P, D>) -> (found: Result<
    Vec<Stretch>,
    PreviewError,
>)
    requires
        scoring.scorer.valid(),
        scoring.config.gap_context_mode == GapContextMode::Frozen,
        route@.len() < usize::MAX,
    ensures
        match stretches_from(scoring.model(), route@, original@, 0, seq![]) {
            Ok(stretches) => found is Ok && views(found->Ok_0@) == stretches,
            Err(error) => found is Err && found->Err_0@ == error,
        },
{
    let ghost model = scoring.model();
    let mut stretches: Vec<Stretch> = Vec::new();
    let mut at: usize = 0;
    assert(views(stretches@) =~= seq![]);
    while at < original.len() && at + 1 < original.len()
        invariant
            at <= original@.len(),
            scoring.scorer.valid(),
            scoring.config.gap_context_mode == GapContextMode::Frozen,
            route@.len() < usize::MAX,
            model == scoring.model(),
            stretches_from(model, route@, original@, 0, seq![]) == stretches_from(
                model,
                route@,
                original@,
                at as int,
                views(stretches@),
            ),
        decreases original@.len() - at,
    {
        let left: usize = match find_position(route, original[at]) {
            Some(left) => left,
            None => {
                return Err(PreviewError::FinalRouteInvalid("source gap left anchor is absent"));
            },
        };
        let right: usize = match find_position(route, original[at + 1]) {
            Some(right) => right,
            None => {
                return Err(PreviewError::FinalRouteInvalid("source gap right anchor is absent"));
            },
        };
        match gap_context_matrix(route, left + 1, scoring.tracks, scoring.scorer, scoring.config) {
            Err(error) => {
                return Err(PreviewError::Scoring(error));
            },
            Ok(matrix) => {
                if let Some(matrix) = matrix {
                    let stretch = Stretch { left, right, matrix };
                    proof {
                        lemma_views_push(stretches@, stretch);
                    }
                    stretches.push(stretch);
                }
            },
        }
        at += 1;
    }
    Ok(stretches)
}

fn find_stretch(stretches: &Vec<Stretch>, at: usize) -> (found: Option<usize>)
    ensures
        match found {
            Some(index) => index < stretches@.len() && index == stretch_at(
                views(stretches@),
                at as int,
                0,
            ),
            None => stretch_at(views(stretches@), at as int, 0) == stretches@.len(),
        },
{
    let ghost all = views(stretches@);
    let mut index: usize = 0;
    while index < stretches.len()
        invariant
            index <= stretches@.len(),
            all == views(stretches@),
            stretch_at(all, at as int, 0) == stretch_at(all, at as int, index as int),
        decreases stretches@.len() - index,
    {
        assert(all[index as int] == stretches@[index as int]@);
        if stretches[index].left < at && at <= stretches[index].right {
            return Some(index);
        }
        index += 1;
    }
    None
}

/// Computes the number by which routes with bridges are compared.
pub fn gap_search_objective<
    P: Fn(&[usize], u16) -> Result<(), ContextualError>,
    D: Fn(&[usize], u16, &[usize], usize) -> u64,
>(route: &[usize], original_route: &[usize], scoring: &ExactScoringContext<'_, P, D>) -> (objective:
    Result<u128, PreviewError>)
    requires
        scoring.scorer.valid(),
        route@.len() < usize::MAX,
    ensures
        match search_objective(scoring.model(), route@, original_route@) {
            Ok(value) => objective is Ok && objective->Ok_0 == value,
            Err(error) => objective is Err && objective->Err_0@ == error,
        },
{
    match scoring.config.gap_context_mode {
        GapContextMode::Rolling => {
            return match evaluate_adaptive_sequence(
                route,
                scoring.tracks,
                scoring.scorer,
                scoring.config.seed_limit,
                scoring.config.learned_percent,
            ) {
                Ok(metrics) => Ok(metrics.objective),
                Err(error) => Err(PreviewError::RouteScoring(error)),
            };
        },
        GapContextMode::Frozen => {},
    }
    let stretches = match frozen_stretches(route, original_route, scoring) {
        Err(error) => {
            return Err(error);
        },
        Ok(stretches) => stretches,
    };
    let ghost model = scoring.model();
    let ghost all = views(stretches@);
    let mut sum: u128 = 0;
    let mut worst: u64 = 0;
    let mut at: usize = 1;
    while at < route.len()
        invariant
            1 <= at,
            at <= route@.len() || at == 1,
            route@.len() < usize::MAX,
            scoring.scorer.valid(),
            scoring.config.gap_context_mode == GapContextMode::Frozen,
            model == scoring.model(),
            all == views(stretches@),
            stretches_from(model, route@, original_route@, 0, seq![]) == Ok::<
                Seq<FrozenStretch>,
                PreviewErrorView,
            >(all),
            sum <= (at - 1) * u64::MAX,
            frozen_legs_from(model, route@, all, 1, 0, 0) == frozen_legs_from(
                model,
                route@,
                all,
                at as int,
                sum as nat,
                worst as nat,
            ),
        decreases route@.len() - at,
    {
        let prefix = vstd::slice::slice_subrange(route, 0, at);
        assert(prefix@ =~= route@.take(at as int));
        let matrix = match find_stretch(&stretches, at) {
            Some(index) => Some(&stretches[index].matrix),
            None => None,
        };
        proof {
            assert(matrix_view(matrix) == stretch_matrix(all, at as int)) by {
                let index = stretch_at(all, at as int, 0);
                if index < all.len() {
                    lemma_stretch_at(all, at as int, 0);
                    assert(all[index] == stretches@[index]@);
                }
            }
        }
        match distance_in_context(
            prefix,
            route[at],
            scoring.tracks,
            scoring.scorer,
            matrix,
            scoring.config,
        ) {
            Err(error) => {
                return Err(PreviewError::Scoring(error));
            },
            Ok(distance) => {
                assert(at * u64::MAX == (at - 1) * u64::MAX + u64::MAX) by (nonlinear_arith);
                sum = sum + distance as u128;
                if distance > worst {
                    worst = distance;
                }
            },
        }
        at += 1;
    }
    proof {
        let len = at - 1;
        assert(len * u64::MAX <= (usize::MAX - 2) * u64::MAX) by (nonlinear_arith)
            requires
                0 <= len <= usize::MAX - 2,
        ;
    }
    Ok(sum + 2 * (worst as u128))
}

proof fn lemma_stretch_at(stretches: Seq<FrozenStretch>, position: int, at: int)
    requires
        0 <= at <= stretches.len(),
    ensures
        at <= stretch_at(stretches, position, at) <= stretches.len(),
    decreases stretches.len() - at,
{
    if at < stretches.len() {
        lemma_stretch_at(stretches, position, at + 1);
    }
}

// Automatic selection.

/// The objective of a stretch with a given sum and worst distance.
pub open spec fn local_objective(sum: int, worst: int) -> int {
    sum + 2 * worst
}

/// Whether a candidate is accepted and shortens its gap.
pub open spec fn improves(evaluation: BridgeCandidateEvaluation, direct_distance: u64) -> bool {
    let worst = if evaluation.left_distance > evaluation.right_distance {
        evaluation.left_distance
    } else {
        evaluation.right_distance
    };
    evaluation.accepted && local_objective(
        evaluation.left_distance + evaluation.right_distance,
        worst as int,
    ) < local_objective(direct_distance as int, direct_distance as int)
}

fn does_improve(evaluation: &BridgeCandidateEvaluation, direct_distance: u64) -> (better: bool)
    ensures
        better == improves(*evaluation, direct_distance),
{
    let left: u128 = evaluation.left_distance as u128;
    let right: u128 = evaluation.right_distance as u128;
    let worst: u128 = if left > right { left } else { right };
    evaluation.accepted && left + right + 2 * worst < 3 * (direct_distance as u128)
}

/// The first candidate at or after `at` that improves a gap, or their number.
pub open spec fn first_improving(
    ranked: Seq<BridgeCandidateEvaluation>,
    direct_distance: u64,
    at: int,
) -> int
    decreases ranked.len() - at,
{
    if at >= ranked.len() {
        ranked.len() as int
    } else if improves(ranked[at], direct_distance) {
        at
    } else {
        first_improving(ranked, direct_distance, at + 1)
    }
}

/// Whether no candidate is repeat-safe.
pub open spec fn none_safe(ranked: Seq<BridgeCandidateEvaluation>) -> bool {
    forall|i: int| 0 <= i < ranked.len() ==> !(#[trigger] ranked[i]).repeat_safe
}

/// Whether no candidate is accepted.
pub open spec fn none_accepted(ranked: Seq<BridgeCandidateEvaluation>) -> bool {
    forall|i: int| 0 <= i < ranked.len() ==> !(#[trigger] ranked[i]).accepted
}

/// The first entry at or after `at` for a candidate, or their number.
pub open spec fn first_entry(
    semantics: Seq<CandidateSemanticsView>,
    candidate: usize,
    at: int,
) -> int
    decreases semantics.len() - at,
{
    if at >= semantics.len() {
        semantics.len() as int
    } else if semantics[at].candidate == candidate {
        at
    } else {
        first_entry(semantics, candidate, at + 1)
    }
}

/// The first entry is there for a candidate that is.
pub proof fn lemma_first_entry(semantics: Seq<CandidateSemanticsView>, candidate: usize, at: int)
    requires
        0 <= at <= semantics.len(),
    ensures
        at <= first_entry(semantics, candidate, at) <= semantics.len(),
        first_entry(semantics, candidate, at) < semantics.len() ==> semantics[first_entry(
            semantics,
            candidate,
            at,
        )].candidate == candidate,
        forall|i: int|
            at <= i < first_entry(semantics, candidate, at) ==> (#[trigger] semantics[i]).candidate
                != candidate,
    decreases semantics.len() - at,
{
    if at < semantics.len() && semantics[at].candidate != candidate {
        lemma_first_entry(semantics, candidate, at + 1);
    }
}

/// Finds the first entry for a candidate.
pub fn find_entry(semantics: &[CandidateSemantics], candidate: usize) -> (found: Option<usize>)
    ensures
        match found {
            Some(at) => at < semantics@.len() && at == first_entry(
                views(semantics@),
                candidate,
                0,
            ),
            None => first_entry(views(semantics@), candidate, 0) == semantics@.len(),
        },
{
    let ghost all = views(semantics@);
    let mut at: usize = 0;
    while at < semantics.len()
        invariant
            at <= semantics@.len(),
            all == views(semantics@),
            first_entry(all, candidate, 0) == first_entry(all, candidate, at as int),
        decreases semantics@.len() - at,
    {
        assert(all[at as int] == semantics@[at as int]@);
        if semantics[at].candidate == candidate {
            return Some(at);
        }
        at += 1;
    }
    None
}

/// A decision on a gap.
pub open spec fn decided(
    gap: AutomaticGapView,
    route_position: int,
    reason: DecisionReason,
    selected: Option<SelectedBridgeView>,
) -> GapDecisionView {
    GapDecisionView {
        original_position: gap.original_position,
        route_position: route_position as usize,
        left: gap.left,
        right: gap.right,
        direct_distance: gap.direct_distance,
        direct_percentile: gap.direct_percentile,
        semantic_pool: gap.semantics.pool,
        reason,
        selected,
    }
}

/// Records a decision on a gap.
pub fn exact_decision(
    gap: &AutomaticGap,
    route_position: usize,
    reason: DecisionReason,
    selected: Option<SelectedBridge>,
) -> (decision: GapDecision)
    ensures
        decision@ == decided(gap@, route_position as int, reason, bridge_in(selected)),
{
    GapDecision {
        original_position: gap.original_position,
        route_position,
        left: gap.left,
        right: gap.right,
        direct_distance: gap.direct_distance,
        direct_percentile: gap.direct_percentile,
        semantic_pool: gap.semantics.pool,
        reason,
        selected,
    }
}

/// Gaps by their place in the original playlist.
pub open spec fn original_order() -> spec_fn(AutomaticGapView, AutomaticGapView) -> bool {
    |a: AutomaticGapView, b: AutomaticGapView| a.original_position <= b.original_position
}

/// Orders gaps by their place in the original playlist.
pub fn ordered_gaps(gaps: &[AutomaticGap]) -> (ordered: Vec<AutomaticGap>)
    ensures
        views(ordered@) == stable_sort(views(gaps@), original_order()),
{
    let mut copy: Vec<AutomaticGap> = Vec::new();
    let mut at: usize = 0;
    while at < gaps.len()
        invariant
            at <= gaps@.len(),
            views(copy@) =~= views(gaps@).take(at as int),
        decreases gaps@.len() - at,
    {
        let item = gaps[at].clone();
        proof {
            lemma_views_push(copy@, item);
        }
        copy.push(item);
        at += 1;
    }
    assert(views(copy@) =~= views(gaps@));
    let leq = |a: &AutomaticGap, b: &AutomaticGap| -> (first: bool)
        ensures
            first == original_order()(a@, b@),
        { a.original_position <= b.original_position };
    sort_views(copy, &leq, Ghost(original_order()))
}

/// A gap decided on a route: the route that follows and the decision.
#[verifier::ext_equal]
pub struct GapOutcome {
    pub route: Seq<usize>,
    pub decision: GapDecisionView,
}

/// What becomes of a gap once its candidates are ranked.
pub open spec fn chosen(
    route: Seq<usize>,
    at: int,
    gap: AutomaticGapView,
    ranked: Seq<BridgeCandidateEvaluation>,
) -> GapOutcome {
    let first = first_improving(ranked, gap.direct_distance, 0);
    if first < ranked.len() {
        let evaluation = ranked[first];
        let entry = first_entry(gap.semantics.candidates, evaluation.candidate, 0);
        GapOutcome {
            route: route.insert(at, evaluation.candidate),
            decision: decided(
                gap,
                at,
                DecisionReason::Selected,
                Some(
                    SelectedBridgeView { semantics: gap.semantics.candidates[entry], evaluation },
                ),
            ),
        }
    } else {
        let reason = if none_safe(ranked) {
            DecisionReason::RepeatConflict
        } else if none_accepted(ranked) {
            DecisionReason::AcousticRejected
        } else {
            DecisionReason::NoImprovement
        };
        GapOutcome { route, decision: decided(gap, at, reason, None) }
    }
}

/// What becomes of one gap of an evolving route.
pub open spec fn gap_outcome(
    model: BridgeModel,
    route: Seq<usize>,
    gap: AutomaticGapView,
    config: AutomaticSelectionConfig,
    added: int,
) -> Result<GapOutcome, PreviewErrorView> {
    match gap_position(route, gap) {
        None => Err(PreviewErrorView::InvalidOriginalGap(gap.original_position)),
        Some(at) => if gap.direct_percentile <= config.trigger_percentile {
            Ok(
                GapOutcome {
                    route,
                    decision: decided(gap, at, DecisionReason::BelowThreshold, None),
                },
            )
        } else if added >= config.max_added_tracks {
            Ok(
                GapOutcome {
                    route,
                    decision: decided(gap, at, DecisionReason::BudgetExhausted, None),
                },
            )
        } else if gap.semantics.candidates.len() == 0 {
            Ok(
                GapOutcome {
                    route,
                    decision: decided(gap, at, DecisionReason::NoEligibleCandidate, None),
                },
            )
        } else {
            match model.gap_matrix(route, at) {
                Err(error) => Err(PreviewErrorView::Scoring(error)),
                Ok(matrix) => match evolving_ranked(
                    model,
                    route,
                    at as usize,
                    gap.semantics.candidates,
                    matrix,
                    config.guide(),
                    EvolvingAcceptance::FullBridge,
                ) {
                    Err(error) => Err(error),
                    Ok(ranked) => Ok(chosen(route, at, gap, ranked)),
                },
            }
        },
    }
}

/// The selection once the gaps from `at` on are decided.
pub open spec fn automatic_from(
    model: BridgeModel,
    gaps: Seq<AutomaticGapView>,
    config: AutomaticSelectionConfig,
    at: int,
    route: Seq<usize>,
    added: int,
    decisions: Seq<GapDecisionView>,
) -> Result<AutomaticSelectionView, PreviewErrorView>
    decreases gaps.len() - at,
{
    if at >= gaps.len() {
        Ok(AutomaticSelectionView { final_route: route, decisions })
    } else {
        match gap_outcome(model, route, gaps[at], config, added) {
            Err(error) => Err(error),
            Ok(outcome) => automatic_from(
                model,
                gaps,
                config,
                at + 1,
                outcome.route,
                if outcome.decision.reason == DecisionReason::Selected {
                    added + 1
                } else {
                    added
                },
                decisions.push(outcome.decision),
            ),
        }
    }
}

/// The outcome of an automatic selection.
pub open spec fn automatic_selection(
    model: BridgeModel,
    original: Seq<usize>,
    gaps: Seq<AutomaticGapView>,
    config: AutomaticSelectionConfig,
) -> Result<AutomaticSelectionView, PreviewErrorView> {
    automatic_from(
        model,
        stable_sort(gaps, original_order()),
        config,
        0,
        original,
        0,
        seq![],
    )
}

fn choose_bridge(
    route: &mut Vec<usize>,
    at: usize,
    gap: &AutomaticGap,
    ranked: &Vec<BridgeCandidateEvaluation>,
) -> (decision: GapDecision)
    requires
        0 < at <= old(route)@.len(),
        old(route)@.len() < usize::MAX,
        forall|i: int|
            0 <= i < ranked@.len() ==> numbers_of(gap@.semantics.candidates).contains(
                (#[trigger] ranked@[i]).candidate,
            ),
    ensures
        ({
            let outcome = chosen(old(route)@, at as int, gap@, ranked@);
            &&& final(route)@ == outcome.route
            &&& decision@ == outcome.decision
        }),
{
    let mut first: usize = 0;
    let mut safe: bool = false;
    let mut accepted: bool = false;
    while first < ranked.len()
        invariant
            first <= ranked@.len(),
            0 < at <= old(route)@.len(),
            old(route)@.len() < usize::MAX,
            route@ == old(route)@,
            safe == exists|i: int| 0 <= i < first && (#[trigger] ranked@[i]).repeat_safe,
            accepted == exists|i: int| 0 <= i < first && (#[trigger] ranked@[i]).accepted,
            first_improving(ranked@, gap.direct_distance, 0) == first_improving(
                ranked@,
                gap.direct_distance,
                first as int,
            ),
            forall|i: int|
                0 <= i < ranked@.len() ==> numbers_of(gap@.semantics.candidates).contains(
                    (#[trigger] ranked@[i]).candidate,
                ),
        decreases ranked@.len() - first,
    {
        let evaluation = ranked[first];
        if does_improve(&evaluation, gap.direct_distance) {
            proof {
                let all = gap@.semantics.candidates;
                lemma_first_entry(all, evaluation.candidate, 0);
                assert(numbers_of(all).contains(ranked@[first as int].candidate));
                let i = choose|i: int|
                    0 <= i < all.len() && numbers_of(all)[i] == evaluation.candidate;
                assert(all[i].candidate == evaluation.candidate);
            }
            if let Some(entry) = find_entry(
                gap.semantics.candidates.as_slice(),
                evaluation.candidate,
            ) {
                let semantics = gap.semantics.candidates[entry].clone();
                route.insert(at, evaluation.candidate);
                assert(views(gap.semantics.candidates@)[entry as int]
                    == gap.semantics.candidates@[entry as int]@);
                return exact_decision(
                    gap,
                    at,
                    DecisionReason::Selected,
                    Some(SelectedBridge { semantics, evaluation }),
                );
            }
        }
        if evaluation.repeat_safe {
            safe = true;
            assert(ranked@[first as int].repeat_safe);
        }
        if evaluation.accepted {
            accepted = true;
            assert(ranked@[first as int].accepted);
        }
        first += 1;
    }
    let reason = if !safe {
        DecisionReason::RepeatConflict
    } else if !accepted {
        DecisionReason::AcousticRejected
    } else {
        DecisionReason::NoImprovement
    };
    exact_decision(gap, at, reason, None)
}

/// A ranking for an evolving route holds only the candidates that went in, each
/// truly evaluated.
pub proof fn lemma_evolving_members(
    model: BridgeModel,
    route: Seq<usize>,
    at: usize,
    semantics: Seq<CandidateSemanticsView>,
    matrix: Option<ContextMatrixView>,
    guidance: Guidance,
    acceptance: EvolvingAcceptance,
)
    requires
        guidance.variation_percent <= 100,
    ensures
        evolving_ranked(model, route, at, semantics, matrix, guidance, acceptance) matches Ok(
            ranked,
        ) ==> ranked.len() == semantics.len() && forall|i: int|
            0 <= i < ranked.len() ==> numbers_of(semantics).contains(
                (#[trigger] ranked[i]).candidate,
            ) && model.evaluation(route, at as int, ranked[i].candidate, matrix) == Ok::<
                BridgeCandidateEvaluation,
                BridgeError,
            >(ranked[i]),
{
    let numbers = numbers_of(semantics);
    crate::bridge::lemma_ranked_members(model, route, at as int, numbers, matrix);
    if let Ok(evaluations) = model.ranked(route, at as int, numbers, matrix) {
        let order = guided_first(model.config, semantics, guidance, acceptance);
        let sorted = stable_sort(evaluations, order);
        let property = |evaluation: BridgeCandidateEvaluation|
            numbers.contains(evaluation.candidate) && model.evaluation(
                route,
                at as int,
                evaluation.candidate,
                matrix,
            ) == Ok::<BridgeCandidateEvaluation, BridgeError>(evaluation);
        let same = |a: BridgeCandidateEvaluation, b: BridgeCandidateEvaluation| true;
        assert(crate::sorting::all_hold(evaluations, property)) by {
            assert forall|i: int| 0 <= i < evaluations.len() implies property(
                #[trigger] evaluations[i],
            ) by {
                assert(numbers.contains(evaluations[i].candidate));
            }
        }
        crate::sorting::lemma_all_hold(evaluations, property, order, same, 0);
        let accepted = leading_accepted(sorted, model.config, acceptance, 0);
        lemma_leading_accepted(sorted, model.config, acceptance, 0);
        crate::variation::pool_is_bounded(
            accepted,
            guidance.variation_percent,
            guidance.minimum_pool as int,
        );
        let pool = pool_length(accepted, guidance.variation_percent, guidance.minimum_pool as int);
        if pool > 1 {
            let head = sorted.take(pool);
            assert(crate::sorting::all_hold(head, property)) by {
                assert forall|i: int| 0 <= i < head.len() implies property(#[trigger] head[i]) by {
                    assert(property(sorted[i]));
                }
            }
            let shuffle = shuffled_bridges(guidance.seed, route, at);
            crate::sorting::lemma_all_hold(head, property, shuffle, same, 0);
            let ranked = stable_sort(head, shuffle) + sorted.skip(pool);
            assert forall|i: int| 0 <= i < ranked.len() implies property(#[trigger] ranked[i]) by {
                if i < pool {
                    assert(ranked[i] == stable_sort(head, shuffle)[i]);
                } else {
                    assert(ranked[i] == sorted[i]);
                }
            }
            assert forall|i: int| 0 <= i < ranked.len() implies numbers.contains(
                (#[trigger] ranked[i]).candidate,
            ) && model.evaluation(route, at as int, ranked[i].candidate, matrix) == Ok::<
                BridgeCandidateEvaluation,
                BridgeError,
            >(ranked[i]) by {
                assert(property(ranked[i]));
            }
        } else {
            assert forall|i: int| 0 <= i < sorted.len() implies numbers.contains(
                (#[trigger] sorted[i]).candidate,
            ) && model.evaluation(route, at as int, sorted[i].candidate, matrix) == Ok::<
                BridgeCandidateEvaluation,
                BridgeError,
            >(sorted[i]) by {
                assert(property(sorted[i]));
            }
        }
    }
}

/// Chooses at most one bridge for every gap, from left to right, within a
/// budget.
pub fn select_automatic_bridges<
    P: Fn(&[usize], u16) -> Result<(), ContextualError>,
    D: Fn(&[usize], u16, &[usize], usize) -> u64,
>(
    original_route: &[usize],
    gaps: &[AutomaticGap],
    selection_config: &AutomaticSelectionConfig,
    scoring: &ExactScoringContext<'_, P, D>,
) -> (selection: Result<AutomaticSelection, PreviewError>)
    requires
        scoring.scorer.valid(),
        selection_config.variation_percent <= 100,
        original_route@.len() + gaps@.len() < usize::MAX,
    ensures
        match automatic_selection(
            scoring.model(),
            original_route@,
            views(gaps@),
            *selection_config,
        ) {
            Ok(chosen) => selection is Ok && selection->Ok_0@ == chosen,
            Err(error) => selection is Err && selection->Err_0@ == error,
        },
{
    let ghost model = scoring.model();
    let ordered = ordered_gaps(gaps);
    let ghost all = views(ordered@);
    proof {
        crate::sorting::stable_sort_keeps_items(views(gaps@), original_order());
    }
    let mut route = copied(original_route);
    let mut decisions: Vec<GapDecision> = Vec::new();
    let mut added: usize = 0;
    let mut at: usize = 0;
    assert(views(decisions@) =~= seq![]);
    while at < ordered.len()
        invariant
            at <= ordered@.len(),
            scoring.scorer.valid(),
            selection_config.variation_percent <= 100,
            model == scoring.model(),
            all == views(ordered@),
            ordered@.len() == gaps@.len(),
            original_route@.len() + gaps@.len() < usize::MAX,
            route@.len() <= original_route@.len() + at,
            added <= at,
            automatic_selection(model, original_route@, views(gaps@), *selection_config)
                == automatic_from(
                model,
                all,
                *selection_config,
                at as int,
                route@,
                added as int,
                views(decisions@),
            ),
        decreases ordered@.len() - at,
    {
        let gap = &ordered[at];
        assert(all[at as int] == gap@);
        let place: usize = match route_position(route.as_slice(), gap) {
            None => {
                return Err(PreviewError::InvalidOriginalGap(gap.original_position));
            },
            Some(place) => place,
        };
        let decision = if !exceeds(
            gap.direct_percentile,
            selection_config.trigger_percentile,
        ) {
            exact_decision(gap, place, DecisionReason::BelowThreshold, None)
        } else if added >= selection_config.max_added_tracks {
            exact_decision(gap, place, DecisionReason::BudgetExhausted, None)
        } else if gap.semantics.candidates.len() == 0 {
            exact_decision(gap, place, DecisionReason::NoEligibleCandidate, None)
        } else {
            let matrix = match gap_context_matrix(
                route.as_slice(),
                place,
                scoring.tracks,
                scoring.scorer,
                scoring.config,
            ) {
                Err(error) => {
                    return Err(PreviewError::Scoring(error));
                },
                Ok(matrix) => matrix,
            };
            let ranked = match rank_for_evolving_route(
                route.as_slice(),
                place,
                gap.semantics.candidates.as_slice(),
                scoring,
                matrix.as_ref(),
                &selection_config.guidance(),
                EvolvingAcceptance::FullBridge,
            ) {
                Err(error) => {
                    return Err(error);
                },
                Ok(ranked) => ranked,
            };
            proof {
                lemma_evolving_members(
                    model,
                    route@,
                    place,
                    gap@.semantics.candidates,
                    matrix_of(matrix),
                    selection_config.guide(),
                    EvolvingAcceptance::FullBridge,
                );
            }
            choose_bridge(&mut route, place, gap, &ranked)
        };
        if decision.reason == DecisionReason::Selected {
            added += 1;
        }
        proof {
            lemma_views_push(decisions@, decision);
        }
        decisions.push(decision);
        at += 1;
    }
    Ok(AutomaticSelection { final_route: route, decisions })
}

} // verus!
