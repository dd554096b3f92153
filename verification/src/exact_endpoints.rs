//! Choosing an exact number of tracks where the ends of the playlist may take
//! one each.

use crate::anchored_path::{capped_sum, larger};
use crate::bridge::{
    rank_endpoint_candidates, BridgeModel, EndpointCandidateEvaluation, EndpointSlot,
};
use crate::contextual::ContextualError;
use crate::exact::{
    candidates_of_gaps, capped_product, copied_ends, count_candidates, gap_candidates, larger_count,
    note_candidates, smaller, with_candidates, EndpointDecision, EndpointDecisionView, ExactModel,
    ExactSearchStats, ExactSelection, ExactSelectionView, SelectedEndpoint, SelectedEndpointView,
};
use crate::exact_multi::{final_decisions, final_exact_decisions, select_exact_count_bridges};
use crate::preview::{
    find_last, gap_search_objective, guided_percentile, numbers_of, ordered_gaps, original_order,
    search_objective, AutomaticGap, AutomaticGapView, DecisionReason, ExactScoringContext,
    ExactSelectionConfig, GapDecision, GapDecisionView, Guidance, PreviewError, PreviewErrorView,
    MAX_EXACT_TRACKS_PER_GAP,
};
use crate::semantic::{
    last_finding, CandidateSemantics, CandidateSemanticsView, GapEvidence, GapEvidenceView,
};
use crate::sequences::{copied, lemma_views_push, views};
use crate::sorting::{first_few, sort_by, stable_sort};
use crate::states::{best_from, find_best, SearchState, SearchStateView};
use crate::variation::{pool_length, variation_key, variation_key_of, varied_pool_length};
use vstd::prelude::*;

verus! {

// Requests.

/// An end of the playlist that may take a track.
#[verifier::ext_equal]
pub struct ExactEndpointSlotView {
    pub anchor: usize,
    pub semantics: GapEvidenceView,
}

/// An end of the playlist that may take a track.
#[derive(Debug, PartialEq, Eq)]
pub struct ExactEndpointSlot {
    pub anchor: usize,
    pub semantics: GapEvidence,
}

impl View for ExactEndpointSlot {
    type V = ExactEndpointSlotView;

    open spec fn view(&self) -> ExactEndpointSlotView {
        ExactEndpointSlotView { anchor: self.anchor, semantics: self.semantics@ }
    }
}

/// The ends of the playlist that may take a track.
#[verifier::ext_equal]
pub struct ExactEndpointSlotsView {
    pub opening: Option<ExactEndpointSlotView>,
    pub closing: Option<ExactEndpointSlotView>,
}

/// The ends of the playlist that may take a track.
#[derive(Debug, PartialEq, Eq)]
pub struct ExactEndpointSlots {
    pub opening: Option<ExactEndpointSlot>,
    pub closing: Option<ExactEndpointSlot>,
}

/// The value of an end that may be missing.
pub open spec fn slot_in(slot: Option<ExactEndpointSlot>) -> Option<ExactEndpointSlotView> {
    match slot {
        Some(end) => Some(end@),
        None => None,
    }
}

impl View for ExactEndpointSlots {
    type V = ExactEndpointSlotsView;

    open spec fn view(&self) -> ExactEndpointSlotsView {
        ExactEndpointSlotsView { opening: slot_in(self.opening), closing: slot_in(self.closing) }
    }
}

impl Default for ExactEndpointSlots {
    fn default() -> (slots: Self)
        ensures
            slots.opening is None,
            slots.closing is None,
    {
        ExactEndpointSlots { opening: None, closing: None }
    }
}

// Ranking candidates for an end.

/// Whether a candidate for an end ranks no later than another under guidance.
/// Acceptance comes first.
pub open spec fn guided_endpoint_at_least(
    semantics: Seq<CandidateSemanticsView>,
    guidance: Guidance,
    a: EndpointCandidateEvaluation,
    b: EndpointCandidateEvaluation,
) -> bool {
    let a_guided = guided_percentile(semantics, guidance, a.candidate, a.percentile);
    let b_guided = guided_percentile(semantics, guidance, b.candidate, b.percentile);
    if a.accepted != b.accepted {
        a.accepted
    } else if a_guided != b_guided {
        a_guided < b_guided
    } else if a.percentile != b.percentile {
        a.percentile < b.percentile
    } else {
        a.candidate <= b.candidate
    }
}

/// The ranking for an end under guidance.
pub open spec fn guided_endpoint_first(
    semantics: Seq<CandidateSemanticsView>,
    guidance: Guidance,
) -> spec_fn(EndpointCandidateEvaluation, EndpointCandidateEvaluation) -> bool {
    |a: EndpointCandidateEvaluation, b: EndpointCandidateEvaluation|
        guided_endpoint_at_least(semantics, guidance, a, b)
}

/// How many candidates from `at` on are accepted without a break.
pub open spec fn leading_accepted_endpoints(
    ranked: Seq<EndpointCandidateEvaluation>,
    at: int,
) -> int
    decreases ranked.len() - at,
{
    if at >= ranked.len() || !ranked[at].accepted {
        at
    } else {
        leading_accepted_endpoints(ranked, at + 1)
    }
}

/// The leading accepted candidates are candidates.
pub proof fn lemma_leading_accepted_endpoints(ranked: Seq<EndpointCandidateEvaluation>, at: int)
    requires
        0 <= at <= ranked.len(),
    ensures
        at <= leading_accepted_endpoints(ranked, at) <= ranked.len(),
    decreases ranked.len() - at,
{
    if at < ranked.len() && ranked[at].accepted {
        lemma_leading_accepted_endpoints(ranked, at + 1);
    }
}

/// The place that an end's shuffle is keyed by.
pub open spec fn slot_position(route: Seq<usize>, slot: EndpointSlot) -> usize {
    match slot {
        EndpointSlot::Opening => 0,
        EndpointSlot::Closing => route.len() as usize,
    }
}

/// The order of the shuffled head of a ranking for an end.
pub open spec fn shuffled_endpoints(seed: u64, route: Seq<usize>, position: usize) -> spec_fn(
    EndpointCandidateEvaluation,
    EndpointCandidateEvaluation,
) -> bool {
    |a: EndpointCandidateEvaluation, b: EndpointCandidateEvaluation|
        variation_key_of(seed, route, position, a.candidate) <= variation_key_of(
            seed,
            route,
            position,
            b.candidate,
        )
}

/// The candidates for an end, the best first.
pub open spec fn endpoint_ranked(
    bridge: BridgeModel,
    route: Seq<usize>,
    slot: EndpointSlot,
    semantics: Seq<CandidateSemanticsView>,
    guidance: Guidance,
) -> Result<Seq<EndpointCandidateEvaluation>, PreviewErrorView> {
    match bridge.ranked_endpoints(route, slot, numbers_of(semantics)) {
        Err(error) => Err(PreviewErrorView::Scoring(error)),
        Ok(evaluations) => {
            let ranked = stable_sort(evaluations, guided_endpoint_first(semantics, guidance));
            let pool = pool_length(
                leading_accepted_endpoints(ranked, 0),
                guidance.variation_percent,
                guidance.minimum_pool as int,
            );
            if pool > 1 {
                Ok(
                    stable_sort(
                        ranked.take(pool),
                        shuffled_endpoints(guidance.seed, route, slot_position(route, slot)),
                    ) + ranked.skip(pool),
                )
            } else {
                Ok(ranked)
            }
        },
    }
}

/// A chosen candidate with its evidence.
pub open spec fn with_evidence(
    semantics: Seq<CandidateSemanticsView>,
    evaluation: EndpointCandidateEvaluation,
) -> SelectedEndpointView {
    SelectedEndpointView {
        semantics: last_finding(semantics, evaluation.candidate, semantics.len() as int)->Some_0,
        evaluation,
    }
}

/// The accepted ones among the first `count` candidates.
pub open spec fn accepted_endpoints_upto(
    semantics: Seq<CandidateSemanticsView>,
    ranked: Seq<EndpointCandidateEvaluation>,
    count: int,
) -> Seq<SelectedEndpointView>
    decreases count,
{
    if count <= 0 {
        seq![]
    } else if ranked[count - 1].accepted {
        accepted_endpoints_upto(semantics, ranked, count - 1).push(
            with_evidence(semantics, ranked[count - 1]),
        )
    } else {
        accepted_endpoints_upto(semantics, ranked, count - 1)
    }
}

/// The candidates that are tried at an end.
pub open spec fn endpoint_choices(
    bridge: BridgeModel,
    route: Seq<usize>,
    slot: EndpointSlot,
    semantics: Seq<CandidateSemanticsView>,
    limit: int,
    guidance: Guidance,
) -> Result<Seq<SelectedEndpointView>, PreviewErrorView> {
    match endpoint_ranked(bridge, route, slot, semantics, guidance) {
        Err(error) => Err(error),
        Ok(ranked) => Ok(
            first_few(accepted_endpoints_upto(semantics, ranked, ranked.len() as int), limit),
        ),
    }
}

/// A candidate with the number that it is ranked by.
#[derive(Clone, Copy)]
struct GuidedEndpoint {
    evaluation: EndpointCandidateEvaluation,
    guided: i128,
}

spec fn keyed_endpoint_first() -> spec_fn(GuidedEndpoint, GuidedEndpoint) -> bool {
    |a: GuidedEndpoint, b: GuidedEndpoint|
        if a.evaluation.accepted != b.evaluation.accepted {
            a.evaluation.accepted
        } else if a.guided != b.guided {
            a.guided < b.guided
        } else if a.evaluation.percentile != b.evaluation.percentile {
            a.evaluation.percentile < b.evaluation.percentile
        } else {
            a.evaluation.candidate <= b.evaluation.candidate
        }
}

fn guide_percentile(
    semantics: &[CandidateSemantics],
    guidance: &Guidance,
    candidate: usize,
    percentile: u64,
) -> (guided: i128)
    ensures
        guided == guided_percentile(views(semantics@), *guidance, candidate, percentile),
{
    match find_last(semantics, candidate) {
        Some(at) => semantics[at].adjusted_percentile(
            percentile,
            guidance.track_percent,
            guidance.artist_percent,
        ),
        None => percentile as i128,
    }
}

fn sort_guided_endpoints(
    evaluations: Vec<EndpointCandidateEvaluation>,
    semantics: &[CandidateSemantics],
    guidance: &Guidance,
) -> (ranked: Vec<EndpointCandidateEvaluation>)
    ensures
        ranked@ == stable_sort(
            evaluations@,
            guided_endpoint_first(views(semantics@), *guidance),
        ),
{
    let ghost all = views(semantics@);
    let ghost order = guided_endpoint_first(all, *guidance);
    let mut keyed: Vec<GuidedEndpoint> = Vec::new();
    let mut at: usize = 0;
    while at < evaluations.len()
        invariant
            at <= evaluations@.len(),
            all == views(semantics@),
            keyed@.len() == at,
            forall|i: int|
                0 <= i < at ==> (#[trigger] keyed@[i]).evaluation == evaluations@[i]
                    && keyed@[i].guided == guided_percentile(
                    all,
                    *guidance,
                    evaluations@[i].candidate,
                    evaluations@[i].percentile,
                ),
        decreases evaluations@.len() - at,
    {
        let evaluation = evaluations[at];
        let guided: i128 = guide_percentile(
            semantics,
            guidance,
            evaluation.candidate,
            evaluation.percentile,
        );
        keyed.push(GuidedEndpoint { evaluation, guided });
        at += 1;
    }
    let leq = |a: &GuidedEndpoint, b: &GuidedEndpoint| -> (first: bool)
        ensures
            first == keyed_endpoint_first()(*a, *b),
        {
            if a.evaluation.accepted != b.evaluation.accepted {
                a.evaluation.accepted
            } else if a.guided != b.guided {
                a.guided < b.guided
            } else if a.evaluation.percentile != b.evaluation.percentile {
                a.evaluation.percentile < b.evaluation.percentile
            } else {
                a.evaluation.candidate <= b.evaluation.candidate
            }
        };
    let ghost before = keyed@;
    let sorted = sort_by(keyed, &leq, Ghost(keyed_endpoint_first()));
    proof {
        let image = |item: GuidedEndpoint| item.evaluation;
        let imaged = |a: GuidedEndpoint, b: GuidedEndpoint| order(a.evaluation, b.evaluation);
        assert forall|i: int, j: int|
            #![trigger before[i], before[j]]
            0 <= i < before.len() && 0 <= j < before.len() implies keyed_endpoint_first()(
            before[i],
            before[j],
        ) == imaged(before[i], before[j]) by {
            assert(before[i].evaluation == evaluations@[i]);
            assert(before[j].evaluation == evaluations@[j]);
        }
        crate::sorting::lemma_same_ranking_same_sort(before, keyed_endpoint_first(), imaged);
        crate::sorting::lemma_sort_image(before, imaged, image, order);
        assert(before.map_values(image) =~= evaluations@);
    }
    let mut ranked: Vec<EndpointCandidateEvaluation> = Vec::new();
    let mut next: usize = 0;
    while next < sorted.len()
        invariant
            next <= sorted@.len(),
            ranked@ =~= sorted@.map_values(|item: GuidedEndpoint| item.evaluation).take(
                next as int,
            ),
        decreases sorted@.len() - next,
    {
        ranked.push(sorted[next].evaluation);
        next += 1;
    }
    assert(ranked@ =~= sorted@.map_values(|item: GuidedEndpoint| item.evaluation));
    ranked
}

/// Ranks the candidates for an end and picks those that are tried.
pub fn rank_endpoint_for_route<
    P: Fn(&[usize], u16) -> Result<(), ContextualError>,
    D: Fn(&[usize], u16, &[usize], usize) -> u64,
>(
    route: &[usize],
    slot: EndpointSlot,
    endpoint: &ExactEndpointSlot,
    candidate_limit: usize,
    guidance: &Guidance,
    scoring: &ExactScoringContext<'_, P, D>,
) -> (choices: Result<Vec<SelectedEndpoint>, PreviewError>)
    requires
        scoring.scorer.valid(),
        guidance.variation_percent <= 100,
        route@.len() < usize::MAX,
    ensures
        match endpoint_choices(
            scoring.model(),
            route@,
            slot,
            endpoint@.semantics.candidates,
            candidate_limit as int,
            *guidance,
        ) {
            Ok(found) => choices is Ok && views(choices->Ok_0@) == found,
            Err(error) => choices is Err && choices->Err_0@ == error,
        },
{
    let semantics = endpoint.semantics.candidates.as_slice();
    let ghost all = views(semantics@);
    let mut candidates: Vec<usize> = Vec::new();
    let mut at: usize = 0;
    while at < semantics.len()
        invariant
            at <= semantics@.len(),
            candidates@ =~= numbers_of(views(semantics@)).take(at as int),
        decreases semantics@.len() - at,
    {
        candidates.push(semantics[at].candidate);
        at += 1;
    }
    assert(candidates@ =~= numbers_of(all));
    let evaluations = match rank_endpoint_candidates(
        route,
        slot,
        candidates.as_slice(),
        scoring.tracks,
        scoring.scorer,
        scoring.config,
        scoring.reference,
    ) {
        Err(error) => {
            return Err(PreviewError::Scoring(error));
        },
        Ok(evaluations) => evaluations,
    };
    proof {
        lemma_endpoint_members(scoring.model(), route@, slot, numbers_of(all));
    }
    let ghost plain = evaluations@;
    let mut ranked = sort_guided_endpoints(evaluations, semantics, guidance);
    proof {
        crate::sorting::stable_sort_same_members(plain, guided_endpoint_first(all, *guidance));
        lemma_leading_accepted_endpoints(ranked@, 0);
    }
    let ghost sorted = ranked@;
    let mut accepted: usize = 0;
    while accepted < ranked.len() && ranked[accepted].accepted
        invariant
            accepted <= ranked@.len(),
            leading_accepted_endpoints(ranked@, 0) == leading_accepted_endpoints(
                ranked@,
                accepted as int,
            ),
        decreases ranked@.len() - accepted,
    {
        accepted += 1;
    }
    let pool: usize = varied_pool_length(
        accepted,
        guidance.variation_percent,
        guidance.minimum_pool,
    );
    if pool > 1 {
        let place: usize = match slot {
            EndpointSlot::Opening => 0,
            EndpointSlot::Closing => route.len(),
        };
        let mut tail = ranked.split_off(pool);
        assert(ranked@ =~= sorted.take(pool as int));
        assert(tail@ =~= sorted.skip(pool as int));
        let seed: u64 = guidance.seed;
        let leq = |a: &EndpointCandidateEvaluation, b: &EndpointCandidateEvaluation| -> (first:
            bool)
            ensures
                first == shuffled_endpoints(seed, route@, place)(*a, *b),
            {
                variation_key(seed, route, place, a.candidate) <= variation_key(
                    seed,
                    route,
                    place,
                    b.candidate,
                )
            };
        ranked = sort_by(ranked, &leq, Ghost(shuffled_endpoints(seed, route@, place)));
        proof {
            crate::sorting::stable_sort_same_members(
                sorted.take(pool as int),
                shuffled_endpoints(seed, route@, place),
            );
        }
        ranked.append(&mut tail);
    }
    proof {
        assert forall|i: int| 0 <= i < ranked@.len() implies numbers_of(all).contains(
            (#[trigger] ranked@[i]).candidate,
        ) by {
            if pool > 1 {
                let head = stable_sort(
                    sorted.take(pool as int),
                    shuffled_endpoints(guidance.seed, route@, slot_position(route@, slot)),
                );
                if i < pool {
                    assert(ranked@[i] == head[i]);
                    assert(head.contains(head[i]));
                    assert(sorted.take(pool as int).contains(head[i]));
                    let j = choose|j: int|
                        0 <= j < pool && sorted.take(pool as int)[j] == head[i];
                    assert(sorted.contains(sorted[j]));
                } else {
                    assert(ranked@[i] == sorted[i]);
                    assert(sorted.contains(sorted[i]));
                }
            } else {
                assert(sorted.contains(sorted[i]));
            }
            assert(plain.contains(ranked@[i]));
            let k = choose|k: int| 0 <= k < plain.len() && plain[k] == ranked@[i];
            assert(numbers_of(all).contains(plain[k].candidate));
        }
    }
    let mut choices: Vec<SelectedEndpoint> = Vec::new();
    let mut next: usize = 0;
    assert(views(choices@) =~= seq![]);
    while next < ranked.len()
        invariant
            next <= ranked@.len(),
            all == views(semantics@),
            forall|i: int|
                0 <= i < ranked@.len() ==> numbers_of(all).contains(
                    (#[trigger] ranked@[i]).candidate,
                ),
            views(choices@) =~= first_few(
                accepted_endpoints_upto(all, ranked@, next as int),
                candidate_limit as int,
            ),
        decreases ranked@.len() - next,
    {
        let evaluation = ranked[next];
        if evaluation.accepted && choices.len() < candidate_limit {
            proof {
                assert(numbers_of(all).contains(ranked@[next as int].candidate));
                let i = choose|i: int|
                    0 <= i < all.len() && numbers_of(all)[i] == evaluation.candidate;
                lemma_last_finding(all, evaluation.candidate, i, all.len() as int);
            }
            if let Some(entry) = find_last(semantics, evaluation.candidate) {
                let choice = SelectedEndpoint { semantics: semantics[entry].clone(), evaluation };
                proof {
                    assert(choice@ =~= with_evidence(all, evaluation));
                    lemma_views_push(choices@, choice);
                }
                choices.push(choice);
            }
        }
        next += 1;
    }
    Ok(choices)
}

proof fn lemma_last_finding(
    semantics: Seq<CandidateSemanticsView>,
    candidate: usize,
    at: int,
    count: int,
)
    requires
        0 <= at < count <= semantics.len(),
        semantics[at].candidate == candidate,
    ensures
        last_finding(semantics, candidate, count) is Some,
    decreases count,
{
    if semantics[count - 1].candidate != candidate {
        lemma_last_finding(semantics, candidate, at, count - 1);
    }
}

/// A ranking for an end holds only the candidates that went in, each truly
/// evaluated.
pub proof fn lemma_endpoint_members(
    model: BridgeModel,
    route: Seq<usize>,
    slot: EndpointSlot,
    candidates: Seq<usize>,
)
    ensures
        model.ranked_endpoints(route, slot, candidates) matches Ok(ranked) ==> forall|i: int|
            0 <= i < ranked.len() ==> candidates.contains((#[trigger] ranked[i]).candidate)
                && model.endpoint_evaluation(route, slot, ranked[i].candidate) == Ok::<
                EndpointCandidateEvaluation,
                crate::bridge::BridgeError,
            >(ranked[i]),
{
    lemma_endpoint_evaluations(model, route, slot, candidates, 0, seq![]);
    if let Ok(evaluations) = model.endpoint_evaluations_from(route, slot, candidates, 0, seq![]) {
        let order = crate::bridge::best_endpoint_first();
        crate::sorting::stable_sort_same_members(evaluations, order);
        let ranked = stable_sort(evaluations, order);
        assert forall|i: int| 0 <= i < ranked.len() implies candidates.contains(
            (#[trigger] ranked[i]).candidate,
        ) && model.endpoint_evaluation(route, slot, ranked[i].candidate) == Ok::<
            EndpointCandidateEvaluation,
            crate::bridge::BridgeError,
        >(ranked[i]) by {
            assert(ranked.contains(ranked[i]));
            assert(evaluations.contains(ranked[i]));
            let k = choose|k: int| 0 <= k < evaluations.len() && evaluations[k] == ranked[i];
            assert(candidates.contains(evaluations[k].candidate));
        }
    }
}

proof fn lemma_endpoint_evaluations(
    model: BridgeModel,
    route: Seq<usize>,
    slot: EndpointSlot,
    candidates: Seq<usize>,
    at: int,
    done: Seq<EndpointCandidateEvaluation>,
)
    requires
        0 <= at,
        forall|i: int|
            0 <= i < done.len() ==> candidates.contains((#[trigger] done[i]).candidate)
                && model.endpoint_evaluation(route, slot, done[i].candidate) == Ok::<
                EndpointCandidateEvaluation,
                crate::bridge::BridgeError,
            >(done[i]),
    ensures
        model.endpoint_evaluations_from(route, slot, candidates, at, done) matches Ok(evaluations)
            ==> forall|i: int|
            0 <= i < evaluations.len() ==> candidates.contains(
                (#[trigger] evaluations[i]).candidate,
            ) && model.endpoint_evaluation(route, slot, evaluations[i].candidate) == Ok::<
                EndpointCandidateEvaluation,
                crate::bridge::BridgeError,
            >(evaluations[i]),
    decreases candidates.len() - at,
{
    if at < candidates.len() {
        if let Ok(evaluation) = model.endpoint_evaluation(route, slot, candidates[at]) {
            assert(candidates.contains(candidates[at]));
            lemma_endpoint_evaluations(
                model,
                route,
                slot,
                candidates,
                at + 1,
                done.push(evaluation),
            );
        }
    }
}

// Trying the ends.

/// What is noted of a route with its ends.
#[verifier::ext_equal]
pub struct EndpointRecordView {
    pub decisions: Seq<GapDecisionView>,
    pub endpoint_decisions: Seq<EndpointDecisionView>,
}

/// What is noted of a route with its ends.
pub struct EndpointRecord {
    pub decisions: Vec<GapDecision>,
    pub endpoint_decisions: Vec<EndpointDecision>,
}

impl View for EndpointRecord {
    type V = EndpointRecordView;

    open spec fn view(&self) -> EndpointRecordView {
        EndpointRecordView {
            decisions: views(self.decisions@),
            endpoint_decisions: views(self.endpoint_decisions@),
        }
    }
}

/// The routes with their ends that were tried, and how much was looked at.
#[verifier::ext_equal]
pub struct EndpointRunView {
    pub variants: Seq<SearchStateView<EndpointRecordView>>,
    pub evaluated: int,
    pub retained: int,
    pub most: nat,
}

/// The routes with their ends that were tried, and how much was looked at.
struct EndpointRun {
    variants: Vec<SearchState<EndpointRecord>>,
    evaluated: usize,
    retained: usize,
    most: usize,
}

impl View for EndpointRun {
    type V = EndpointRunView;

    closed spec fn view(&self) -> EndpointRunView {
        EndpointRunView {
            variants: views(self.variants@),
            evaluated: self.evaluated as int,
            retained: self.retained as int,
            most: self.most as nat,
        }
    }
}

/// The decisions on the ends so far and the one on another end, where it may
/// take a track.
pub open spec fn noted_end(
    done: Seq<EndpointDecisionView>,
    slot: EndpointSlot,
    endpoint: Option<ExactEndpointSlotView>,
    selected: Option<SelectedEndpointView>,
) -> Seq<EndpointDecisionView> {
    match endpoint {
        None => done,
        Some(end) => done.push(
            EndpointDecisionView {
                slot,
                anchor: end.anchor,
                semantic_pool: end.semantics.pool,
                reason: if selected is Some {
                    DecisionReason::Selected
                } else {
                    DecisionReason::NotSelected
                },
                selected,
            },
        ),
    }
}

/// A route with a track in front, if one is chosen.
pub open spec fn opened(route: Seq<usize>, selected: Option<SelectedEndpointView>) -> Seq<usize> {
    match selected {
        Some(choice) => route.insert(0, choice.evaluation.candidate),
        None => route,
    }
}

/// A route with a track behind, if one is chosen.
pub open spec fn closed_with(route: Seq<usize>, selected: Option<SelectedEndpointView>) -> Seq<
    usize,
> {
    match selected {
        Some(choice) => route.push(choice.evaluation.candidate),
        None => route,
    }
}

/// The tracks that the first `count` decisions put into a gap.
pub open spec fn chosen_upto(
    decisions: Seq<GapDecisionView>,
    original_position: usize,
    count: int,
) -> Seq<usize>
    decreases count,
{
    if count <= 0 {
        seq![]
    } else {
        let before = chosen_upto(decisions, original_position, count - 1);
        let decision = decisions[count - 1];
        if decision.original_position == original_position {
            match decision.selected {
                Some(bridge) => before.push(bridge.evaluation.candidate),
                None => before,
            }
        } else {
            before
        }
    }
}

/// The tracks that decisions put into each gap.
pub open spec fn chosen_for_gaps(
    decisions: Seq<GapDecisionView>,
    gaps: Seq<AutomaticGapView>,
) -> Seq<Seq<usize>> {
    Seq::new(
        gaps.len(),
        |i: int| chosen_upto(decisions, gaps[i].original_position, decisions.len() as int),
    )
}

/// A configuration that asks for another number of tracks.
pub open spec fn asking(config: ExactSelectionConfig, requested: usize) -> ExactSelectionConfig {
    ExactSelectionConfig {
        requested_added_tracks: requested,
        candidate_limit: config.candidate_limit,
        beam_width: config.beam_width,
        max_tracks_per_gap: config.max_tracks_per_gap,
        track_guidance_percent: config.track_guidance_percent,
        artist_guidance_percent: config.artist_guidance_percent,
        variation_percent: config.variation_percent,
        generation_seed: config.generation_seed,
    }
}

/// What the ends are tried around: the gaps in order, the tracks in each, and
/// the ends.
#[verifier::ext_equal]
pub struct Inner {
    pub gaps: Seq<AutomaticGapView>,
    pub chosen: Seq<Seq<usize>>,
    pub ends: ExactEndpointSlotsView,
}

impl ExactModel {
    /// The run with one more route tried: a closing track or none.
    pub open spec fn with_closing(
        self,
        inner: Inner,
        route: Seq<usize>,
        noted: Seq<EndpointDecisionView>,
        closing: Option<SelectedEndpointView>,
        run: EndpointRunView,
    ) -> Result<EndpointRunView, PreviewErrorView> {
        let whole = closed_with(route, closing);
        match search_objective(self.bridge, whole, self.original) {
            Err(error) => Err(error),
            Ok(objective) => match final_decisions(
                self.bridge,
                self.config.guide(),
                whole,
                inner.gaps,
                inner.chosen,
            ) {
                Err(PreviewErrorView::FinalRouteInvalid(_)) => Ok(run),
                Err(error) => Err(error),
                Ok(decisions) => Ok(
                    EndpointRunView {
                        variants: run.variants.push(
                            SearchStateView {
                                route: whole,
                                objective,
                                record: EndpointRecordView {
                                    decisions,
                                    endpoint_decisions: noted_end(
                                        noted,
                                        EndpointSlot::Closing,
                                        inner.ends.closing,
                                        closing,
                                    ),
                                },
                            },
                        ),
                        evaluated: capped_sum(run.evaluated, 1),
                        retained: capped_sum(run.retained, 1),
                        most: larger(run.most, (whole.len() - self.original.len()) as nat),
                    },
                ),
            },
        }
    }

    /// The run with the closing tracks from `at` on tried.
    pub open spec fn closings_from(
        self,
        inner: Inner,
        route: Seq<usize>,
        noted: Seq<EndpointDecisionView>,
        choices: Seq<SelectedEndpointView>,
        at: int,
        run: EndpointRunView,
    ) -> Result<EndpointRunView, PreviewErrorView>
        decreases choices.len() - at,
    {
        if at >= choices.len() {
            Ok(run)
        } else {
            match self.with_closing(inner, route, noted, Some(choices[at]), run) {
                Err(error) => Err(error),
                Ok(next) => self.closings_from(inner, route, noted, choices, at + 1, next),
            }
        }
    }

    /// The candidates tried at an end of a route.
    pub open spec fn tried(
        self,
        route: Seq<usize>,
        slot: EndpointSlot,
        end: ExactEndpointSlotView,
    ) -> Result<Seq<SelectedEndpointView>, PreviewErrorView> {
        endpoint_choices(
            self.bridge,
            route,
            slot,
            end.semantics.candidates,
            self.config.candidate_limit as int,
            self.config.guide(),
        )
    }

    /// The run with one opening track or none tried.
    pub open spec fn with_opening(
        self,
        inner: Inner,
        route: Seq<usize>,
        opening: Option<SelectedEndpointView>,
        use_closing: bool,
        run: EndpointRunView,
    ) -> Result<EndpointRunView, PreviewErrorView> {
        let begun = opened(route, opening);
        let noted = noted_end(seq![], EndpointSlot::Opening, inner.ends.opening, opening);
        if use_closing && inner.ends.closing is Some {
            match self.tried(begun, EndpointSlot::Closing, inner.ends.closing->Some_0) {
                Err(error) => Err(error),
                Ok(choices) => self.closings_from(inner, begun, noted, choices, 0, run),
            }
        } else {
            self.with_closing(inner, begun, noted, None, run)
        }
    }

    /// The run with the opening tracks from `at` on tried.
    pub open spec fn openings_from(
        self,
        inner: Inner,
        route: Seq<usize>,
        use_closing: bool,
        choices: Seq<SelectedEndpointView>,
        at: int,
        run: EndpointRunView,
    ) -> Result<EndpointRunView, PreviewErrorView>
        decreases choices.len() - at,
    {
        if at >= choices.len() {
            Ok(run)
        } else {
            match self.with_opening(inner, route, Some(choices[at]), use_closing, run) {
                Err(error) => Err(error),
                Ok(next) => self.openings_from(inner, route, use_closing, choices, at + 1, next),
            }
        }
    }

    /// The search for what the ends leave to the gaps.
    pub open spec fn inside(self, end_count: int) -> ExactModel {
        ExactModel {
            bridge: self.bridge,
            original: self.original,
            config: asking(
                self.config,
                (self.config.requested_added_tracks - end_count) as usize,
            ),
        }
    }

    /// The run with one way to use the ends tried, where the ends may take
    /// tracks and enough are asked for.
    pub open spec fn combined(
        self,
        gaps: Seq<AutomaticGapView>,
        ends: ExactEndpointSlotsView,
        use_opening: bool,
        use_closing: bool,
        run: EndpointRunView,
    ) -> Result<EndpointRunView, PreviewErrorView> {
        let end_count = (if use_opening {
            1int
        } else {
            0
        }) + (if use_closing {
            1int
        } else {
            0
        });
        if (use_opening && ends.opening is None) || (use_closing && ends.closing is None)
            || end_count > self.config.requested_added_tracks {
            Ok(run)
        } else {
            match self.inside(end_count).selection(gaps) {
                Err(error) => Err(error),
                Ok(found) => {
                    let ordered = stable_sort(gaps, original_order());
                    let inner = Inner {
                        gaps: ordered,
                        chosen: chosen_for_gaps(found.decisions, ordered),
                        ends,
                    };
                    let counted = EndpointRunView {
                        variants: run.variants,
                        evaluated: capped_sum(
                            run.evaluated,
                            found.stats.evaluated_states as int,
                        ),
                        retained: capped_sum(run.retained, found.stats.retained_states as int),
                        most: larger(run.most, found.stats.maximum_additions_found as nat),
                    };
                    match found.final_route {
                        None => Ok(counted),
                        Some(route) => if use_opening {
                            match self.tried(
                                route,
                                EndpointSlot::Opening,
                                ends.opening->Some_0,
                            ) {
                                Err(error) => Err(error),
                                Ok(choices) => self.openings_from(
                                    inner,
                                    route,
                                    use_closing,
                                    choices,
                                    0,
                                    counted,
                                ),
                            }
                        } else {
                            self.with_opening(inner, route, None, use_closing, counted)
                        },
                    }
                },
            }
        }
    }

    /// The run with one more way to use the ends tried, unless it failed.
    pub open spec fn then_combined(
        self,
        gaps: Seq<AutomaticGapView>,
        ends: ExactEndpointSlotsView,
        use_opening: bool,
        use_closing: bool,
        run: Result<EndpointRunView, PreviewErrorView>,
    ) -> Result<EndpointRunView, PreviewErrorView> {
        match run {
            Err(error) => Err(error),
            Ok(before) => self.combined(gaps, ends, use_opening, use_closing, before),
        }
    }

    /// The run with every way to use the ends tried.
    pub open spec fn endpoint_run(
        self,
        gaps: Seq<AutomaticGapView>,
        ends: ExactEndpointSlotsView,
    ) -> Result<EndpointRunView, PreviewErrorView> {
        let none = EndpointRunView { variants: seq![], evaluated: 0, retained: 0, most: 0 };
        let plain = self.combined(gaps, ends, false, false, none);
        let closing = self.then_combined(gaps, ends, false, true, plain);
        let opening = self.then_combined(gaps, ends, true, false, closing);
        self.then_combined(gaps, ends, true, true, opening)
    }

    /// How many tracks the gaps, the ends and the candidates allow at most.
    pub open spec fn endpoint_bound(
        self,
        gaps: Seq<AutomaticGapView>,
        ends: ExactEndpointSlotsView,
    ) -> int {
        let inner = gap_candidates(gaps, gaps.len() as int);
        let with_opening = match ends.opening {
            Some(end) => with_candidates(
                inner,
                end.semantics.candidates,
                end.semantics.candidates.len() as int,
            ),
            None => inner,
        };
        let with_both = match ends.closing {
            Some(end) => with_candidates(
                with_opening,
                end.semantics.candidates,
                end.semantics.candidates.len() as int,
            ),
            None => with_opening,
        };
        let capacity = (if ends.opening is Some {
            1int
        } else {
            0
        }) + (if ends.closing is Some {
            1int
        } else {
            0
        });
        smaller(
            capped_sum(
                capped_product(gaps.len() as int, self.config.max_tracks_per_gap as int),
                capacity,
            ),
            with_both.len() as int,
        )
    }

    /// The selection that a run stands for.
    pub open spec fn endpoint_outcome(
        self,
        outcome: Result<EndpointRunView, PreviewErrorView>,
        bound: int,
    ) -> Result<ExactSelectionView, PreviewErrorView> {
        match outcome {
            Err(error) => Err(error),
            Ok(run) => {
                let winner = best_from(run.variants, None, 0, None);
                Ok(
                    ExactSelectionView {
                        requested_added_tracks: self.config.requested_added_tracks,
                        final_route: match winner {
                            Some(at) => Some(run.variants[at].route),
                            None => None,
                        },
                        decisions: match winner {
                            Some(at) => run.variants[at].record.decisions,
                            None => seq![],
                        },
                        endpoint_decisions: match winner {
                            Some(at) => run.variants[at].record.endpoint_decisions,
                            None => seq![],
                        },
                        stats: ExactSearchStats {
                            max_tracks_per_gap: self.config.max_tracks_per_gap,
                            evaluated_states: larger(run.evaluated as nat, 1) as usize,
                            retained_states: larger(run.retained as nat, 1) as usize,
                            maximum_additions_found: run.most as usize,
                            structural_upper_bound: bound as usize,
                        },
                    },
                )
            },
        }
    }

    /// The selection of an exact number of tracks with the ends.
    pub open spec fn endpoint_selection(
        self,
        gaps: Seq<AutomaticGapView>,
        ends: ExactEndpointSlotsView,
    ) -> Result<ExactSelectionView, PreviewErrorView> {
        if ends.opening is None && ends.closing is None {
            self.selection(gaps)
        } else {
            self.endpoint_outcome(
                self.endpoint_run(gaps, ends),
                self.endpoint_bound(gaps, ends),
            )
        }
    }
}

spec fn choice_in(selected: Option<&SelectedEndpoint>) -> Option<SelectedEndpointView> {
    match selected {
        Some(choice) => Some(choice@),
        None => None,
    }
}

fn note_end(
    decisions: &mut Vec<EndpointDecision>,
    slot: EndpointSlot,
    endpoint: &Option<ExactEndpointSlot>,
    selected: Option<&SelectedEndpoint>,
)
    ensures
        views(final(decisions)@) == noted_end(
            views(old(decisions)@),
            slot,
            slot_in(*endpoint),
            choice_in(selected),
        ),
{
    if let Some(end) = endpoint {
        let (reason, chosen) = match selected {
            Some(choice) => (DecisionReason::Selected, Some(choice.clone())),
            None => (DecisionReason::NotSelected, None),
        };
        let decision = EndpointDecision {
            slot,
            anchor: end.anchor,
            semantic_pool: end.semantics.pool,
            reason,
            selected: chosen,
        };
        proof {
            lemma_views_push(decisions@, decision);
        }
        decisions.push(decision);
    }
}

fn chosen_in_gap(decisions: &Vec<GapDecision>, original_position: usize) -> (chosen: Vec<usize>)
    ensures
        chosen@ == chosen_upto(
            views(decisions@),
            original_position,
            decisions@.len() as int,
        ),
{
    let ghost all = views(decisions@);
    let mut chosen: Vec<usize> = Vec::new();
    let mut at: usize = 0;
    while at < decisions.len()
        invariant
            at <= decisions@.len(),
            all == views(decisions@),
            chosen@ == chosen_upto(all, original_position, at as int),
        decreases decisions@.len() - at,
    {
        assert(all[at as int] == decisions@[at as int]@);
        if decisions[at].original_position == original_position {
            if let Some(bridge) = &decisions[at].selected {
                chosen.push(bridge.evaluation.candidate);
            }
        }
        at += 1;
    }
    chosen
}

fn chosen_in_gaps(decisions: &Vec<GapDecision>, gaps: &Vec<AutomaticGap>) -> (chosen: Vec<
    Vec<usize>,
>)
    ensures
        views(chosen@) == chosen_for_gaps(views(decisions@), views(gaps@)),
{
    let ghost all = views(gaps@);
    let mut chosen: Vec<Vec<usize>> = Vec::new();
    let mut at: usize = 0;
    while at < gaps.len()
        invariant
            at <= gaps@.len(),
            all == views(gaps@),
            views(chosen@) =~= chosen_for_gaps(views(decisions@), all).take(at as int),
        decreases gaps@.len() - at,
    {
        assert(all[at as int] == gaps@[at as int]@);
        let tracks = chosen_in_gap(decisions, gaps[at].original_position);
        proof {
            lemma_views_push(chosen@, tracks);
        }
        chosen.push(tracks);
        at += 1;
    }
    assert(views(chosen@) =~= chosen_for_gaps(views(decisions@), all));
    chosen
}

/// A search that may use the ends, and the gaps that it goes through.
struct EndpointSearch<'a, P, D> {
    original: &'a [usize],
    config: &'a ExactSelectionConfig,
    scoring: &'a ExactScoringContext<'a, P, D>,
    gaps: &'a [AutomaticGap],
    ordered: &'a Vec<AutomaticGap>,
    ends: &'a ExactEndpointSlots,
}

impl<
    'a,
    P: Fn(&[usize], u16) -> Result<(), ContextualError>,
    D: Fn(&[usize], u16, &[usize], usize) -> u64,
> EndpointSearch<'a, P, D> {
    spec fn model(&self) -> ExactModel {
        ExactModel {
            bridge: self.scoring.model(),
            original: self.original@,
            config: *self.config,
        }
    }

    spec fn valid(&self) -> bool {
        &&& self.scoring.scorer.valid()
        &&& self.config.variation_percent <= 100
        &&& self.original@.len() + self.gaps@.len() * MAX_EXACT_TRACKS_PER_GAP < usize::MAX - 4
        &&& views(self.ordered@) == stable_sort(views(self.gaps@), original_order())
    }

    spec fn inner(&self, chosen: Seq<Seq<usize>>) -> Inner {
        Inner { gaps: views(self.ordered@), chosen, ends: self.ends@ }
    }

    fn try_closing(
        &self,
        chosen: &Vec<Vec<usize>>,
        route: &Vec<usize>,
        noted: &Vec<EndpointDecision>,
        closing: Option<&SelectedEndpoint>,
        run: &mut EndpointRun,
    ) -> (outcome: Result<(), PreviewError>)
        requires
            self.valid(),
            route@.len() < usize::MAX - 1,
            self.original@.len() <= route@.len(),
        ensures
            match self.model().with_closing(
                self.inner(views(chosen@)),
                route@,
                views(noted@),
                choice_in(closing),
                old(run)@,
            ) {
                Ok(next) => outcome is Ok && final(run)@ == next,
                Err(error) => outcome is Err && outcome->Err_0@ == error,
            },
    {
        let mut whole = copied(route.as_slice());
        if let Some(choice) = closing {
            whole.push(choice.evaluation.candidate);
        }
        let mut ends = copied_ends(noted);
        note_end(&mut ends, EndpointSlot::Closing, &self.ends.closing, closing);
        let objective: u128 = match gap_search_objective(
            whole.as_slice(),
            self.original,
            self.scoring,
        ) {
            Err(error) => {
                return Err(error);
            },
            Ok(objective) => objective,
        };
        let decisions = match final_exact_decisions(
            whole.as_slice(),
            self.ordered.as_slice(),
            chosen.as_slice(),
            self.scoring,
            self.config,
        ) {
            Err(error) => {
                return match error {
                    PreviewError::FinalRouteInvalid(_) => Ok(()),
                    other => Err(other),
                };
            },
            Ok(decisions) => decisions,
        };
        run.evaluated = run.evaluated.saturating_add(1);
        run.retained = run.retained.saturating_add(1);
        run.most = larger_count(run.most, whole.len() - self.original.len());
        let variant = SearchState {
            route: whole,
            objective,
            record: EndpointRecord { decisions, endpoint_decisions: ends },
        };
        proof {
            lemma_views_push(run.variants@, variant);
        }
        run.variants.push(variant);
        Ok(())
    }

    fn try_opening(
        &self,
        chosen: &Vec<Vec<usize>>,
        route: &Vec<usize>,
        opening: Option<&SelectedEndpoint>,
        use_closing: bool,
        run: &mut EndpointRun,
    ) -> (outcome: Result<(), PreviewError>)
        requires
            self.valid(),
            route@.len() < usize::MAX - 2,
            self.original@.len() <= route@.len(),
        ensures
            match self.model().with_opening(
                self.inner(views(chosen@)),
                route@,
                choice_in(opening),
                use_closing,
                old(run)@,
            ) {
                Ok(next) => outcome is Ok && final(run)@ == next,
                Err(error) => outcome is Err && outcome->Err_0@ == error,
            },
    {
        let ghost model = self.model();
        let ghost inner = self.inner(views(chosen@));
        let ghost before = run@;
        let mut begun = copied(route.as_slice());
        if let Some(choice) = opening {
            begun.insert(0, choice.evaluation.candidate);
        }
        let mut noted: Vec<EndpointDecision> = Vec::new();
        assert(views(noted@) =~= seq![]);
        note_end(&mut noted, EndpointSlot::Opening, &self.ends.opening, opening);
        if use_closing {
            if let Some(end) = &self.ends.closing {
                let choices = match rank_endpoint_for_route(
                    begun.as_slice(),
                    EndpointSlot::Closing,
                    end,
                    self.config.candidate_limit,
                    &self.config.guidance(),
                    self.scoring,
                ) {
                    Err(error) => {
                        return Err(error);
                    },
                    Ok(choices) => choices,
                };
                let ghost all = views(choices@);
                let mut at: usize = 0;
                while at < choices.len()
                    invariant
                        at <= choices@.len(),
                        self.valid(),
                        model == self.model(),
                        inner == self.inner(views(chosen@)),
                        all == views(choices@),
                        before == old(run)@,
                        begun@.len() < usize::MAX - 1,
                        self.original@.len() <= begun@.len(),
                        model.with_opening(
                            inner,
                            route@,
                            choice_in(opening),
                            use_closing,
                            before,
                        ) == model.closings_from(inner, begun@, views(noted@), all, 0, before),
                        model.closings_from(inner, begun@, views(noted@), all, 0, before)
                            == model.closings_from(
                            inner,
                            begun@,
                            views(noted@),
                            all,
                            at as int,
                            run@,
                        ),
                    decreases choices@.len() - at,
                {
                    assert(all[at as int] == choices@[at as int]@);
                    match self.try_closing(chosen, &begun, &noted, Some(&choices[at]), run) {
                        Err(error) => {
                            return Err(error);
                        },
                        Ok(_) => {},
                    }
                    at += 1;
                }
                return Ok(());
            }
        }
        self.try_closing(chosen, &begun, &noted, None, run)
    }

    fn combine(&self, use_opening: bool, use_closing: bool, run: &mut EndpointRun) -> (outcome:
        Result<(), PreviewError>)
        requires
            self.valid(),
        ensures
            match self.model().combined(
                views(self.gaps@),
                self.ends@,
                use_opening,
                use_closing,
                old(run)@,
            ) {
                Ok(next) => outcome is Ok && final(run)@ == next,
                Err(error) => outcome is Err && outcome->Err_0@ == error,
            },
    {
        let ghost model = self.model();
        let ghost before = run@;
        let opening_count: usize = if use_opening { 1 } else { 0 };
        let closing_count: usize = if use_closing { 1 } else { 0 };
        let end_count: usize = opening_count + closing_count;
        if (use_opening && self.ends.opening.is_none()) || (use_closing
            && self.ends.closing.is_none()) || end_count > self.config.requested_added_tracks {
            return Ok(());
        }
        let inner_config = ExactSelectionConfig {
            requested_added_tracks: self.config.requested_added_tracks - end_count,
            candidate_limit: self.config.candidate_limit,
            beam_width: self.config.beam_width,
            max_tracks_per_gap: self.config.max_tracks_per_gap,
            track_guidance_percent: self.config.track_guidance_percent,
            artist_guidance_percent: self.config.artist_guidance_percent,
            variation_percent: self.config.variation_percent,
            generation_seed: self.config.generation_seed,
        };
        let found = match select_exact_count_bridges(
            self.original,
            self.gaps,
            &inner_config,
            self.scoring,
        ) {
            Err(error) => {
                return Err(error);
            },
            Ok(found) => found,
        };
        proof {
            lemma_selection_length(model.inside(end_count as int), views(self.gaps@));
        }
        run.evaluated = run.evaluated.saturating_add(found.stats.evaluated_states);
        run.retained = run.retained.saturating_add(found.stats.retained_states);
        run.most = larger_count(run.most, found.stats.maximum_additions_found);
        let ghost counted = run@;
        let route = match found.final_route {
            None => {
                return Ok(());
            },
            Some(route) => route,
        };
        let chosen = chosen_in_gaps(&found.decisions, self.ordered);
        let ghost inner = self.inner(views(chosen@));
        if use_opening {
            if let Some(end) = &self.ends.opening {
                let choices = match rank_endpoint_for_route(
                    route.as_slice(),
                    EndpointSlot::Opening,
                    end,
                    self.config.candidate_limit,
                    &self.config.guidance(),
                    self.scoring,
                ) {
                    Err(error) => {
                        return Err(error);
                    },
                    Ok(choices) => choices,
                };
                let ghost all = views(choices@);
                let mut at: usize = 0;
                while at < choices.len()
                    invariant
                        at <= choices@.len(),
                        self.valid(),
                        model == self.model(),
                        inner == self.inner(views(chosen@)),
                        all == views(choices@),
                        before == old(run)@,
                        route@.len() < usize::MAX - 2,
                        self.original@.len() <= route@.len(),
                        model.combined(
                            views(self.gaps@),
                            self.ends@,
                            use_opening,
                            use_closing,
                            before,
                        ) == model.openings_from(inner, route@, use_closing, all, 0, counted),
                        model.openings_from(inner, route@, use_closing, all, 0, counted)
                            == model.openings_from(
                            inner,
                            route@,
                            use_closing,
                            all,
                            at as int,
                            run@,
                        ),
                    decreases choices@.len() - at,
                {
                    assert(all[at as int] == choices@[at as int]@);
                    match self.try_opening(&chosen, &route, Some(&choices[at]), use_closing, run) {
                        Err(error) => {
                            return Err(error);
                        },
                        Ok(_) => {},
                    }
                    at += 1;
                }
                return Ok(());
            }
        }
        self.try_opening(&chosen, &route, None, use_closing, run)
    }
}

/// A route that is found adds exactly the requested number of tracks, and
/// without one there are no decisions.
pub proof fn lemma_selection_length(model: ExactModel, gaps: Seq<AutomaticGapView>)
    ensures
        model.selection(gaps) matches Ok(found) ==> {
            &&& found.final_route matches Some(route) ==> route.len() == model.original.len()
                + model.config.requested_added_tracks
            &&& found.final_route is None ==> found.decisions.len() == 0
            &&& found.endpoint_decisions.len() == 0
            &&& found.requested_added_tracks == model.config.requested_added_tracks
        },
{
    let ordered = stable_sort(gaps, original_order());
    let length = Some(model.original.len() + model.config.requested_added_tracks);
    if model.refusal() is None {
        if let Ok(objective) = search_objective(model.bridge, model.original, model.original) {
            if model.config.max_tracks_per_gap == 1 {
                let bound = crate::exact::gap_bound(ordered, 1);
                let prune = model.config.requested_added_tracks <= bound;
                if let Ok((progress, seen)) = model.single_from(
                    ordered,
                    prune,
                    0,
                    model.beginning(objective, seq![]),
                    0,
                ) {
                    crate::states::lemma_best(progress.states, length, 0, None);
                }
            } else {
                if let Ok(progress) = model.multi_from(
                    ordered,
                    0,
                    model.beginning(objective, seq![]),
                ) {
                    crate::states::lemma_best(progress.states, length, 0, None);
                }
            }
        }
    }
}

/// Chooses exactly as many tracks as are asked for, where the ends may take one
/// each, or none at all.
pub fn select_exact_count_bridges_with_endpoints<
    P: Fn(&[usize], u16) -> Result<(), ContextualError>,
    D: Fn(&[usize], u16, &[usize], usize) -> u64,
>(
    original_route: &[usize],
    gaps: &[AutomaticGap],
    selection_config: &ExactSelectionConfig,
    endpoints: &ExactEndpointSlots,
    scoring: &ExactScoringContext<'_, P, D>,
) -> (selection: Result<ExactSelection, PreviewError>)
    requires
        scoring.scorer.valid(),
        selection_config.variation_percent <= 100,
        original_route@.len() + gaps@.len() * MAX_EXACT_TRACKS_PER_GAP < usize::MAX - 4,
    ensures
        match (ExactModel {
            bridge: scoring.model(),
            original: original_route@,
            config: *selection_config,
        }).endpoint_selection(views(gaps@), endpoints@) {
            Ok(found) => selection is Ok && selection->Ok_0@ == found,
            Err(error) => selection is Err && selection->Err_0@ == error,
        },
{
    if endpoints.opening.is_none() && endpoints.closing.is_none() {
        return select_exact_count_bridges(original_route, gaps, selection_config, scoring);
    }
    let ordered = ordered_gaps(gaps);
    let search = EndpointSearch {
        original: original_route,
        config: selection_config,
        scoring,
        gaps,
        ordered: &ordered,
        ends: endpoints,
    };
    let ghost model = search.model();
    let mut run = EndpointRun { variants: Vec::new(), evaluated: 0, retained: 0, most: 0 };
    assert(views(run.variants@) =~= seq![]);
    match search.combine(false, false, &mut run) {
        Err(error) => {
            return Err(error);
        },
        Ok(_) => {},
    }
    match search.combine(false, true, &mut run) {
        Err(error) => {
            return Err(error);
        },
        Ok(_) => {},
    }
    match search.combine(true, false, &mut run) {
        Err(error) => {
            return Err(error);
        },
        Ok(_) => {},
    }
    match search.combine(true, true, &mut run) {
        Err(error) => {
            return Err(error);
        },
        Ok(_) => {},
    }
    let mut known = candidates_of_gaps(gaps);
    let mut capacity: usize = 0;
    if let Some(end) = &endpoints.opening {
        note_candidates(&mut known, &end.semantics.candidates);
        capacity += 1;
    }
    if let Some(end) = &endpoints.closing {
        note_candidates(&mut known, &end.semantics.candidates);
        capacity += 1;
    }
    let unique: usize = count_candidates(&known);
    let room: usize = match gaps.len().checked_mul(selection_config.max_tracks_per_gap) {
        Some(room) => room.saturating_add(capacity),
        None => usize::MAX,
    };
    let bound: usize = if room < unique { room } else { unique };
    assert(bound == model.endpoint_bound(views(gaps@), endpoints@));
    let stats = ExactSearchStats {
        max_tracks_per_gap: selection_config.max_tracks_per_gap,
        evaluated_states: larger_count(run.evaluated, 1),
        retained_states: larger_count(run.retained, 1),
        maximum_additions_found: run.most,
        structural_upper_bound: bound,
    };
    let mut variants = run.variants;
    let ghost tried = views(variants@);
    match find_best(&variants, None) {
        Some(index) => {
            assert(tried[index as int] == variants@[index as int]@);
            let state = variants.remove(index);
            Ok(
                ExactSelection {
                    requested_added_tracks: selection_config.requested_added_tracks,
                    final_route: Some(state.route),
                    decisions: state.record.decisions,
                    endpoint_decisions: state.record.endpoint_decisions,
                    stats,
                },
            )
        },
        None => {
            let none: Vec<GapDecision> = Vec::new();
            let ending: Vec<EndpointDecision> = Vec::new();
            assert(views(none@) =~= seq![]);
            assert(views(ending@) =~= seq![]);
            Ok(
                ExactSelection {
                    requested_added_tracks: selection_config.requested_added_tracks,
                    final_route: None,
                    decisions: none,
                    endpoint_decisions: ending,
                    stats,
                },
            )
        },
    }
}

} // verus!
