//! What each gap of a route is like: how its transition does, which candidates
//! there are for it, and which of them would do.

use crate::bridge::{
    accepted_bridge_keeps_every_limit, bridge_at_least, evaluate_gap, lemma_ranked_members,
    rank_candidates, shortlist_candidates, shortlist_narrows_and_keeps_the_winner,
    BridgeCandidateEvaluation, BridgeError, BridgeModel, ShortlistScoringContext,
};
use crate::command::{failed, CommandFailure, FailureView};
use crate::contextual::ContextualError;
use crate::exact::{count_candidates, note_candidates, with_candidates};
use crate::library::{bridge_candidate_id, LibraryTrack};
use crate::lookup::row_key;
use crate::preview::{
    find_last, numbers_of, AutomaticGap, AutomaticGapView, ExactScoringContext, SelectedBridge,
    SelectedBridgeView,
};
use crate::semantic::{
    gap_evidence, place_of_tier, rank_before, resolved, select_gap_candidates,
    selection_keeps_candidates, collection_support, local_support, supported, tier_place,
    unsupported, CandidateIdentity, CandidateSemantics, CandidateSemanticsView, EvidenceBundle,
    EvidenceEdge, GapEvidence, GapEvidenceView, SemanticPool, SemanticTier, TrackIdentity,
};
use crate::sequences::{in_range, lemma_views_push, views};
use crate::sorting::{
    first_few, is_ranking, lemma_same_ranking_same_sort, lemma_sort_image, sort_by, sort_views,
    stable_sort, stable_sort_same_members, truncate_views,
};
use std::cmp::Ordering;
use std::collections::HashSet;
use crate::units::exceeds;
use vstd::prelude::*;

verus! {

// Standing.

/// Which of two candidates more speaks for.
#[derive(Clone, Copy, Debug, PartialEq, Eq, Structural)]
pub enum Standing {
    Before,
    Level,
    Behind,
}

/// How a candidate stands to another by what speaks for them.
pub open spec fn standing(a: CandidateSemanticsView, b: CandidateSemanticsView) -> Standing {
    match a.priority(b) {
        Ordering::Less => Standing::Before,
        Ordering::Equal => Standing::Level,
        Ordering::Greater => Standing::Behind,
    }
}

fn stands(a: &CandidateSemantics, b: &CandidateSemantics) -> (result: Standing)
    ensures
        result == standing(a@, b@),
{
    match a.compare_priority(b) {
        Ordering::Less => Standing::Before,
        Ordering::Equal => Standing::Level,
        Ordering::Greater => Standing::Behind,
    }
}

/// Standing puts any candidates in order.
pub proof fn lemma_standing(
    a: CandidateSemanticsView,
    b: CandidateSemanticsView,
    c: CandidateSemanticsView,
)
    ensures
        standing(a, b) == Standing::Before <==> standing(b, a) == Standing::Behind,
        standing(a, b) == Standing::Level <==> standing(b, a) == Standing::Level,
        standing(a, b) != Standing::Behind && standing(b, c) != Standing::Behind ==> standing(a, c)
            != Standing::Behind,
        standing(a, b) == Standing::Level && standing(b, c) == Standing::Level ==> standing(a, c)
            == Standing::Level,
        standing(a, b) == Standing::Before && standing(b, c) != Standing::Behind ==> standing(a, c)
            == Standing::Before,
        standing(a, b) != Standing::Behind && standing(b, c) == Standing::Before ==> standing(a, c)
            == Standing::Before,
{
}

/// The best supported candidates first, then by their numbers.
pub open spec fn best_supported_first() -> spec_fn(
    CandidateSemanticsView,
    CandidateSemanticsView,
) -> bool {
    |a: CandidateSemanticsView, b: CandidateSemanticsView|
        match standing(a, b) {
            Standing::Before => true,
            Standing::Level => a.candidate <= b.candidate,
            Standing::Behind => false,
        }
}

/// Candidates can be ranked by what speaks for them.
pub proof fn lemma_best_supported_first()
    ensures
        is_ranking(best_supported_first()),
{
    let order = best_supported_first();
    assert forall|a: CandidateSemanticsView, b: CandidateSemanticsView| #[trigger]
        order(a, b) || order(b, a) by {
        lemma_standing(a, b, a);
    }
    assert forall|
        a: CandidateSemanticsView,
        b: CandidateSemanticsView,
        c: CandidateSemanticsView,
    |
        #![trigger order(a, b), order(b, c)]
        order(a, b) && order(b, c) implies order(a, c) by {
        lemma_standing(a, b, c);
    }
}

/// Whether one evaluated candidate is listed no later than another: accepted
/// ones first, then the better supported, then as bridges rank.
pub open spec fn listed_at_least(
    a_semantics: CandidateSemanticsView,
    b_semantics: CandidateSemanticsView,
    a: BridgeCandidateEvaluation,
    b: BridgeCandidateEvaluation,
) -> bool {
    if a.accepted != b.accepted {
        a.accepted
    } else {
        match standing(a_semantics, b_semantics) {
            Standing::Before => true,
            Standing::Level => bridge_at_least(a, b),
            Standing::Behind => false,
        }
    }
}

/// The order in which evaluated candidates are listed.
pub open spec fn listing_order(semantics: Seq<CandidateSemanticsView>) -> spec_fn(
    BridgeCandidateEvaluation,
    BridgeCandidateEvaluation,
) -> bool {
    |a: BridgeCandidateEvaluation, b: BridgeCandidateEvaluation|
        listed_at_least(
            resolved(semantics, a.candidate),
            resolved(semantics, b.candidate),
            a,
            b,
        )
}

/// An evaluated candidate with what it is listed by.
#[derive(Clone, Copy)]
struct Listed {
    evaluation: BridgeCandidateEvaluation,
    place: u8,
    confidence: i64,
    rank: Option<u64>,
}

spec fn listed_truly(item: Listed, semantics: Seq<CandidateSemanticsView>) -> bool {
    let found = resolved(semantics, item.evaluation.candidate);
    &&& item.place == tier_place(found.tier)
    &&& item.confidence == found.confidence()
    &&& item.rank == found.best_rank()
}

spec fn keyed_order() -> spec_fn(Listed, Listed) -> bool {
    |a: Listed, b: Listed|
        if a.evaluation.accepted != b.evaluation.accepted {
            a.evaluation.accepted
        } else if a.place != b.place {
            a.place < b.place
        } else if a.confidence != b.confidence {
            a.confidence > b.confidence
        } else if a.rank != b.rank {
            rank_before(a.rank, b.rank)
        } else {
            bridge_at_least(a.evaluation, b.evaluation)
        }
}

fn listed_first(a: &Listed, b: &Listed) -> (first: bool)
    ensures
        first == keyed_order()(*a, *b),
{
    let x = &a.evaluation;
    let y = &b.evaluation;
    if x.accepted != y.accepted {
        return x.accepted;
    }
    if a.place != b.place {
        return a.place < b.place;
    }
    if a.confidence != b.confidence {
        return a.confidence > b.confidence;
    }
    match (a.rank, b.rank) {
        (Some(left), Some(right)) => if left != right {
            return left < right;
        },
        (Some(_), None) => {
            return true;
        },
        (None, Some(_)) => {
            return false;
        },
        (None, None) => {},
    }
    if x.max_percentile != y.max_percentile {
        x.max_percentile < y.max_percentile
    } else if x.detour_percentile != y.detour_percentile {
        x.detour_percentile < y.detour_percentile
    } else {
        x.candidate <= y.candidate
    }
}

fn list_one(evaluation: BridgeCandidateEvaluation, semantics: &[CandidateSemantics]) -> (item: Listed)
    ensures
        item.evaluation == evaluation,
        listed_truly(item, views(semantics@)),
{
    match find_last(semantics, evaluation.candidate) {
        Some(at) => {
            let found = &semantics[at];
            Listed {
                evaluation,
                place: place_of_tier(found.tier),
                confidence: found.max_identity_confidence(),
                rank: found.best_raw_rank(),
            }
        },
        None => {
            let found = CandidateSemantics {
                candidate: evaluation.candidate,
                tier: SemanticTier::BlissOnly,
                evidence: Vec::new(),
            };
            assert(found@ =~= unsupported(evaluation.candidate));
            Listed {
                evaluation,
                place: place_of_tier(found.tier),
                confidence: found.max_identity_confidence(),
                rank: found.best_raw_rank(),
            }
        },
    }
}

/// Puts evaluated candidates in the order in which they are listed.
pub fn list_evaluations(
    evaluations: Vec<BridgeCandidateEvaluation>,
    semantics: &[CandidateSemantics],
) -> (listed: Vec<BridgeCandidateEvaluation>)
    ensures
        listed@ == stable_sort(evaluations@, listing_order(views(semantics@))),
{
    let ghost all = views(semantics@);
    let ghost order = listing_order(all);
    let mut keyed: Vec<Listed> = Vec::new();
    let mut at: usize = 0;
    while at < evaluations.len()
        invariant
            at <= evaluations@.len(),
            all == views(semantics@),
            keyed@.len() == at,
            forall|i: int|
                0 <= i < at ==> (#[trigger] keyed@[i]).evaluation == evaluations@[i]
                    && listed_truly(keyed@[i], all),
        decreases evaluations@.len() - at,
    {
        keyed.push(list_one(evaluations[at], semantics));
        at += 1;
    }
    let leq = |a: &Listed, b: &Listed| -> (first: bool)
        ensures
            first == keyed_order()(*a, *b),
        { listed_first(a, b) };
    let ghost before = keyed@;
    let sorted = sort_by(keyed, &leq, Ghost(keyed_order()));
    proof {
        let image = |item: Listed| item.evaluation;
        let imaged = |a: Listed, b: Listed| order(a.evaluation, b.evaluation);
        assert forall|i: int, j: int|
            #![trigger before[i], before[j]]
            0 <= i < before.len() && 0 <= j < before.len() implies keyed_order()(
            before[i],
            before[j],
        ) == imaged(before[i], before[j]) by {
            assert(listed_truly(before[i], all));
            assert(listed_truly(before[j], all));
        }
        lemma_same_ranking_same_sort(before, keyed_order(), imaged);
        lemma_sort_image(before, imaged, image, order);
        assert(before.map_values(image) =~= evaluations@);
    }
    let mut listed: Vec<BridgeCandidateEvaluation> = Vec::new();
    let mut next: usize = 0;
    while next < sorted.len()
        invariant
            next <= sorted@.len(),
            listed@ =~= sorted@.map_values(|item: Listed| item.evaluation).take(next as int),
        decreases sorted@.len() - next,
    {
        listed.push(sorted[next].evaluation);
        next += 1;
    }
    assert(listed@ =~= sorted@.map_values(|item: Listed| item.evaluation));
    listed
}

// Shortlists.

/// How many candidates with evidence are kept before the rest is narrowed down.
pub const SEMANTIC_SHORTLIST_RESERVE: usize = 32;

/// Whether a tier rests on evidence that leads from the ends of a gap.
pub open spec fn is_local(tier: SemanticTier) -> bool {
    tier == SemanticTier::RecordingBoth || tier == SemanticTier::RecordingOne || tier
        == SemanticTier::ArtistLocal
}

/// Those of the first `count` candidates with evidence from the ends of the gap.
pub open spec fn evidenced_upto(candidates: Seq<CandidateSemanticsView>, count: int) -> Seq<
    CandidateSemanticsView,
>
    decreases count,
{
    if count <= 0 {
        seq![]
    } else if is_local(candidates[count - 1].tier) {
        evidenced_upto(candidates, count - 1).push(candidates[count - 1])
    } else {
        evidenced_upto(candidates, count - 1)
    }
}

/// The candidates that are kept for their evidence.
pub open spec fn reserved(candidates: Seq<CandidateSemanticsView>, limit: usize) -> Seq<
    CandidateSemanticsView,
> {
    first_few(
        stable_sort(
            evidenced_upto(candidates, candidates.len() as int),
            best_supported_first(),
        ),
        if limit < SEMANTIC_SHORTLIST_RESERVE {
            limit as int
        } else {
            SEMANTIC_SHORTLIST_RESERVE as int
        },
    )
}

/// The numbers of those of the first `count` candidates that are not kept.
pub open spec fn others_upto(
    candidates: Seq<CandidateSemanticsView>,
    kept: Set<usize>,
    count: int,
) -> Seq<usize>
    decreases count,
{
    if count <= 0 {
        seq![]
    } else if kept.contains(candidates[count - 1].candidate) {
        others_upto(candidates, kept, count - 1)
    } else {
        others_upto(candidates, kept, count - 1).push(candidates[count - 1].candidate)
    }
}

/// Some numbers and the first `count` of others.
pub open spec fn with_numbers(known: Set<usize>, numbers: Seq<usize>, count: int) -> Set<usize>
    decreases count,
{
    if count <= 0 {
        known
    } else {
        with_numbers(known, numbers, count - 1).insert(numbers[count - 1])
    }
}

/// Those of the first `count` candidates that are kept.
pub open spec fn kept_upto(
    candidates: Seq<CandidateSemanticsView>,
    kept: Set<usize>,
    count: int,
) -> Seq<CandidateSemanticsView>
    decreases count,
{
    if count <= 0 {
        seq![]
    } else if kept.contains(candidates[count - 1].candidate) {
        kept_upto(candidates, kept, count - 1).push(candidates[count - 1])
    } else {
        kept_upto(candidates, kept, count - 1)
    }
}

/// How many more than `taken` candidates a limit allows.
pub open spec fn room_left(limit: usize, taken: nat) -> int {
    if taken <= limit {
        limit - taken
    } else {
        0
    }
}

/// The numbers of candidates that are kept for their evidence.
pub open spec fn reserved_numbers(candidates: Seq<CandidateSemanticsView>, limit: usize) -> Set<
    usize,
> {
    let best = reserved(candidates, limit);
    with_candidates(Set::empty(), best, best.len() as int)
}

/// The candidates of a gap that are scored strictly: all of them, or, beyond a
/// limit, those kept for their evidence and the best of the rest.
pub open spec fn shortlisted(
    model: BridgeModel,
    route: Seq<usize>,
    position: usize,
    candidates: Seq<CandidateSemanticsView>,
    limit: usize,
) -> Result<Seq<CandidateSemanticsView>, BridgeError> {
    if candidates.len() <= limit {
        Ok(candidates)
    } else {
        let kept = reserved_numbers(candidates, limit);
        match model.shortlist(
            route,
            position as int,
            others_upto(candidates, kept, candidates.len() as int),
            room_left(limit, kept.len()),
        ) {
            Err(error) => Err(error),
            Ok(acoustic) => Ok(
                kept_upto(
                    candidates,
                    with_numbers(kept, acoustic, acoustic.len() as int),
                    candidates.len() as int,
                ),
            ),
        }
    }
}

fn reserve(candidates: &[CandidateSemantics], limit: usize) -> (kept: HashSet<usize>)
    ensures
        kept@ == reserved_numbers(views(candidates@), limit),
{
    broadcast use vstd::std_specs::hash::group_hash_axioms;

    let ghost all = views(candidates@);
    let mut evidenced: Vec<CandidateSemantics> = Vec::new();
    let mut at: usize = 0;
    assert(views(evidenced@) =~= seq![]);
    while at < candidates.len()
        invariant
            at <= candidates@.len(),
            all == views(candidates@),
            views(evidenced@) == evidenced_upto(all, at as int),
        decreases candidates@.len() - at,
    {
        assert(all[at as int] == candidates@[at as int]@);
        let tier = candidates[at].tier;
        if tier == SemanticTier::RecordingBoth || tier == SemanticTier::RecordingOne || tier
            == SemanticTier::ArtistLocal {
            let item = candidates[at].clone();
            proof {
                lemma_views_push(evidenced@, item);
            }
            evidenced.push(item);
        }
        at += 1;
    }
    proof {
        lemma_best_supported_first();
    }
    let leq = |a: &CandidateSemantics, b: &CandidateSemantics| -> (first: bool)
        ensures
            first == best_supported_first()(a@, b@),
        {
            match stands(a, b) {
                Standing::Before => true,
                Standing::Level => a.candidate <= b.candidate,
                Standing::Behind => false,
            }
        };
    let mut best = sort_views(evidenced, &leq, Ghost(best_supported_first()));
    truncate_views(
        &mut best,
        if limit < SEMANTIC_SHORTLIST_RESERVE {
            limit
        } else {
            SEMANTIC_SHORTLIST_RESERVE
        },
    );
    let mut kept: HashSet<usize> = HashSet::new();
    assert(kept@ =~= Set::<usize>::empty());
    note_candidates(&mut kept, &best);
    kept
}

fn list_others(candidates: &[CandidateSemantics], kept: &HashSet<usize>) -> (others: Vec<usize>)
    ensures
        others@ == others_upto(views(candidates@), kept@, candidates@.len() as int),
{
    broadcast use vstd::std_specs::hash::group_hash_axioms;

    let ghost all = views(candidates@);
    let mut others: Vec<usize> = Vec::new();
    let mut at: usize = 0;
    assert(others@ =~= others_upto(all, kept@, 0));
    while at < candidates.len()
        invariant
            at <= candidates@.len(),
            all == views(candidates@),
            others@ == others_upto(all, kept@, at as int),
        decreases candidates@.len() - at,
    {
        broadcast use vstd::std_specs::hash::group_hash_axioms;

        assert(all[at as int] == candidates@[at as int]@);
        if !kept.contains(&candidates[at].candidate) {
            others.push(candidates[at].candidate);
        }
        at += 1;
    }
    others
}

fn keep_only(candidates: Vec<CandidateSemantics>, kept: &HashSet<usize>) -> (left: Vec<
    CandidateSemantics,
>)
    ensures
        views(left@) == kept_upto(views(candidates@), kept@, candidates@.len() as int),
{
    broadcast use vstd::std_specs::hash::group_hash_axioms;

    let ghost all = views(candidates@);
    let mut left: Vec<CandidateSemantics> = Vec::new();
    let mut at: usize = 0;
    assert(views(left@) =~= seq![]);
    while at < candidates.len()
        invariant
            at <= candidates@.len(),
            all == views(candidates@),
            views(left@) == kept_upto(all, kept@, at as int),
        decreases candidates@.len() - at,
    {
        broadcast use vstd::std_specs::hash::group_hash_axioms;

        assert(all[at as int] == candidates@[at as int]@);
        if kept.contains(&candidates[at].candidate) {
            let item = candidates[at].clone();
            proof {
                lemma_views_push(left@, item);
            }
            left.push(item);
        }
        at += 1;
    }
    left
}

/// Narrows the candidates of a gap down to a limit.
pub fn shortlist_gap<
    P: Fn(&[usize], u16) -> Result<(), ContextualError>,
    D: Fn(&[usize], u16, &[usize], usize) -> u64,
>(
    route: &[usize],
    position: usize,
    candidates: Vec<CandidateSemantics>,
    limit: usize,
    scoring: &ExactScoringContext<'_, P, D>,
) -> (left: Result<Vec<CandidateSemantics>, BridgeError>)
    requires
        scoring.scorer.valid(),
        route@.len() < usize::MAX,
    ensures
        match shortlisted(scoring.model(), route@, position, views(candidates@), limit) {
            Ok(kept) => left is Ok && views(left->Ok_0@) == kept,
            Err(error) => left is Err && left->Err_0 == error,
        },
{
    broadcast use vstd::std_specs::hash::group_hash_axioms;

    if candidates.len() <= limit {
        return Ok(candidates);
    }
    let mut kept = reserve(candidates.as_slice(), limit);
    let others = list_others(candidates.as_slice(), &kept);
    let taken: usize = count_candidates(&kept);
    let room: usize = limit.saturating_sub(taken);
    let acoustic = match shortlist_candidates(
        route,
        position,
        others.as_slice(),
        room,
        ShortlistScoringContext {
            tracks: scoring.tracks,
            scorer: scoring.scorer,
            config: scoring.config,
            reference: scoring.reference,
        },
    ) {
        Err(error) => {
            return Err(error);
        },
        Ok(acoustic) => acoustic,
    };
    let ghost before = kept@;
    let mut at: usize = 0;
    while at < acoustic.len()
        invariant
            at <= acoustic@.len(),
            kept@ == with_numbers(before, acoustic@, at as int),
        decreases acoustic@.len() - at,
    {
        broadcast use vstd::std_specs::hash::group_hash_axioms;

        kept.insert(acoustic[at]);
        at += 1;
    }
    Ok(keep_only(candidates, &kept))
}

// Reports.

/// An accepted candidate as it is reported.
#[verifier::ext_equal]
pub struct CandidateReportView {
    pub candidate_id: Seq<char>,
    pub bridge: SelectedBridgeView,
}

/// An accepted candidate as it is reported.
#[derive(Debug)]
pub struct CandidateReport {
    pub candidate_id: String,
    pub bridge: SelectedBridge,
}

impl View for CandidateReport {
    type V = CandidateReportView;

    open spec fn view(&self) -> CandidateReportView {
        CandidateReportView { candidate_id: self.candidate_id@, bridge: self.bridge@ }
    }
}

/// A gap as it is reported.
#[verifier::ext_equal]
pub struct GapReportView {
    pub position: usize,
    pub left_track_id: Seq<char>,
    pub right_track_id: Seq<char>,
    pub direct_distance: u64,
    pub direct_percentile: u64,
    pub triggering: Option<bool>,
    pub semantic_pool: SemanticPool,
    pub semantic_candidate_count: int,
    pub semantic_excluded_count: int,
    pub shortlisted_candidate_count: Option<int>,
    pub acoustic_shortlist_excluded_count: Option<int>,
    pub evaluated_candidate_count: int,
    pub accepted_candidate_count: int,
    pub repeat_rejected_count: int,
    pub acoustic_rejected_count: int,
    pub accepted_candidates: Seq<CandidateReportView>,
}

/// A gap as it is reported.
#[derive(Debug)]
pub struct GapReport {
    pub position: usize,
    pub left_track_id: String,
    pub right_track_id: String,
    pub direct_distance: u64,
    pub direct_percentile: u64,
    pub triggering: Option<bool>,
    pub semantic_pool: SemanticPool,
    pub semantic_candidate_count: usize,
    pub semantic_excluded_count: usize,
    pub shortlisted_candidate_count: Option<usize>,
    pub acoustic_shortlist_excluded_count: Option<usize>,
    pub evaluated_candidate_count: usize,
    pub accepted_candidate_count: usize,
    pub repeat_rejected_count: usize,
    pub acoustic_rejected_count: usize,
    pub accepted_candidates: Vec<CandidateReport>,
}

/// The value of a count that may be missing.
pub open spec fn count_in(count: Option<usize>) -> Option<int> {
    match count {
        Some(count) => Some(count as int),
        None => None,
    }
}

impl View for GapReport {
    type V = GapReportView;

    open spec fn view(&self) -> GapReportView {
        GapReportView {
            position: self.position,
            left_track_id: self.left_track_id@,
            right_track_id: self.right_track_id@,
            direct_distance: self.direct_distance,
            direct_percentile: self.direct_percentile,
            triggering: self.triggering,
            semantic_pool: self.semantic_pool,
            semantic_candidate_count: self.semantic_candidate_count as int,
            semantic_excluded_count: self.semantic_excluded_count as int,
            shortlisted_candidate_count: count_in(self.shortlisted_candidate_count),
            acoustic_shortlist_excluded_count: count_in(self.acoustic_shortlist_excluded_count),
            evaluated_candidate_count: self.evaluated_candidate_count as int,
            accepted_candidate_count: self.accepted_candidate_count as int,
            repeat_rejected_count: self.repeat_rejected_count as int,
            acoustic_rejected_count: self.acoustic_rejected_count as int,
            accepted_candidates: views(self.accepted_candidates@),
        }
    }
}

/// How many of the first `count` evaluated candidates are accepted.
pub open spec fn accepted_count(listed: Seq<BridgeCandidateEvaluation>, count: int) -> int
    decreases count,
{
    if count <= 0 {
        0
    } else {
        accepted_count(listed, count - 1) + if listed[count - 1].accepted {
            1int
        } else {
            0
        }
    }
}

/// How many of the first `count` evaluated candidates would repeat something.
pub open spec fn repeating_count(listed: Seq<BridgeCandidateEvaluation>, count: int) -> int
    decreases count,
{
    if count <= 0 {
        0
    } else {
        repeating_count(listed, count - 1) + if listed[count - 1].repeat_safe {
            0int
        } else {
            1
        }
    }
}

/// An accepted candidate with its identifier and its evidence.
pub open spec fn candidate_report(
    library: Seq<LibraryTrack>,
    semantics: Seq<CandidateSemanticsView>,
    evaluation: BridgeCandidateEvaluation,
) -> CandidateReportView {
    CandidateReportView {
        candidate_id: row_key(library[evaluation.candidate as int].row_id),
        bridge: SelectedBridgeView {
            semantics: resolved(semantics, evaluation.candidate),
            evaluation,
        },
    }
}

/// The accepted ones among the first `count` evaluated candidates, at most
/// `limit` of them.
pub open spec fn reported_upto(
    library: Seq<LibraryTrack>,
    semantics: Seq<CandidateSemanticsView>,
    listed: Seq<BridgeCandidateEvaluation>,
    limit: usize,
    count: int,
) -> Seq<CandidateReportView>
    decreases count,
{
    if count <= 0 {
        seq![]
    } else {
        let before = reported_upto(library, semantics, listed, limit, count - 1);
        if listed[count - 1].accepted && before.len() < limit {
            before.push(candidate_report(library, semantics, listed[count - 1]))
        } else {
            before
        }
    }
}

// Analyzing gaps.

/// What analyzing the gaps of a route is about.
#[verifier::ext_equal]
pub struct GapModel {
    pub bridge: BridgeModel,
    pub route: Seq<usize>,
    pub local: Seq<usize>,
    pub ids: Seq<Seq<char>>,
    pub edges: Seq<EvidenceEdge>,
    pub identities: Seq<TrackIdentity>,
    pub candidates: Seq<CandidateIdentity>,
    pub library: Seq<LibraryTrack>,
    pub shortlist_limit: usize,
    pub retained_limit: usize,
    pub trigger: Option<i64>,
}

/// A gap that has been analyzed: its report and what a selection needs of it.
#[verifier::ext_equal]
pub struct AnalyzedGap {
    pub report: GapReportView,
    pub gap: AutomaticGapView,
}

impl GapModel {
    /// The evidence for the candidates of a gap.
    pub open spec fn evidence(self, position: int) -> GapEvidenceView {
        gap_evidence(
            self.edges,
            self.identities[self.local[position - 1] as int],
            self.identities[self.local[position] as int],
            self.identities,
            self.candidates,
        )
    }

    /// The report of a gap whose candidates are narrowed down and evaluated.
    pub open spec fn report(
        self,
        position: usize,
        direct_distance: u64,
        direct_percentile: u64,
        pool: SemanticPool,
        all: int,
        kept: Seq<CandidateSemanticsView>,
        listed: Seq<BridgeCandidateEvaluation>,
    ) -> GapReportView {
        let evaluated = listed.len() as int;
        let accepted = accepted_count(listed, evaluated);
        let repeating = repeating_count(listed, evaluated);
        GapReportView {
            position,
            left_track_id: self.ids[position - 1],
            right_track_id: self.ids[position as int],
            direct_distance,
            direct_percentile,
            triggering: match self.trigger {
                Some(threshold) => Some(direct_percentile > threshold),
                None => None,
            },
            semantic_pool: pool,
            semantic_candidate_count: all,
            semantic_excluded_count: self.candidates.len() - all,
            shortlisted_candidate_count: if kept.len() < all {
                Some(kept.len() as int)
            } else {
                None
            },
            acoustic_shortlist_excluded_count: if kept.len() < all {
                Some(all - kept.len())
            } else {
                None
            },
            evaluated_candidate_count: evaluated,
            accepted_candidate_count: accepted,
            repeat_rejected_count: repeating,
            acoustic_rejected_count: evaluated - accepted - repeating,
            accepted_candidates: reported_upto(
                self.library,
                kept,
                listed,
                self.retained_limit,
                evaluated,
            ),
        }
    }

    /// A gap, analyzed.
    pub open spec fn analyzed(self, position: usize) -> Result<AnalyzedGap, FailureView> {
        let evidence = self.evidence(position as int);
        match self.bridge.gap(self.route, position) {
            Err(error) => Err(failed("BRIDGE_SCORING_FAILED"@, error.text())),
            Ok(gap) => match shortlisted(
                self.bridge,
                self.route,
                position,
                evidence.candidates,
                self.shortlist_limit,
            ) {
                Err(error) => Err(failed("BRIDGE_SHORTLIST_FAILED"@, error.text())),
                Ok(kept) => match self.bridge.ranked(
                    self.route,
                    position as int,
                    numbers_of(kept),
                    None,
                ) {
                    Err(error) => Err(failed("BRIDGE_SCORING_FAILED"@, error.text())),
                    Ok(ranked) => Ok(
                        AnalyzedGap {
                            report: self.report(
                                position,
                                gap.direct_distance,
                                gap.direct_percentile,
                                evidence.pool,
                                evidence.candidates.len() as int,
                                kept,
                                stable_sort(ranked, listing_order(kept)),
                            ),
                            gap: AutomaticGapView {
                                original_position: position,
                                left: self.route[position - 1],
                                right: self.route[position as int],
                                direct_distance: gap.direct_distance,
                                direct_percentile: gap.direct_percentile,
                                semantics: GapEvidenceView {
                                    pool: evidence.pool,
                                    candidates: kept,
                                },
                            },
                        },
                    ),
                },
            },
        }
    }

    /// The gaps from a position on, analyzed, behind those that are done.
    pub open spec fn analyzed_from(self, position: int, done: Seq<AnalyzedGap>) -> Result<
        Seq<AnalyzedGap>,
        FailureView,
    >
        decreases self.route.len() - position,
    {
        if position >= self.route.len() {
            Ok(done)
        } else {
            match self.analyzed(position as usize) {
                Err(failure) => Err(failure),
                Ok(gap) => self.analyzed_from(position + 1, done.push(gap)),
            }
        }
    }
}

/// What analyzing the gaps of a route needs.
pub struct GapAnalysis<'a, P, D> {
    pub scoring: &'a ExactScoringContext<'a, P, D>,
    pub route: &'a [usize],
    pub local: &'a [usize],
    pub ids: &'a [String],
    pub bundle: &'a EvidenceBundle,
    pub identities: &'a [TrackIdentity],
    pub candidates: &'a [CandidateIdentity],
    pub library: &'a [LibraryTrack],
    pub shortlist_limit: usize,
    pub retained_limit: usize,
    pub trigger: Option<i64>,
}

/// The analyzed gaps of a route: a report for each, and what a selection needs
/// of it.
#[derive(Debug)]
pub struct AnalyzedGaps {
    pub reports: Vec<GapReport>,
    pub gaps: Vec<AutomaticGap>,
}

/// The reports of analyzed gaps.
pub open spec fn reports_of(gaps: Seq<AnalyzedGap>) -> Seq<GapReportView> {
    Seq::new(gaps.len(), |i: int| gaps[i].report)
}

/// What a selection needs of analyzed gaps.
pub open spec fn gaps_of(gaps: Seq<AnalyzedGap>) -> Seq<AutomaticGapView> {
    Seq::new(gaps.len(), |i: int| gaps[i].gap)
}

fn numbers(semantics: &[CandidateSemantics]) -> (listed: Vec<usize>)
    ensures
        listed@ == numbers_of(views(semantics@)),
{
    let mut listed: Vec<usize> = Vec::new();
    let mut at: usize = 0;
    while at < semantics.len()
        invariant
            at <= semantics@.len(),
            listed@ =~= numbers_of(views(semantics@)).take(at as int),
        decreases semantics@.len() - at,
    {
        listed.push(semantics[at].candidate);
        at += 1;
    }
    assert(listed@ =~= numbers_of(views(semantics@)));
    listed
}

/// The evidence for a candidate, or that there is none.
pub fn find_evidence(semantics: &[CandidateSemantics], candidate: usize) -> (found: CandidateSemantics)
    ensures
        found@ == resolved(views(semantics@), candidate),
{
    match find_last(semantics, candidate) {
        Some(at) => semantics[at].clone(),
        None => {
            let found = CandidateSemantics {
                candidate,
                tier: SemanticTier::BlissOnly,
                evidence: Vec::new(),
            };
            assert(found@ =~= unsupported(candidate));
            found
        },
    }
}

fn report_candidates(
    library: &[LibraryTrack],
    semantics: &[CandidateSemantics],
    listed: &[BridgeCandidateEvaluation],
    limit: usize,
) -> (reports: Vec<CandidateReport>)
    requires
        forall|i: int| 0 <= i < listed@.len() ==> (#[trigger] listed@[i]).candidate < library@.len(),
    ensures
        views(reports@) == reported_upto(
            library@,
            views(semantics@),
            listed@,
            limit,
            listed@.len() as int,
        ),
{
    let mut reports: Vec<CandidateReport> = Vec::new();
    let mut at: usize = 0;
    assert(views(reports@) =~= seq![]);
    while at < listed.len()
        invariant
            at <= listed@.len(),
            forall|i: int|
                0 <= i < listed@.len() ==> (#[trigger] listed@[i]).candidate < library@.len(),
            views(reports@) == reported_upto(
                library@,
                views(semantics@),
                listed@,
                limit,
                at as int,
            ),
        decreases listed@.len() - at,
    {
        let evaluation = listed[at];
        assert(listed@[at as int].candidate < library@.len());
        if evaluation.accepted && reports.len() < limit {
            let report = CandidateReport {
                candidate_id: bridge_candidate_id(library[evaluation.candidate].row_id),
                bridge: SelectedBridge {
                    semantics: find_evidence(semantics, evaluation.candidate),
                    evaluation,
                },
            };
            proof {
                lemma_views_push(reports@, report);
            }
            reports.push(report);
        }
        at += 1;
    }
    reports
}

fn count_listed(listed: &[BridgeCandidateEvaluation]) -> (counts: (usize, usize))
    ensures
        counts.0 == accepted_count(listed@, listed@.len() as int),
        counts.1 == repeating_count(listed@, listed@.len() as int),
{
    let mut accepted: usize = 0;
    let mut repeating: usize = 0;
    let mut at: usize = 0;
    while at < listed.len()
        invariant
            at <= listed@.len(),
            accepted <= at,
            repeating <= at,
            accepted == accepted_count(listed@, at as int),
            repeating == repeating_count(listed@, at as int),
        decreases listed@.len() - at,
    {
        if listed[at].accepted {
            accepted += 1;
        }
        if !listed[at].repeat_safe {
            repeating += 1;
        }
        at += 1;
    }
    (accepted, repeating)
}

proof fn lemma_counts(listed: Seq<BridgeCandidateEvaluation>, count: int)
    requires
        0 <= count <= listed.len(),
        forall|i: int|
            0 <= i < listed.len() ==> ((#[trigger] listed[i]).accepted ==> listed[i].repeat_safe),
    ensures
        0 <= accepted_count(listed, count),
        0 <= repeating_count(listed, count),
        accepted_count(listed, count) + repeating_count(listed, count) <= count,
    decreases count,
{
    if count > 0 {
        lemma_counts(listed, count - 1);
    }
}

proof fn lemma_kept_few(candidates: Seq<CandidateSemanticsView>, kept: Set<usize>, count: int)
    requires
        0 <= count <= candidates.len(),
    ensures
        kept_upto(candidates, kept, count).len() <= count,
    decreases count,
{
    if count > 0 {
        lemma_kept_few(candidates, kept, count - 1);
    }
}

impl<
    'a,
    P: Fn(&[usize], u16) -> Result<(), ContextualError>,
    D: Fn(&[usize], u16, &[usize], usize) -> u64,
> GapAnalysis<'a, P, D> {
    /// What this analysis means.
    pub open spec fn model(&self) -> GapModel {
        GapModel {
            bridge: self.scoring.model(),
            route: self.route@,
            local: self.local@,
            ids: views(self.ids@),
            edges: self.bundle.edges@,
            identities: self.identities@,
            candidates: self.candidates@,
            library: self.library@,
            shortlist_limit: self.shortlist_limit,
            retained_limit: self.retained_limit,
            trigger: self.trigger,
        }
    }

    /// The parts fit together.
    pub open spec fn valid(&self) -> bool {
        &&& self.scoring.scorer.valid()
        &&& self.route@.len() < usize::MAX
        &&& self.local@.len() == self.route@.len()
        &&& self.ids@.len() == self.route@.len()
        &&& in_range(self.local@, self.identities@.len() as int)
        &&& self.scoring.tracks@.len() == self.library@.len()
    }

    fn report_gap(
        &self,
        position: usize,
        direct: (u64, u64),
        pool: SemanticPool,
        all: usize,
        kept: &Vec<CandidateSemantics>,
        listed: &Vec<BridgeCandidateEvaluation>,
    ) -> (report: GapReport)
        requires
            self.valid(),
            0 < position < self.route@.len(),
            all == self.candidates@.len(),
            kept@.len() <= all,
            forall|i: int|
                0 <= i < listed@.len() ==> (#[trigger] listed@[i]).candidate
                    < self.library@.len() && (listed@[i].accepted ==> listed@[i].repeat_safe),
        ensures
            report@ == self.model().report(
                position,
                direct.0,
                direct.1,
                pool,
                all as int,
                views(kept@),
                listed@,
            ),
    {
        let (accepted, repeating) = count_listed(listed.as_slice());
        proof {
            lemma_counts(listed@, listed@.len() as int);
        }
        let narrowed: bool = kept.len() < all;
        let report = GapReport {
            position,
            left_track_id: self.ids[position - 1].clone(),
            right_track_id: self.ids[position].clone(),
            direct_distance: direct.0,
            direct_percentile: direct.1,
            triggering: match self.trigger {
                Some(threshold) => Some(exceeds(direct.1, threshold)),
                None => None,
            },
            semantic_pool: pool,
            semantic_candidate_count: all,
            semantic_excluded_count: self.candidates.len() - all,
            shortlisted_candidate_count: if narrowed {
                Some(kept.len())
            } else {
                None
            },
            acoustic_shortlist_excluded_count: if narrowed {
                Some(all - kept.len())
            } else {
                None
            },
            evaluated_candidate_count: listed.len(),
            accepted_candidate_count: accepted,
            repeat_rejected_count: repeating,
            acoustic_rejected_count: listed.len() - accepted - repeating,
            accepted_candidates: report_candidates(
                self.library,
                kept.as_slice(),
                listed.as_slice(),
                self.retained_limit,
            ),
        };
        report
    }

    /// Analyzes one gap.
    pub fn analyze_gap(&self, position: usize) -> (analyzed: Result<
        (GapReport, AutomaticGap),
        CommandFailure,
    >)
        requires
            self.valid(),
            0 < position < self.route@.len(),
        ensures
            match self.model().analyzed(position) {
                Ok(gap) => analyzed is Ok && analyzed->Ok_0.0@ == gap.report
                    && analyzed->Ok_0.1@ == gap.gap,
                Err(failure) => analyzed is Err && analyzed->Err_0@ == failure,
            },
    {
        let ghost model = self.model();
        let scoring = self.scoring;
        let gap = match evaluate_gap(
            self.route,
            position,
            scoring.tracks,
            scoring.scorer,
            scoring.config,
            scoring.reference,
        ) {
            Err(error) => {
                return Err(CommandFailure::new("BRIDGE_SCORING_FAILED", error.message()));
            },
            Ok(gap) => gap,
        };
        assert(self.local@[position - 1] < self.identities@.len());
        assert(self.local@[position as int] < self.identities@.len());
        let left = &self.identities[self.local[position - 1]];
        let right = &self.identities[self.local[position]];
        let evidence = select_gap_candidates(
            self.bundle,
            left,
            right,
            self.identities,
            self.candidates,
        );
        proof {
            selection_keeps_candidates(
                supported(
                    self.candidates@,
                    |candidate: CandidateIdentity|
                        local_support(self.bundle.edges@, *left, *right, candidate),
                ),
                supported(
                    self.candidates@,
                    |candidate: CandidateIdentity|
                        collection_support(self.bundle.edges@, self.identities@, candidate),
                ),
                self.candidates@,
            );
        }
        let all: usize = evidence.candidates.len();
        let pool = evidence.pool;
        let ghost whole = views(evidence.candidates@);
        let kept = match shortlist_gap(
            self.route,
            position,
            evidence.candidates,
            self.shortlist_limit,
            scoring,
        ) {
            Err(error) => {
                return Err(CommandFailure::new("BRIDGE_SHORTLIST_FAILED", error.message()));
            },
            Ok(kept) => kept,
        };
        let listed_numbers = numbers(kept.as_slice());
        let ranked = match rank_candidates(
            self.route,
            position,
            listed_numbers.as_slice(),
            scoring.tracks,
            scoring.scorer,
            scoring.config,
            scoring.reference,
        ) {
            Err(error) => {
                return Err(CommandFailure::new("BRIDGE_SCORING_FAILED", error.message()));
            },
            Ok(ranked) => ranked,
        };
        let ghost first = ranked@;
        let listed = list_evaluations(ranked, kept.as_slice());
        proof {
            lemma_ranked_members(
                model.bridge,
                self.route@,
                position as int,
                listed_numbers@,
                None,
            );
            stable_sort_same_members(first, listing_order(views(kept@)));
            assert forall|i: int| 0 <= i < listed@.len() implies (#[trigger] listed@[i]).candidate
                < self.library@.len() && (listed@[i].accepted ==> listed@[i].repeat_safe) by {
                assert(listed@.contains(listed@[i]));
                assert(first.contains(listed@[i]));
                let j = choose|j: int| 0 <= j < first.len() && first[j] == listed@[i];
                accepted_bridge_keeps_every_limit(
                    model.bridge,
                    self.route@,
                    position as int,
                    first[j].candidate,
                    None,
                );
            }
            let numbers_kept = reserved_numbers(whole, self.shortlist_limit);
            assert(views(kept@).len() <= whole.len()) by {
                if whole.len() > self.shortlist_limit {
                    let acoustic = model.bridge.shortlist(
                        self.route@,
                        position as int,
                        others_upto(whole, numbers_kept, whole.len() as int),
                        room_left(self.shortlist_limit, numbers_kept.len()),
                    )->Ok_0;
                    lemma_kept_few(
                        whole,
                        with_numbers(numbers_kept, acoustic, acoustic.len() as int),
                        whole.len() as int,
                    );
                }
            }
        }
        let report = self.report_gap(
            position,
            (gap.direct_distance, gap.direct_percentile),
            pool,
            all,
            &kept,
            &listed,
        );
        let semantics = GapEvidence { pool, candidates: kept };
        Ok(
            (
                report,
                AutomaticGap {
                    original_position: position,
                    left: self.route[position - 1],
                    right: self.route[position],
                    direct_distance: gap.direct_distance,
                    direct_percentile: gap.direct_percentile,
                    semantics,
                },
            ),
        )
    }

    /// Analyzes the gaps from a position on.
    pub fn analyze_gaps(&self, first: usize) -> (analyzed: Result<AnalyzedGaps, CommandFailure>)
        requires
            self.valid(),
            0 < first,
        ensures
            match self.model().analyzed_from(first as int, seq![]) {
                Ok(gaps) => analyzed is Ok && views(analyzed->Ok_0.reports@) == reports_of(gaps)
                    && views(analyzed->Ok_0.gaps@) == gaps_of(gaps),
                Err(failure) => analyzed is Err && analyzed->Err_0@ == failure,
            },
    {
        let ghost model = self.model();
        let ghost mut done: Seq<AnalyzedGap> = seq![];
        let mut reports: Vec<GapReport> = Vec::new();
        let mut gaps: Vec<AutomaticGap> = Vec::new();
        let mut position: usize = first;
        assert(views(reports@) =~= reports_of(done));
        assert(views(gaps@) =~= gaps_of(done));
        while position < self.route.len()
            invariant
                self.valid(),
                0 < position,
                model == self.model(),
                views(reports@) == reports_of(done),
                views(gaps@) == gaps_of(done),
                model.analyzed_from(first as int, seq![]) == model.analyzed_from(
                    position as int,
                    done,
                ),
            decreases self.route@.len() - position,
        {
            let (report, gap) = match self.analyze_gap(position) {
                Err(failure) => {
                    return Err(failure);
                },
                Ok(analyzed) => analyzed,
            };
            proof {
                lemma_views_push(reports@, report);
                lemma_views_push(gaps@, gap);
                let next = done.push(AnalyzedGap { report: report@, gap: gap@ });
                assert(reports_of(next) =~= reports_of(done).push(report@));
                assert(gaps_of(next) =~= gaps_of(done).push(gap@));
                done = next;
            }
            reports.push(report);
            gaps.push(gap);
            position += 1;
        }
        Ok(AnalyzedGaps { reports, gaps })
    }
}

// Laws of shortlists.

proof fn lemma_with_candidates_size(known: Set<usize>, semantics: Seq<CandidateSemanticsView>, count: int)
    requires
        known.finite(),
        0 <= count <= semantics.len(),
    ensures
        with_candidates(known, semantics, count).finite(),
        with_candidates(known, semantics, count).len() <= known.len() + count,
        forall|i: int|
            0 <= i < count ==> with_candidates(known, semantics, count).contains(
                (#[trigger] semantics[i]).candidate,
            ),
    decreases count,
{
    if count > 0 {
        lemma_with_candidates_size(known, semantics, count - 1);
    }
}

proof fn lemma_with_numbers_size(known: Set<usize>, numbers: Seq<usize>, count: int)
    requires
        known.finite(),
        0 <= count <= numbers.len(),
    ensures
        with_numbers(known, numbers, count).finite(),
        with_numbers(known, numbers, count).len() <= known.len() + count,
        known.subset_of(with_numbers(known, numbers, count)),
    decreases count,
{
    if count > 0 {
        lemma_with_numbers_size(known, numbers, count - 1);
    }
}

proof fn lemma_kept_members(
    candidates: Seq<CandidateSemanticsView>,
    kept: Set<usize>,
    count: int,
)
    requires
        0 <= count <= candidates.len(),
    ensures
        forall|i: int|
            0 <= i < count && kept.contains((#[trigger] candidates[i]).candidate) ==> kept_upto(
                candidates,
                kept,
                count,
            ).contains(candidates[i]),
        forall|item: CandidateSemanticsView| #[trigger]
            kept_upto(candidates, kept, count).contains(item) ==> kept.contains(item.candidate)
                && exists|i: int| 0 <= i < count && candidates[i] == item,
    decreases count,
{
    if count > 0 {
        lemma_kept_members(candidates, kept, count - 1);
        let before = kept_upto(candidates, kept, count - 1);
        let after = kept_upto(candidates, kept, count);
        if kept.contains(candidates[count - 1].candidate) {
            assert(after[before.len() as int] == candidates[count - 1]);
            assert forall|i: int|
                0 <= i < count && kept.contains(
                    (#[trigger] candidates[i]).candidate,
                ) implies after.contains(candidates[i]) by {
                if i < count - 1 {
                    assert(before.contains(candidates[i]));
                    let j = choose|j: int| 0 <= j < before.len() && before[j] == candidates[i];
                    assert(after[j] == candidates[i]);
                }
            }
            assert forall|item: CandidateSemanticsView| #[trigger]
                after.contains(item) implies kept.contains(item.candidate) && exists|i: int|
                0 <= i < count && candidates[i] == item by {
                let j = choose|j: int| 0 <= j < after.len() && after[j] == item;
                if j < before.len() {
                    assert(before[j] == item);
                    assert(before.contains(item));
                    let i = choose|i: int| 0 <= i < count - 1 && candidates[i] == item;
                    assert(0 <= i < count && candidates[i] == item);
                } else {
                    assert(0 <= count - 1 < count && candidates[count - 1] == item);
                }
            }
        } else {
            assert forall|item: CandidateSemanticsView| #[trigger]
                after.contains(item) implies kept.contains(item.candidate) && exists|i: int|
                0 <= i < count && candidates[i] == item by {
                assert(before.contains(item));
                let i = choose|i: int| 0 <= i < count - 1 && candidates[i] == item;
                assert(0 <= i < count && candidates[i] == item);
            }
        }
    } else {
        assert forall|item: CandidateSemanticsView| #[trigger]
            kept_upto(candidates, kept, count).contains(item) implies kept.contains(item.candidate)
            && exists|i: int| 0 <= i < count && candidates[i] == item by {}
    }
}

proof fn lemma_kept_size(candidates: Seq<CandidateSemanticsView>, kept: Set<usize>, count: int)
    requires
        0 <= count <= candidates.len(),
        kept.finite(),
        numbers_of(candidates).no_duplicates(),
    ensures
        kept_upto(candidates, kept, count).len() <= kept.intersect(
            numbers_of(candidates).take(count).to_set(),
        ).len(),
    decreases count,
{
    let numbers = numbers_of(candidates);
    let within = kept.intersect(numbers.take(count).to_set());
    if count > 0 {
        lemma_kept_size(candidates, kept, count - 1);
        let earlier = numbers.take(count - 1);
        let before = kept.intersect(earlier.to_set());
        let number = numbers[count - 1];
        assert(within.finite());
        assert(before.finite());
        assert(numbers.take(count) =~= numbers.take(count - 1).push(number));
        assert forall|x: usize| before.contains(x) implies within.contains(x) by {
            let j = choose|j: int| 0 <= j < earlier.len() && earlier[j] == x;
            assert(numbers.take(count)[j] == x);
        }
        if kept.contains(number) {
            assert(numbers.take(count)[count - 1] == number);
            assert(within.contains(number));
            assert(!before.contains(number)) by {
                if before.contains(number) {
                    let j = choose|j: int| 0 <= j < earlier.len() && earlier[j] == number;
                    assert(numbers[j] == numbers[count - 1]);
                }
            }
            vstd::set_lib::lemma_len_subset(before.insert(number), within);
        } else {
            vstd::set_lib::lemma_len_subset(before, within);
        }
    }
}

/// A shortlist only narrows: what it holds is among the candidates, those kept
/// for their evidence are in it, and where no candidate comes twice it stays
/// within its limit. Without need to narrow it leaves the candidates alone.
pub proof fn shortlists_narrow_and_reserve_evidence(
    model: BridgeModel,
    route: Seq<usize>,
    position: usize,
    candidates: Seq<CandidateSemanticsView>,
    limit: usize,
)
    ensures
        shortlisted(model, route, position, candidates, limit) matches Ok(kept) ==> {
            &&& forall|i: int| 0 <= i < kept.len() ==> candidates.contains(#[trigger] kept[i])
            &&& forall|i: int|
                0 <= i < candidates.len() && reserved(candidates, limit).contains(
                    #[trigger] candidates[i],
                ) && candidates.len() > limit ==> kept.contains(candidates[i])
            &&& numbers_of(candidates).no_duplicates() ==> kept.len() <= limit
            &&& candidates.len() <= limit ==> kept == candidates
        },
{
    if let Ok(kept) = shortlisted(model, route, position, candidates, limit) {
        if candidates.len() > limit {
            let best = reserved(candidates, limit);
            let known = reserved_numbers(candidates, limit);
            let others = others_upto(candidates, known, candidates.len() as int);
            let room = room_left(limit, known.len());
            let acoustic = model.shortlist(route, position as int, others, room)->Ok_0;
            let all = with_numbers(known, acoustic, acoustic.len() as int);
            lemma_with_candidates_size(Set::empty(), best, best.len() as int);
            lemma_with_numbers_size(known, acoustic, acoustic.len() as int);
            shortlist_narrows_and_keeps_the_winner(model, route, position as int, others, room);
            lemma_kept_members(candidates, all, candidates.len() as int);
            assert forall|i: int| 0 <= i < kept.len() implies candidates.contains(
                #[trigger] kept[i],
            ) by {
                assert(kept.contains(kept[i]));
                let j = choose|j: int| 0 <= j < candidates.len() && candidates[j] == kept[i];
                assert(candidates[j] == kept[i]);
            }
            assert forall|i: int|
                0 <= i < candidates.len() && best.contains(
                    #[trigger] candidates[i],
                ) implies kept.contains(candidates[i]) by {
                let j = choose|j: int| 0 <= j < best.len() && best[j] == candidates[i];
                assert(known.contains(best[j].candidate));
                assert(all.contains(candidates[i].candidate));
            }
            if numbers_of(candidates).no_duplicates() {
                lemma_kept_size(candidates, all, candidates.len() as int);
                let within = all.intersect(
                    numbers_of(candidates).take(candidates.len() as int).to_set(),
                );
                vstd::set_lib::lemma_len_subset(within, all);
            }
        }
    }
}

/// What is added to a set is in it, and nothing else is.
proof fn lemma_with_numbers_members(
    known: Set<usize>,
    numbers: Seq<usize>,
    count: int,
    asked: usize,
)
    requires
        0 <= count <= numbers.len(),
    ensures
        with_numbers(known, numbers, count).contains(asked) == (known.contains(asked)
            || numbers.take(count).contains(asked)),
    decreases count,
{
    if count > 0 {
        lemma_with_numbers_members(known, numbers, count - 1, asked);
        let after = numbers.take(count);
        let before = numbers.take(count - 1);
        assert(after =~= before.push(numbers[count - 1]));
        assert(after[count - 1] == numbers[count - 1]);
        if before.contains(asked) {
            let i = choose|i: int| 0 <= i < before.len() && before[i] == asked;
            assert(after[i] == asked);
        }
        if after.contains(asked) && asked != numbers[count - 1] {
            let i = choose|i: int| 0 <= i < after.len() && after[i] == asked;
            assert(before[i] == asked);
        }
    }
}

/// Without evidence from the ends of the gap nothing is kept for its evidence.
proof fn lemma_nothing_evidenced(candidates: Seq<CandidateSemanticsView>, count: int)
    requires
        0 <= count <= candidates.len(),
        forall|i: int| 0 <= i < candidates.len() ==> !is_local((#[trigger] candidates[i]).tier),
    ensures
        evidenced_upto(candidates, count) == Seq::<CandidateSemanticsView>::empty(),
    decreases count,
{
    if count > 0 {
        lemma_nothing_evidenced(candidates, count - 1);
    }
}

/// Where nothing is kept, every number is left to the acoustic order.
proof fn lemma_all_others(candidates: Seq<CandidateSemanticsView>, count: int)
    requires
        0 <= count <= candidates.len(),
    ensures
        others_upto(candidates, Set::empty(), count) == numbers_of(candidates).take(count),
    decreases count,
{
    if count > 0 {
        lemma_all_others(candidates, count - 1);
        assert(numbers_of(candidates).take(count) =~= numbers_of(candidates).take(count - 1).push(
            candidates[count - 1].candidate,
        ));
    } else {
        assert(numbers_of(candidates).take(0) =~= seq![]);
    }
}

/// A gap none of whose candidates has evidence from its ends is narrowed by ear
/// alone: nothing is kept for its evidence, and the candidates that stay are
/// those that the acoustic order of all of them puts within the limit. Evidence
/// from the rest of the collection reserves no place.
pub proof fn shortlists_without_local_evidence_are_acoustic(
    model: BridgeModel,
    route: Seq<usize>,
    position: usize,
    candidates: Seq<CandidateSemanticsView>,
    limit: usize,
)
    requires
        candidates.len() > limit,
        forall|i: int| 0 <= i < candidates.len() ==> !is_local((#[trigger] candidates[i]).tier),
    ensures
        reserved(candidates, limit).len() == 0,
        match model.shortlist(route, position as int, numbers_of(candidates), limit as int) {
            Err(error) => shortlisted(model, route, position, candidates, limit) == Err::<
                Seq<CandidateSemanticsView>,
                BridgeError,
            >(error),
            Ok(acoustic) => {
                &&& shortlisted(model, route, position, candidates, limit) is Ok
                &&& forall|i: int|
                    0 <= i < candidates.len() ==> shortlisted(
                        model,
                        route,
                        position,
                        candidates,
                        limit,
                    )->Ok_0.contains(#[trigger] candidates[i]) == acoustic.contains(
                        candidates[i].candidate,
                    )
            },
        },
{
    let count = candidates.len() as int;
    lemma_nothing_evidenced(candidates, count);
    let best = reserved(candidates, limit);
    assert(best.len() == 0);
    let known = reserved_numbers(candidates, limit);
    assert(known =~= Set::empty());
    lemma_all_others(candidates, count);
    assert(numbers_of(candidates).take(count) =~= numbers_of(candidates));
    if let Ok(acoustic) = model.shortlist(
        route,
        position as int,
        numbers_of(candidates),
        limit as int,
    ) {
        let all = with_numbers(known, acoustic, acoustic.len() as int);
        lemma_kept_members(candidates, all, count);
        assert(acoustic.take(acoustic.len() as int) =~= acoustic);
        assert forall|i: int| 0 <= i < candidates.len() implies all.contains(
            (#[trigger] candidates[i]).candidate,
        ) == acoustic.contains(candidates[i].candidate) by {
            lemma_with_numbers_members(
                known,
                acoustic,
                acoustic.len() as int,
                candidates[i].candidate,
            );
        }
    }
}

} // verus!
