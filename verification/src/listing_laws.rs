//! Which candidates of a gap are kept for their evidence, and how a gap is
//! reported, in numbers.

use crate::bridge::{BridgeCandidateEvaluation, BridgeModel};
use crate::bridge_laws::sounds_no_worse;
use crate::gap_analysis::{
    accepted_count, best_supported_first, evidenced_upto, lemma_best_supported_first,
    lemma_standing, listing_order, repeating_count, reported_upto, reserved, shortlisted,
    shortlists_narrow_and_reserve_evidence, standing, CandidateReportView, GapModel, Standing,
};
use crate::library::LibraryTrack;
use crate::preview::numbers_of;
use crate::semantic::{last_finding, resolved, CandidateSemanticsView, SemanticTier};
use crate::sorting::{
    is_ranking, keeping_the_first_drops_the_last, stable_sort, stable_sort_is_sorted,
    stable_sort_keeps_items, stable_sort_same_members,
};
use vstd::prelude::*;

verus! {

// What speaks for a candidate.

/// How far a tier is from the strongest evidence.
pub open spec fn weakness(tier: SemanticTier) -> int {
    if tier == SemanticTier::RecordingBoth {
        0
    } else if tier == SemanticTier::RecordingOne {
        1
    } else if tier == SemanticTier::ArtistLocal {
        2
    } else if tier == SemanticTier::ArtistCollection {
        3
    } else {
        4
    }
}

/// Whether a rank is no larger than another; a missing one is larger than all.
pub open spec fn ranks_no_later(a: Option<u64>, b: Option<u64>) -> bool {
    b is None || (a is Some && a->Some_0 <= b->Some_0)
}

/// Whether at least as much speaks for a candidate as for another: a stronger
/// tier, else more confidence, else a rank that is no larger.
pub open spec fn backed_no_worse(a: CandidateSemanticsView, b: CandidateSemanticsView) -> bool {
    ||| weakness(a.tier) < weakness(b.tier)
    ||| weakness(a.tier) == weakness(b.tier) && a.confidence() > b.confidence()
    ||| weakness(a.tier) == weakness(b.tier) && a.confidence() == b.confidence() && ranks_no_later(
        a.best_rank(),
        b.best_rank(),
    )
}

/// A candidate stands behind another exactly where less speaks for it.
pub proof fn standing_is_by_what_speaks_for_a_candidate(
    a: CandidateSemanticsView,
    b: CandidateSemanticsView,
)
    ensures
        standing(a, b) != Standing::Behind <==> backed_no_worse(a, b),
        standing(a, b) == Standing::Level <==> backed_no_worse(a, b) && backed_no_worse(b, a),
{
}

// What is kept for its evidence.

/// Whether a candidate's evidence leads from the ends of the gap.
pub open spec fn backed_from_the_ends(candidate: CandidateSemanticsView) -> bool {
    weakness(candidate.tier) <= 2
}

proof fn lemma_evidenced(candidates: Seq<CandidateSemanticsView>, count: int)
    requires
        0 <= count <= candidates.len(),
    ensures
        forall|i: int|
            0 <= i < count && backed_from_the_ends(#[trigger] candidates[i]) ==> evidenced_upto(
                candidates,
                count,
            ).contains(candidates[i]),
        forall|i: int|
            0 <= i < evidenced_upto(candidates, count).len() ==> backed_from_the_ends(
                #[trigger] evidenced_upto(candidates, count)[i],
            ),
    decreases count,
{
    if count > 0 {
        lemma_evidenced(candidates, count - 1);
        let before = evidenced_upto(candidates, count - 1);
        let after = evidenced_upto(candidates, count);
        assert forall|i: int|
            0 <= i < count && backed_from_the_ends(#[trigger] candidates[i]) implies after.contains(
            candidates[i],
        ) by {
            if i < count - 1 {
                let k = choose|k: int| 0 <= k < before.len() && before[k] == candidates[i];
                assert(after[k] == candidates[i]);
            } else {
                assert(after[after.len() - 1] == candidates[i]);
            }
        }
    }
}

/// A candidate with evidence from the ends of the gap leaves the shortlist only
/// where as many such candidates as are kept for their evidence, 32 or the whole
/// limit, are on it and no less speaks for any of them.
pub proof fn evidence_is_given_up_only_for_as_good(
    model: BridgeModel,
    route: Seq<usize>,
    position: usize,
    candidates: Seq<CandidateSemanticsView>,
    limit: usize,
    at: int,
)
    requires
        0 <= at < candidates.len(),
        backed_from_the_ends(candidates[at]),
    ensures
        shortlisted(model, route, position, candidates, limit) matches Ok(kept) ==> kept.contains(
            candidates[at],
        ) || {
            let best = reserved(candidates, limit);
            &&& best.len() == if limit < 32 {
                limit as int
            } else {
                32
            }
            &&& forall|i: int|
                0 <= i < best.len() ==> {
                    &&& backed_from_the_ends(#[trigger] best[i])
                    &&& backed_no_worse(best[i], candidates[at])
                    &&& candidates.contains(best[i]) ==> kept.contains(best[i])
                }
        },
{
    shortlists_narrow_and_reserve_evidence(model, route, position, candidates, limit);
    if let Ok(kept) = shortlisted(model, route, position, candidates, limit) {
        let count = candidates.len() as int;
        let local = evidenced_upto(candidates, count);
        let best = reserved(candidates, limit);
        let room: int = if limit < 32 {
            limit as int
        } else {
            32
        };
        lemma_evidenced(candidates, count);
        lemma_best_supported_first();
        keeping_the_first_drops_the_last(local, best_supported_first(), room);
        if !kept.contains(candidates[at]) {
            assert(candidates.len() > limit) by {
                if candidates.len() <= limit {
                    assert(kept[at] == candidates[at]);
                }
            }
            assert(!best.contains(candidates[at]));
            stable_sort_same_members(local, best_supported_first());
            assert(local.len() > room) by {
                if local.len() <= room {
                    assert(best.contains(candidates[at]));
                }
            }
            assert forall|i: int| 0 <= i < best.len() implies {
                &&& backed_from_the_ends(#[trigger] best[i])
                &&& backed_no_worse(best[i], candidates[at])
                &&& candidates.contains(best[i]) ==> kept.contains(best[i])
            } by {
                assert(local.contains(best[i]));
                let k = choose|k: int| 0 <= k < local.len() && local[k] == best[i];
                assert(best_supported_first()(best[i], candidates[at]));
                if candidates.contains(best[i]) {
                    let j = choose|j: int| 0 <= j < candidates.len() && candidates[j] == best[i];
                    assert(best.contains(candidates[j]));
                }
            }
        }
    }
}

// Reports.

proof fn lemma_listing_order(semantics: Seq<CandidateSemanticsView>)
    ensures
        is_ranking(listing_order(semantics)),
{
    let order = listing_order(semantics);
    assert forall|a: BridgeCandidateEvaluation, b: BridgeCandidateEvaluation| #[trigger]
        order(a, b) || order(b, a) by {
        lemma_standing(
            resolved(semantics, a.candidate),
            resolved(semantics, b.candidate),
            resolved(semantics, a.candidate),
        );
    }
    assert forall|
        a: BridgeCandidateEvaluation,
        b: BridgeCandidateEvaluation,
        c: BridgeCandidateEvaluation,
    |
        #![trigger order(a, b), order(b, c)]
        order(a, b) && order(b, c) implies order(a, c) by {
        lemma_standing(
            resolved(semantics, a.candidate),
            resolved(semantics, b.candidate),
            resolved(semantics, c.candidate),
        );
    }
}

/// Whether a report comes before another by its numbers: more speaks for it, or
/// as much, and it sounds no worse.
pub open spec fn reported_no_later(a: CandidateReportView, b: CandidateReportView) -> bool {
    &&& backed_no_worse(a.bridge.semantics, b.bridge.semantics)
    &&& backed_no_worse(b.bridge.semantics, a.bridge.semantics) ==> sounds_no_worse(
        a.bridge.evaluation,
        b.bridge.evaluation,
    )
}

/// Whether reports are of accepted candidates at increasing places, and leave
/// out none before the last unless they are as many as they may be.
spec fn reports_the_first(
    reports: Seq<CandidateReportView>,
    semantics: Seq<CandidateSemanticsView>,
    listed: Seq<BridgeCandidateEvaluation>,
    limit: usize,
    count: int,
    places: Seq<int>,
) -> bool {
    &&& places.len() == reports.len()
    &&& reports.len() <= limit
    &&& forall|i: int|
        0 <= i < places.len() ==> {
            &&& 0 <= (#[trigger] places[i]) < count
            &&& listed[places[i]].accepted
            &&& reports[i].bridge.evaluation == listed[places[i]]
            &&& reports[i].bridge.semantics == resolved(semantics, listed[places[i]].candidate)
        }
    &&& forall|i: int, j: int| 0 <= i < j < places.len() ==> places[i] < places[j]
    &&& forall|k: int|
        0 <= k < count && (#[trigger] listed[k]).accepted ==> places.contains(k) || (reports.len()
            == limit && forall|i: int| 0 <= i < places.len() ==> #[trigger] places[i] < k)
}

proof fn lemma_reported(
    library: Seq<LibraryTrack>,
    semantics: Seq<CandidateSemanticsView>,
    listed: Seq<BridgeCandidateEvaluation>,
    limit: usize,
    count: int,
) -> (places: Seq<int>)
    requires
        0 <= count <= listed.len(),
    ensures
        reports_the_first(
            reported_upto(library, semantics, listed, limit, count),
            semantics,
            listed,
            limit,
            count,
            places,
        ),
    decreases count,
{
    if count <= 0 {
        seq![]
    } else {
        let before = lemma_reported(library, semantics, listed, limit, count - 1);
        let earlier = reported_upto(library, semantics, listed, limit, count - 1);
        let reports = reported_upto(library, semantics, listed, limit, count);
        let places = if listed[count - 1].accepted && earlier.len() < limit {
            before.push(count - 1)
        } else {
            before
        };
        assert forall|k: int|
            0 <= k < count && (#[trigger] listed[k]).accepted implies places.contains(k) || (
        reports.len() == limit && forall|i: int| 0 <= i < places.len() ==> #[trigger] places[i]
            < k) by {
            if k < count - 1 {
                if before.contains(k) {
                    let i = choose|i: int| 0 <= i < before.len() && before[i] == k;
                    assert(places[i] == k);
                } else {
                    assert(earlier.len() == limit);
                }
            } else if earlier.len() < limit {
                assert(places[places.len() - 1] == k);
            }
        }
        places
    }
}

/// Which of the evaluated candidates are accepted.
pub open spec fn accepted_places(listed: Seq<BridgeCandidateEvaluation>) -> Set<int> {
    Set::new(|i: int| 0 <= i < listed.len() && listed[i].accepted)
}

/// Which of the evaluated candidates would repeat something.
pub open spec fn repeating_places(listed: Seq<BridgeCandidateEvaluation>) -> Set<int> {
    Set::new(|i: int| 0 <= i < listed.len() && !listed[i].repeat_safe)
}

proof fn lemma_counted(listed: Seq<BridgeCandidateEvaluation>, count: int)
    requires
        0 <= count <= listed.len(),
    ensures
        accepted_places(listed.take(count)).finite(),
        accepted_places(listed.take(count)).len() == accepted_count(listed, count),
        repeating_places(listed.take(count)).finite(),
        repeating_places(listed.take(count)).len() == repeating_count(listed, count),
    decreases count,
{
    let accepted = accepted_places(listed.take(count));
    let repeating = repeating_places(listed.take(count));
    if count == 0 {
        assert(accepted =~= Set::empty());
        assert(repeating =~= Set::empty());
    } else {
        lemma_counted(listed, count - 1);
        let front = listed.take(count - 1);
        let last = count - 1;
        if listed[last].accepted {
            assert(accepted =~= accepted_places(front).insert(last));
        } else {
            assert(accepted =~= accepted_places(front));
        }
        if !listed[last].repeat_safe {
            assert(repeating =~= repeating_places(front).insert(last));
        } else {
            assert(repeating =~= repeating_places(front));
        }
    }
}

/// The report of a gap counts its evaluated candidates: how many are accepted,
/// how many would repeat something, and how many are left. It says that the gap
/// is severe exactly where its direct share is above the threshold.
pub proof fn reports_count_the_candidates(model: GapModel, position: usize)
    ensures
        model.analyzed(position) matches Ok(gap) ==> {
            let ranked = model.bridge.ranked(
                model.route,
                position as int,
                numbers_of(gap.gap.semantics.candidates),
                None,
            )->Ok_0;
            let report = gap.report;
            &&& report.evaluated_candidate_count == ranked.len()
            &&& exists|listed: Seq<BridgeCandidateEvaluation>|
                #![trigger accepted_places(listed)]
                {
                    &&& listed.to_multiset() == ranked.to_multiset()
                    &&& report.accepted_candidate_count == accepted_places(listed).len()
                    &&& report.repeat_rejected_count == repeating_places(listed).len()
                }
            &&& report.accepted_candidate_count + report.repeat_rejected_count
                + report.acoustic_rejected_count == ranked.len()
            &&& report.triggering == match model.trigger {
                Some(threshold) => Some(threshold < report.direct_percentile),
                None => None,
            }
            &&& report.direct_percentile == gap.gap.direct_percentile
        },
{
    if let Ok(gap) = model.analyzed(position) {
        let kept = gap.gap.semantics.candidates;
        let ranked = model.bridge.ranked(
            model.route,
            position as int,
            numbers_of(kept),
            None,
        )->Ok_0;
        let listed = stable_sort(ranked, listing_order(kept));
        stable_sort_keeps_items(ranked, listing_order(kept));
        lemma_counted(listed, listed.len() as int);
        assert(listed.take(listed.len() as int) =~= listed);
        assert(gap.report.accepted_candidate_count == accepted_places(listed).len());
    }
}

/// The report of a gap lists accepted candidates, each with what speaks for it,
/// those first for which more speaks, and of equals those that sound better. An
/// accepted candidate is left out only where as many are listed as may be, and
/// no less speaks for any of them.
pub proof fn reports_list_the_best_candidates(
    model: GapModel,
    position: usize,
    evaluation: BridgeCandidateEvaluation,
)
    requires
        evaluation.accepted,
    ensures
        model.analyzed(position) matches Ok(gap) ==> {
            let kept = gap.gap.semantics.candidates;
            let ranked = model.bridge.ranked(
                model.route,
                position as int,
                numbers_of(kept),
                None,
            )->Ok_0;
            let reports = gap.report.accepted_candidates;
            &&& forall|i: int|
                0 <= i < reports.len() ==> {
                    &&& (#[trigger] reports[i]).bridge.evaluation.accepted
                    &&& ranked.contains(reports[i].bridge.evaluation)
                    &&& reports[i].bridge.semantics == resolved(
                        kept,
                        reports[i].bridge.evaluation.candidate,
                    )
                }
            &&& forall|i: int, j: int|
                0 <= i < j < reports.len() ==> reported_no_later(
                    #[trigger] reports[i],
                    #[trigger] reports[j],
                )
            &&& ranked.contains(evaluation) ==> {
                ||| exists|i: int|
                    0 <= i < reports.len() && (#[trigger] reports[i]).bridge.evaluation
                        == evaluation
                ||| reports.len() == model.retained_limit && forall|i: int|
                    0 <= i < reports.len() ==> backed_no_worse(
                        (#[trigger] reports[i]).bridge.semantics,
                        resolved(kept, evaluation.candidate),
                    )
            }
        },
{
    if let Ok(gap) = model.analyzed(position) {
        let kept = gap.gap.semantics.candidates;
        let ranked = model.bridge.ranked(
            model.route,
            position as int,
            numbers_of(kept),
            None,
        )->Ok_0;
        let order = listing_order(kept);
        let listed = stable_sort(ranked, order);
        let reports = gap.report.accepted_candidates;
        lemma_listing_order(kept);
        stable_sort_is_sorted(ranked, order);
        stable_sort_same_members(ranked, order);
        let places = lemma_reported(
            model.library,
            kept,
            listed,
            model.retained_limit,
            listed.len() as int,
        );
        assert forall|i: int| 0 <= i < reports.len() implies {
            &&& (#[trigger] reports[i]).bridge.evaluation.accepted
            &&& ranked.contains(reports[i].bridge.evaluation)
            &&& reports[i].bridge.semantics == resolved(
                kept,
                reports[i].bridge.evaluation.candidate,
            )
        } by {
            assert(0 <= places[i] < listed.len());
            assert(listed.contains(listed[places[i]]));
        }
        assert forall|i: int, j: int| 0 <= i < j < reports.len() implies reported_no_later(
            #[trigger] reports[i],
            #[trigger] reports[j],
        ) by {
            assert(places[i] < places[j]);
            assert(order(listed[places[i]], listed[places[j]]));
            standing_is_by_what_speaks_for_a_candidate(
                reports[i].bridge.semantics,
                reports[j].bridge.semantics,
            );
        }
        if ranked.contains(evaluation) {
            assert(listed.contains(evaluation));
            let k = choose|k: int| 0 <= k < listed.len() && listed[k] == evaluation;
            if places.contains(k) {
                let i = choose|i: int| 0 <= i < places.len() && places[i] == k;
                assert(reports[i].bridge.evaluation == evaluation);
            } else {
                assert forall|i: int| 0 <= i < reports.len() implies backed_no_worse(
                    (#[trigger] reports[i]).bridge.semantics,
                    resolved(kept, evaluation.candidate),
                ) by {
                    assert(places[i] < k);
                    assert(order(listed[places[i]], listed[k]));
                }
            }
        }
    }
}

proof fn lemma_finding(found: Seq<CandidateSemanticsView>, candidate: usize, count: int, at: int)
    requires
        0 <= at < count <= found.len(),
        found[at].candidate == candidate,
        forall|i: int|
            0 <= i < found.len() && i != at ==> (#[trigger] found[i]).candidate != candidate,
    ensures
        last_finding(found, candidate, count) == Some(found[at]),
    decreases count,
{
    if count - 1 > at {
        lemma_finding(found, candidate, count - 1, at);
    }
}

/// What is said of a candidate is what was found for it alone.
pub proof fn findings_are_of_the_candidate_itself(
    found: Seq<CandidateSemanticsView>,
    candidate: usize,
    at: int,
)
    requires
        0 <= at < found.len(),
        found[at].candidate == candidate,
        forall|i: int|
            0 <= i < found.len() && i != at ==> (#[trigger] found[i]).candidate != candidate,
    ensures
        resolved(found, candidate) == found[at],
{
    lemma_finding(found, candidate, found.len() as int, at);
}

} // verus!
