//! How bridges are measured, how they rank, and which one a gap gets.

use crate::bridge::{
    best_bridge_first, best_endpoint_first, count_below, lemma_ranked_members, percentile_of,
    position_safe, windows_safe_at, BridgeCandidateEvaluation, BridgeError, BridgeModel,
    EndpointSlot,
};
use crate::contextual::ContextMatrixView;
use crate::exact_endpoints::{
    endpoint_ranked, guided_endpoint_first, leading_accepted_endpoints,
    lemma_leading_accepted_endpoints,
};
use crate::preview::{
    accepts, chosen, evolving_ranked, first_improving, gap_outcome, gap_position, guided_first,
    guided_percentile, improves, leading_accepted, lemma_adjacent, lemma_leading_accepted,
    numbers_of, AutomaticGapView, AutomaticSelectionConfig, DecisionReason, EvolvingAcceptance,
    Guidance,
};
use crate::route::{gap_between, RouteTrack};
use crate::semantic::CandidateSemanticsView;
use crate::sorting::{is_sorted, stable_sort, stable_sort_is_sorted, stable_sort_same_members};
use crate::units::{fraction, UNIT};
use crate::variation::pool_is_bounded;
use vstd::prelude::*;

verus! {

// Percentiles.

proof fn lemma_count_is_of_the_smaller(distances: Seq<u64>, value: u64, count: int)
    requires
        0 <= count <= distances.len(),
    ensures
        count_below(distances, value, count) == distances.take(count).filter(
            |distance: u64| distance < value,
        ).len(),
    decreases count,
{
    let smaller = |distance: u64| distance < value;
    reveal(Seq::filter);
    if count > 0 {
        lemma_count_is_of_the_smaller(distances, value, count - 1);
        assert(distances.take(count).drop_last() =~= distances.take(count - 1));
    } else {
        assert(distances.take(0) =~= seq![]);
    }
}

/// A percentile is the share of the other distances of the reference that lie
/// below a distance, to the nearest unit. Without a reference there is none.
pub proof fn percentiles_count_the_smaller(distances: Seq<u64>, value: u64)
    ensures
        percentile_of(distances, value) is Err <==> distances.len() == 0,
        1 < distances.len() < 4_000_000_000_000_000_000 ==> ({
            let share = percentile_of(distances, value)->Ok_0 as int;
            let below = distances.filter(|distance: u64| distance < value).len() as int;
            let others = distances.len() - 1;
            &&& below * UNIT - others <= share * others <= below * UNIT + others
            &&& below == 0 ==> share == 0
            &&& below == others ==> share == UNIT
        }),
{
    lemma_count_is_of_the_smaller(distances, value, distances.len() as int);
    assert(distances.take(distances.len() as int) =~= distances);
    if 1 < distances.len() < 4_000_000_000_000_000_000 {
        let below = count_below(distances, value, distances.len() as int);
        let others = distances.len() - 1;
        lemma_count_bounded(distances, value, distances.len() as int);
        let share = fraction(below, others);
        let unit = UNIT as int;
        assert(share == (2 * below * unit + others) / (2 * others));
        let whole = 2 * below * unit + others;
        let twice = 2 * others;
        assert(share * twice <= whole < (share + 1) * twice) by (nonlinear_arith)
            requires
                share == whole / twice,
                twice > 0,
        ;
        assert(below * unit - others <= share * others <= below * unit + others)
            by (nonlinear_arith)
            requires
                share * (2 * others) <= 2 * below * unit + others,
                2 * below * unit + others < (share + 1) * (2 * others),
                others > 0,
        ;
        assert(0 <= share <= 2 * unit) by (nonlinear_arith)
            requires
                below * unit - others <= share * others,
                share * others <= below * unit + others,
                share * (2 * others) <= 2 * below * unit + others,
                2 * below * unit + others < (share + 1) * (2 * others),
                0 <= below <= others + 1,
                others > 0,
                unit == 1_000_000_000_000,
        ;
        if below == 0 {
            assert(share == 0) by (nonlinear_arith)
                requires
                    share * (2 * others) <= 2 * below * unit + others,
                    2 * below * unit + others < (share + 1) * (2 * others),
                    below == 0,
                    others > 0,
            ;
        }
        if below == others {
            assert(share == unit) by (nonlinear_arith)
                requires
                    share * (2 * others) <= 2 * below * unit + others,
                    2 * below * unit + others < (share + 1) * (2 * others),
                    below == others,
                    others > 0,
            ;
        }
    }
}

proof fn lemma_count_bounded(distances: Seq<u64>, value: u64, count: int)
    requires
        0 <= count <= distances.len(),
    ensures
        0 <= count_below(distances, value, count) <= count,
    decreases count,
{
    if count > 0 {
        lemma_count_bounded(distances, value, count - 1);
    }
}

// Windows.

/// Whether two tracks of a route are far enough apart or differ in artist and
/// album, as far as the one at `at` has them.
pub open spec fn stand_apart(
    route: Seq<usize>,
    tracks: Seq<RouteTrack>,
    at: int,
    other: int,
    artist_window: usize,
    album_window: usize,
) -> bool {
    let here = tracks[route[at] as int];
    let there = tracks[route[other] as int];
    &&& here.artist_key@.len() == 0 || here.artist_key@ != there.artist_key@ || at - other
        > artist_window || other - at > artist_window
    &&& here.album_key@.len() == 0 || here.album_key@ != there.album_key@ || at - other
        > album_window || other - at > album_window
}

/// A position keeps the windows exactly where its track stands apart from every
/// other.
pub proof fn windows_are_kept_where_tracks_stand_apart(
    route: Seq<usize>,
    tracks: Seq<RouteTrack>,
    at: int,
    artist_window: usize,
    album_window: usize,
)
    ensures
        windows_safe_at(route, tracks, at, artist_window, album_window) <==> forall|other: int|
            0 <= other < route.len() && other != at ==> #[trigger] stand_apart(
                route,
                tracks,
                at,
                other,
                artist_window,
                album_window,
            ),
{
    assert forall|other: int| other != at implies position_safe(
        route,
        tracks,
        at,
        artist_window,
        album_window,
        other,
    ) == #[trigger] stand_apart(route, tracks, at, other, artist_window, album_window) by {
        assert(gap_between(other, at) == (if other > at {
            other - at
        } else {
            at - other
        }));
    }
    if windows_safe_at(route, tracks, at, artist_window, album_window) {
        assert forall|other: int| 0 <= other < route.len() && other != at implies #[trigger] stand_apart(
            route,
            tracks,
            at,
            other,
            artist_window,
            album_window,
        ) by {
            assert(position_safe(route, tracks, at, artist_window, album_window, other));
        }
    } else {
        let other = choose|other: int|
            0 <= other < route.len() && other != at && !position_safe(
                route,
                tracks,
                at,
                artist_window,
                album_window,
                other,
            );
        assert(!stand_apart(route, tracks, at, other, artist_window, album_window));
    }
}

// Evaluations.

/// What an evaluation says of a candidate in front of a position: its legs run
/// from what comes before to the candidate and, with the candidate behind it, on
/// to the track that follows; their percentiles are those of the reference. The
/// candidate is accepted exactly where it is new to the route, stands apart from
/// all others, and neither leg nor both together exceed their limits.
pub proof fn evaluations_measure_both_legs(
    model: BridgeModel,
    route: Seq<usize>,
    position: int,
    candidate: usize,
    matrix: Option<ContextMatrixView>,
)
    requires
        0 <= position,
        model.evaluation(route, position, candidate, matrix) is Ok,
    ensures
        ({
            let found = model.evaluation(route, position, candidate, matrix)->Ok_0;
            let inserted = route.insert(position, candidate);
            &&& 0 < position < route.len()
            &&& found.candidate == candidate
            &&& model.distance(inserted.take(position), candidate, matrix) == Ok::<
                u64,
                BridgeError,
            >(found.left_distance)
            &&& model.distance(inserted.take(position + 1), route[position], matrix) == Ok::<
                u64,
                BridgeError,
            >(found.right_distance)
            &&& percentile_of(model.reference, found.left_distance) == Ok::<u64, BridgeError>(
                found.left_percentile,
            )
            &&& percentile_of(model.reference, found.right_distance) == Ok::<u64, BridgeError>(
                found.right_percentile,
            )
            &&& found.left_percentile <= found.max_percentile
            &&& found.right_percentile <= found.max_percentile
            &&& found.max_percentile == found.left_percentile || found.max_percentile
                == found.right_percentile
            &&& found.left_percentile + found.right_percentile <= u64::MAX
                ==> found.detour_percentile == found.left_percentile + found.right_percentile
            &&& found.repeat_safe <==> (!route.contains(candidate) && forall|other: int|
                0 <= other < inserted.len() && other != position ==> #[trigger] stand_apart(
                    inserted,
                    model.tracks,
                    position,
                    other,
                    model.config.artist_window,
                    model.config.album_window,
                ))
            &&& found.accepted <==> (found.repeat_safe && found.left_percentile
                <= model.config.max_leg_percentile && found.right_percentile
                <= model.config.max_leg_percentile && found.detour_percentile
                <= model.config.max_detour_percentile)
        }),
{
    let inserted = route.insert(position, candidate);
    assert(inserted.take(position) =~= route.take(position));
    assert(inserted.take(position + 1) =~= route.take(position).push(candidate));
    windows_are_kept_where_tracks_stand_apart(
        inserted,
        model.tracks,
        position,
        model.config.artist_window,
        model.config.album_window,
    );
}

/// What an evaluation says of a candidate at an end: in front it is heard alone
/// before the first track, behind it follows the whole route. It is accepted
/// exactly where it is new, stands apart from all others and its one leg keeps
/// the limit.
pub proof fn evaluations_at_an_end_measure_one_leg(
    model: BridgeModel,
    route: Seq<usize>,
    slot: EndpointSlot,
    candidate: usize,
    place: int,
)
    requires
        model.endpoint_evaluation(route, slot, candidate) is Ok,
        slot == EndpointSlot::Opening ==> place == 0,
        slot == EndpointSlot::Closing ==> place == route.len(),
    ensures
        ({
            let found = model.endpoint_evaluation(route, slot, candidate)->Ok_0;
            let extended = route.insert(place, candidate);
            &&& found.candidate == candidate
            &&& slot == EndpointSlot::Opening ==> model.distance(
                seq![candidate],
                route[0],
                None,
            ) == Ok::<u64, BridgeError>(found.distance)
            &&& slot == EndpointSlot::Closing ==> model.distance(route, candidate, None) == Ok::<
                u64,
                BridgeError,
            >(found.distance)
            &&& percentile_of(model.reference, found.distance) == Ok::<u64, BridgeError>(
                found.percentile,
            )
            &&& found.accepted <==> (!route.contains(candidate) && found.percentile
                <= model.config.max_leg_percentile && forall|other: int|
                0 <= other < extended.len() && other != place ==> #[trigger] stand_apart(
                    extended,
                    model.tracks,
                    place,
                    other,
                    model.config.artist_window,
                    model.config.album_window,
                ))
        }),
{
    let extended = route.insert(place, candidate);
    assert(model.extended(route, slot, candidate) =~= extended);
    windows_are_kept_where_tracks_stand_apart(
        extended,
        model.tracks,
        place,
        model.config.artist_window,
        model.config.album_window,
    );
}

// Rankings.

/// Whether a bridge comes before another by its numbers: an accepted one before
/// one that is not, then the one with the smaller worse leg, then the one with
/// the smaller detour.
pub open spec fn sounds_no_worse(
    first: BridgeCandidateEvaluation,
    second: BridgeCandidateEvaluation,
) -> bool {
    &&& second.accepted ==> first.accepted
    &&& first.accepted == second.accepted ==> first.max_percentile <= second.max_percentile
    &&& first.accepted == second.accepted && first.max_percentile == second.max_percentile
        ==> first.detour_percentile <= second.detour_percentile
}

/// A ranking of bridges goes from the best to the worst, and a shortlist leaves
/// out none that would come before one that it holds.
pub proof fn rankings_go_from_the_best_to_the_worst(
    model: BridgeModel,
    route: Seq<usize>,
    position: int,
    candidates: Seq<usize>,
    matrix: Option<ContextMatrixView>,
    earlier: int,
    later: int,
)
    requires
        model.ranked(route, position, candidates, matrix) is Ok,
        0 <= earlier < later < model.ranked(route, position, candidates, matrix)->Ok_0.len(),
    ensures
        ({
            let ranked = model.ranked(route, position, candidates, matrix)->Ok_0;
            sounds_no_worse(ranked[earlier], ranked[later])
        }),
{
    lemma_ranked_members(model, route, position, candidates, matrix);
    let ranked = model.ranked(route, position, candidates, matrix)->Ok_0;
    assert(best_bridge_first()(ranked[earlier], ranked[later]));
}

/// A shortlist that leaves candidates out holds as many as it may, and none that
/// it leaves out would come before one that it holds.
pub proof fn shortlists_leave_out_the_worst(
    model: BridgeModel,
    route: Seq<usize>,
    position: int,
    candidates: Seq<usize>,
    limit: int,
    kept: usize,
    left_out: usize,
)
    requires
        0 <= limit,
        model.shortlist(route, position, candidates, limit) is Ok,
        model.shortlist(route, position, candidates, limit)->Ok_0.contains(kept),
        candidates.contains(left_out),
        !model.shortlist(route, position, candidates, limit)->Ok_0.contains(left_out),
    ensures
        model.shortlist(route, position, candidates, limit)->Ok_0.len() == limit,
        model.evaluation(route, position, kept, None) matches Ok(first) && (model.evaluation(
            route,
            position,
            left_out,
            None,
        ) matches Ok(second) && sounds_no_worse(first, second)),
{
    lemma_ranked_members(model, route, position, candidates, None);
    let shortlist = model.shortlist(route, position, candidates, limit)->Ok_0;
    let ranked = model.ranked(route, position, candidates, None)->Ok_0;
    let i = choose|i: int| 0 <= i < shortlist.len() && shortlist[i] == kept;
    let k = choose|k: int| 0 <= k < candidates.len() && candidates[k] == left_out;
    assert(candidates[k] == left_out);
    let j = choose|j: int| 0 <= j < ranked.len() && (#[trigger] ranked[j]).candidate == left_out;
    if j < limit {
        assert(shortlist[j] == left_out);
    }
    assert(ranked[i].candidate == kept);
    assert(best_bridge_first()(ranked[i], ranked[j]));
}

/// Whether a candidate comes before another by its numbers under guidance.
pub open spec fn guided_no_worse(
    semantics: Seq<CandidateSemanticsView>,
    guidance: Guidance,
    first: BridgeCandidateEvaluation,
    second: BridgeCandidateEvaluation,
) -> bool {
    let worse = guided_percentile(semantics, guidance, first.candidate, first.max_percentile);
    let rival = guided_percentile(semantics, guidance, second.candidate, second.max_percentile);
    let detour = guided_percentile(semantics, guidance, first.candidate, first.detour_percentile);
    let other = guided_percentile(semantics, guidance, second.candidate, second.detour_percentile);
    &&& worse <= rival
    &&& worse == rival ==> detour <= other
}

proof fn lemma_unshuffled(
    model: BridgeModel,
    route: Seq<usize>,
    position: usize,
    semantics: Seq<CandidateSemanticsView>,
    matrix: Option<ContextMatrixView>,
    guidance: Guidance,
    acceptance: EvolvingAcceptance,
)
    requires
        guidance.variation_percent == 0,
        evolving_ranked(model, route, position, semantics, matrix, guidance, acceptance) is Ok,
    ensures
        ({
            let ranked = evolving_ranked(
                model,
                route,
                position,
                semantics,
                matrix,
                guidance,
                acceptance,
            )->Ok_0;
            &&& is_sorted(ranked, guided_first(model.config, semantics, guidance, acceptance))
            &&& ranked.len() == semantics.len()
            &&& forall|i: int|
                0 <= i < ranked.len() ==> model.evaluation(
                    route,
                    position as int,
                    (#[trigger] ranked[i]).candidate,
                    matrix,
                ) == Ok::<BridgeCandidateEvaluation, BridgeError>(ranked[i])
            &&& forall|i: int|
                0 <= i < semantics.len() ==> exists|j: int|
                    0 <= j < ranked.len() && (#[trigger] ranked[j]).candidate == (
                    #[trigger] semantics[i]).candidate
        }),
{
    let numbers = numbers_of(semantics);
    let order = guided_first(model.config, semantics, guidance, acceptance);
    let evaluations = model.ranked(route, position as int, numbers, matrix)->Ok_0;
    lemma_ranked_members(model, route, position as int, numbers, matrix);
    stable_sort_is_sorted(evaluations, order);
    stable_sort_same_members(evaluations, order);
    let ranked = stable_sort(evaluations, order);
    let leading = leading_accepted(ranked, model.config, acceptance, 0);
    lemma_leading_accepted(ranked, model.config, acceptance, 0);
    pool_is_bounded(leading, 0, guidance.minimum_pool as int);
    assert forall|i: int| 0 <= i < ranked.len() implies model.evaluation(
        route,
        position as int,
        (#[trigger] ranked[i]).candidate,
        matrix,
    ) == Ok::<BridgeCandidateEvaluation, BridgeError>(ranked[i]) by {
        assert(ranked.contains(ranked[i]));
        assert(evaluations.contains(ranked[i]));
    }
    assert forall|i: int| 0 <= i < semantics.len() implies exists|j: int|
        0 <= j < ranked.len() && (#[trigger] ranked[j]).candidate == (
        #[trigger] semantics[i]).candidate by {
        assert(numbers[i] == semantics[i].candidate);
        let k = choose|k: int|
            0 <= k < evaluations.len() && (#[trigger] evaluations[k]).candidate == numbers[i];
        assert(evaluations.contains(evaluations[k]));
        assert(ranked.contains(evaluations[k]));
        let j = choose|j: int| 0 <= j < ranked.len() && ranked[j] == evaluations[k];
        assert(ranked[j].candidate == semantics[i].candidate);
    }
}

/// The candidates for a gap of an evolving route come in order without
/// variation: accepted ones first, then by the worse leg and the detour under
/// guidance. Without guidance the percentiles are those of the legs.
pub proof fn candidates_for_a_gap_come_in_order(
    model: BridgeModel,
    route: Seq<usize>,
    position: usize,
    semantics: Seq<CandidateSemanticsView>,
    matrix: Option<ContextMatrixView>,
    guidance: Guidance,
    acceptance: EvolvingAcceptance,
    earlier: int,
    later: int,
)
    requires
        guidance.variation_percent == 0,
        evolving_ranked(model, route, position, semantics, matrix, guidance, acceptance) is Ok,
        0 <= earlier < later < evolving_ranked(
            model,
            route,
            position,
            semantics,
            matrix,
            guidance,
            acceptance,
        )->Ok_0.len(),
    ensures
        ({
            let ranked = evolving_ranked(
                model,
                route,
                position,
                semantics,
                matrix,
                guidance,
                acceptance,
            )->Ok_0;
            let first = ranked[earlier];
            let second = ranked[later];
            &&& accepts(acceptance, second, model.config) ==> accepts(
                acceptance,
                first,
                model.config,
            )
            &&& accepts(acceptance, first, model.config) == accepts(
                acceptance,
                second,
                model.config,
            ) ==> guided_no_worse(semantics, guidance, first, second)
        }),
{
    lemma_unshuffled(model, route, position, semantics, matrix, guidance, acceptance);
    let ranked = evolving_ranked(
        model,
        route,
        position,
        semantics,
        matrix,
        guidance,
        acceptance,
    )->Ok_0;
    assert(guided_first(model.config, semantics, guidance, acceptance)(
        ranked[earlier],
        ranked[later],
    ));
}

/// A candidate counts as accepted for a whole bridge where both of its legs and
/// their detour keep the limits, and on the way through a gap where its first
/// leg does.
pub proof fn acceptance_is_of_the_legs(model: BridgeModel, evaluation: BridgeCandidateEvaluation)
    ensures
        accepts(EvolvingAcceptance::FullBridge, evaluation, model.config) == evaluation.accepted,
        accepts(EvolvingAcceptance::ReachableFromLeft, evaluation, model.config) <==> (
        evaluation.repeat_safe && evaluation.left_percentile <= model.config.max_leg_percentile),
{
}

// Choosing a bridge for a severe gap.

/// Whether a bridge is better than going directly: its legs summed and twice the
/// longer of them come to less than three times the direct distance.
pub open spec fn beats_the_direct_way(
    evaluation: BridgeCandidateEvaluation,
    direct_distance: u64,
) -> bool {
    &&& 3 * evaluation.left_distance + evaluation.right_distance < 3 * direct_distance
    &&& evaluation.left_distance + 3 * evaluation.right_distance < 3 * direct_distance
}

/// A bridge improves a gap exactly where it is accepted and beats the direct way.
pub proof fn improving_is_beating_the_direct_way(
    evaluation: BridgeCandidateEvaluation,
    direct_distance: u64,
)
    ensures
        improves(evaluation, direct_distance) <==> (evaluation.accepted && beats_the_direct_way(
            evaluation,
            direct_distance,
        )),
{
}

proof fn lemma_first_improving(ranked: Seq<BridgeCandidateEvaluation>, direct: u64, at: int)
    requires
        0 <= at <= ranked.len(),
    ensures
        ({
            let first = first_improving(ranked, direct, at);
            &&& at <= first <= ranked.len()
            &&& first < ranked.len() ==> improves(ranked[first], direct)
            &&& forall|i: int| at <= i < first ==> !improves(#[trigger] ranked[i], direct)
        }),
    decreases ranked.len() - at,
{
    if at < ranked.len() && !improves(ranked[at], direct) {
        lemma_first_improving(ranked, direct, at + 1);
    }
}

/// A gap above the trigger, with tracks left to add, is bridged where a
/// candidate for it is accepted and beats the direct way. The bridge that it
/// gets is such a candidate, stands between the two, and without variation no
/// other such candidate has a smaller worse leg under guidance, nor where those
/// are equal a smaller detour.
pub proof fn severe_gaps_get_the_best_bridge(
    model: BridgeModel,
    route: Seq<usize>,
    gap: AutomaticGapView,
    config: AutomaticSelectionConfig,
    added: int,
    place: int,
    rival: int,
)
    requires
        config.variation_percent == 0,
        gap_outcome(model, route, gap, config, added) is Ok,
        gap.direct_percentile > config.trigger_percentile,
        added < config.max_added_tracks,
        gap_position(route, gap) == Some(place),
        route.len() <= usize::MAX,
        0 <= rival < gap.semantics.candidates.len(),
    ensures
        ({
            let outcome = gap_outcome(model, route, gap, config, added)->Ok_0;
            let matrix = model.gap_matrix(route, place)->Ok_0;
            let other = model.evaluation(
                route,
                place,
                gap.semantics.candidates[rival].candidate,
                matrix,
            );
            other matches Ok(weighed) && (weighed.accepted && beats_the_direct_way(
                weighed,
                gap.direct_distance,
            ) ==> {
                &&& outcome.decision.reason == DecisionReason::Selected
                &&& outcome.decision.selected matches Some(bridge) && {
                    let taken = bridge.evaluation;
                    &&& outcome.route == route.insert(place, taken.candidate)
                    &&& model.evaluation(route, place, taken.candidate, matrix) == Ok::<
                        BridgeCandidateEvaluation,
                        BridgeError,
                    >(taken)
                    &&& taken.accepted
                    &&& beats_the_direct_way(taken, gap.direct_distance)
                    &&& guided_no_worse(
                        gap.semantics.candidates,
                        config.guide(),
                        taken,
                        weighed,
                    )
                }
            })
        }),
{
    let candidates = gap.semantics.candidates;
    lemma_adjacent(route, gap.left, gap.right, 0);
    let at = place as usize;
    assert(at as int == place);
    let matrix = model.gap_matrix(route, place)->Ok_0;
    let guidance = config.guide();
    let acceptance = EvolvingAcceptance::FullBridge;
    lemma_unshuffled(model, route, at, candidates, matrix, guidance, acceptance);
    let ranked = evolving_ranked(
        model,
        route,
        at,
        candidates,
        matrix,
        guidance,
        acceptance,
    )->Ok_0;
    let j = choose|j: int|
        0 <= j < ranked.len() && (#[trigger] ranked[j]).candidate == candidates[rival].candidate;
    assert(candidates[rival].candidate == candidates[rival].candidate);
    assert(model.evaluation(route, place, ranked[j].candidate, matrix) == Ok::<
        BridgeCandidateEvaluation,
        BridgeError,
    >(ranked[j]));
    lemma_first_improving(ranked, gap.direct_distance, 0);
    let first = first_improving(ranked, gap.direct_distance, 0);
    improving_is_beating_the_direct_way(ranked[j], gap.direct_distance);
    if ranked[j].accepted && beats_the_direct_way(ranked[j], gap.direct_distance) {
        assert(first <= j);
        improving_is_beating_the_direct_way(ranked[first], gap.direct_distance);
        if first < j {
            assert(guided_first(model.config, candidates, guidance, acceptance)(
                ranked[first],
                ranked[j],
            ));
        }
    }
}

/// Guidance that counts for nothing changes no percentile, and none raises one.
pub proof fn guided_percentiles_are_never_raised(
    semantics: Seq<CandidateSemanticsView>,
    guidance: Guidance,
    candidate: usize,
    percentile: u64,
)
    ensures
        ({
            let guided = guided_percentile(semantics, guidance, candidate, percentile);
            &&& percentile - UNIT as int / 10 <= guided <= percentile
            &&& guidance.track_percent == 0 && guidance.artist_percent == 0 ==> guided
                == percentile
        }),
{
    if let Some(found) = crate::semantic::last_finding(
        semantics,
        candidate,
        semantics.len() as int,
    ) {
        crate::semantic::guidance_is_bounded(
            found,
            percentile as int,
            guidance.track_percent,
            guidance.artist_percent,
        );
    }
}

/// What becomes of a gap is said truly: it is left alone as below the threshold
/// exactly where its percentile is at most the trigger, else for want of budget
/// exactly where no more may be added, else for want of candidates exactly where
/// there are none.
pub proof fn gaps_are_left_alone_for_the_reason_given(
    model: BridgeModel,
    route: Seq<usize>,
    gap: AutomaticGapView,
    config: AutomaticSelectionConfig,
    added: int,
)
    requires
        gap_outcome(model, route, gap, config, added) is Ok,
    ensures
        ({
            let outcome = gap_outcome(model, route, gap, config, added)->Ok_0;
            let reason = outcome.decision.reason;
            let below = gap.direct_percentile <= config.trigger_percentile;
            let spent = added >= config.max_added_tracks;
            let empty = gap.semantics.candidates.len() == 0;
            &&& reason == DecisionReason::BelowThreshold <==> below
            &&& reason == DecisionReason::BudgetExhausted <==> !below && spent
            &&& reason == DecisionReason::NoEligibleCandidate <==> !below && !spent && empty
            &&& reason != DecisionReason::Selected ==> outcome.route == route
                && outcome.decision.selected is None
            &&& reason == DecisionReason::Selected ==> outcome.route.len() == route.len() + 1
        }),
{
    lemma_adjacent(route, gap.left, gap.right, 0);
}

/// A gap that could be bridged but is not repeats something with every candidate,
/// or else has none whose legs keep the limits, or else none that beats the
/// direct way.
pub proof fn unbridged_gaps_have_no_good_candidate(
    route: Seq<usize>,
    at: int,
    gap: AutomaticGapView,
    ranked: Seq<BridgeCandidateEvaluation>,
    index: int,
)
    requires
        0 <= index < ranked.len(),
    ensures
        ({
            let reason = chosen(route, at, gap, ranked).decision.reason;
            let weighed = ranked[index];
            &&& reason == DecisionReason::RepeatConflict ==> !weighed.repeat_safe
            &&& reason == DecisionReason::AcousticRejected ==> !weighed.accepted
            &&& reason == DecisionReason::NoImprovement ==> !(weighed.accepted
                && beats_the_direct_way(weighed, gap.direct_distance))
            &&& weighed.accepted && beats_the_direct_way(weighed, gap.direct_distance) ==> reason
                == DecisionReason::Selected
            &&& reason != DecisionReason::Selected && weighed.accepted && weighed.repeat_safe
                ==> reason == DecisionReason::NoImprovement
            &&& reason != DecisionReason::Selected && weighed.repeat_safe ==> reason
                != DecisionReason::RepeatConflict
        }),
{
    lemma_first_improving(ranked, gap.direct_distance, 0);
    improving_is_beating_the_direct_way(weighed_at(ranked, index), gap.direct_distance);
}

spec fn weighed_at(ranked: Seq<BridgeCandidateEvaluation>, index: int) -> BridgeCandidateEvaluation {
    ranked[index]
}

// The ends.

/// The candidates for an end come in order without variation: accepted ones
/// first, then by their percentile under guidance.
pub proof fn candidates_for_an_end_come_in_order(
    model: BridgeModel,
    route: Seq<usize>,
    slot: EndpointSlot,
    semantics: Seq<CandidateSemanticsView>,
    guidance: Guidance,
    earlier: int,
    later: int,
)
    requires
        guidance.variation_percent == 0,
        endpoint_ranked(model, route, slot, semantics, guidance) is Ok,
        0 <= earlier < later < endpoint_ranked(
            model,
            route,
            slot,
            semantics,
            guidance,
        )->Ok_0.len(),
    ensures
        ({
            let ranked = endpoint_ranked(model, route, slot, semantics, guidance)->Ok_0;
            let first = ranked[earlier];
            let second = ranked[later];
            &&& second.accepted ==> first.accepted
            &&& first.accepted == second.accepted ==> guided_percentile(
                semantics,
                guidance,
                first.candidate,
                first.percentile,
            ) <= guided_percentile(semantics, guidance, second.candidate, second.percentile)
        }),
{
    let evaluations = model.ranked_endpoints(route, slot, numbers_of(semantics))->Ok_0;
    let order = guided_endpoint_first(semantics, guidance);
    let ranked = stable_sort(evaluations, order);
    stable_sort_is_sorted(evaluations, order);
    let leading = leading_accepted_endpoints(ranked, 0);
    lemma_leading_accepted_endpoints(ranked, 0);
    pool_is_bounded(leading, 0, guidance.minimum_pool as int);
    assert(order(ranked[earlier], ranked[later]));
}

/// A plain ranking for an end goes from the best to the worst.
pub proof fn rankings_for_an_end_go_from_the_best_to_the_worst(
    model: BridgeModel,
    route: Seq<usize>,
    slot: EndpointSlot,
    candidates: Seq<usize>,
    earlier: int,
    later: int,
)
    requires
        model.ranked_endpoints(route, slot, candidates) is Ok,
        0 <= earlier < later < model.ranked_endpoints(route, slot, candidates)->Ok_0.len(),
    ensures
        ({
            let first = model.ranked_endpoints(route, slot, candidates)->Ok_0[earlier];
            let second = model.ranked_endpoints(route, slot, candidates)->Ok_0[later];
            &&& second.accepted ==> first.accepted
            &&& first.accepted == second.accepted ==> first.percentile <= second.percentile
        }),
{
    let evaluations = model.endpoint_evaluations_from(route, slot, candidates, 0, seq![])->Ok_0;
    stable_sort_is_sorted(evaluations, best_endpoint_first());
    let ranked = stable_sort(evaluations, best_endpoint_first());
    assert(best_endpoint_first()(ranked[earlier], ranked[later]));
}

} // verus!
