//! What is measured against, what may be added and what is reported, in terms of
//! what was asked.

use crate::analysis::{left_out, reference_population, shortlist_of, supports_upto};
use crate::bridge::{smallest_first, BridgeModel};
use crate::contextual::{context_distance, ContextualError};
use crate::destination_goal::{breadth, SearchEffort};
use crate::exact::ExactSearchStats;
use crate::gates::ExtensionPlan;
use crate::library::{first_solid, last_solid, last_with_file, trimmed, LibraryTrack};
use crate::progress::share_done;
use crate::reports::{distance_sum, largest_distance, score_report, ScoredLeg};
use crate::requests::{SelectionSettings, SourceTrack};
use crate::route::recent;
use crate::selection_report::{infeasible, NamesView};
use crate::semantic::CandidateSemanticsView;
use crate::sorting::{stable_sort_is_sorted, stable_sort_same_members};
use crate::sources::{eligible, eligible_upto, file_taken, is_eligible, lemma_eligible, name_taken};
use crate::text::is_space;
use vstd::prelude::*;

verus! {

// What percentiles refer to.

/// The tracks that are heard before a place of a route: as many as are heard
/// together, or all of them where there are fewer.
pub open spec fn heard_in(route: Seq<usize>, place: int, limit: usize) -> Seq<usize> {
    route.subrange(
        if place < limit {
            0
        } else {
            place - limit
        },
        place,
    )
}

/// Whether a distance is observed at a place of a route: that of a candidate
/// which is not heard there, from what is.
pub open spec fn observed_at(
    model: BridgeModel,
    route: Seq<usize>,
    candidate: usize,
    place: int,
    distance: u64,
) -> bool {
    let heard = heard_in(route, place, model.config.seed_limit);
    &&& !heard.contains(candidate)
    &&& context_distance(model.scoring, heard, model.config.learned_percent, candidate) == Ok::<
        u64,
        ContextualError,
    >(distance)
}

/// Whether a distance is observed anywhere on a route.
pub open spec fn observed(
    model: BridgeModel,
    route: Seq<usize>,
    candidates: Seq<usize>,
    distance: u64,
) -> bool {
    exists|place: int, at: int|
        0 < place < route.len() && 0 <= at < candidates.len() && #[trigger] observed_at(
            model,
            route,
            #[trigger] candidates[at],
            place,
            distance,
        )
}

proof fn lemma_heard(model: BridgeModel, route: Seq<usize>, place: int, candidate: usize)
    requires
        0 < place < route.len(),
    ensures
        recent(route.take(place), model.config.seed_limit) == heard_in(
            route,
            place,
            model.config.seed_limit,
        ),
        model.distance(route.take(place), candidate, None) matches Ok(distance) ==> context_distance(
            model.scoring,
            heard_in(route, place, model.config.seed_limit),
            model.config.learned_percent,
            candidate,
        ) == Ok::<u64, ContextualError>(distance),
{
    assert(recent(route.take(place), model.config.seed_limit) =~= heard_in(
        route,
        place,
        model.config.seed_limit,
    ));
}

proof fn lemma_reference(
    model: BridgeModel,
    route: Seq<usize>,
    candidates: Seq<usize>,
    position: int,
    at: int,
    done: Seq<u64>,
)
    requires
        0 < position,
        0 <= at <= candidates.len(),
        model.reference_from(route, candidates, position, at, done) is Ok,
        forall|i: int|
            0 <= i < done.len() ==> observed(model, route, candidates, #[trigger] done[i]),
    ensures
        ({
            let all = model.reference_from(route, candidates, position, at, done)->Ok_0;
            &&& done.len() <= all.len()
            &&& forall|i: int| 0 <= i < done.len() ==> #[trigger] all[i] == done[i]
            &&& forall|i: int|
                0 <= i < all.len() ==> observed(model, route, candidates, #[trigger] all[i])
            &&& forall|place: int, c: int, distance: u64|
                0 <= c < candidates.len() && place < route.len() && (position < place || (position
                    == place && at <= c)) && #[trigger] observed_at(
                    model,
                    route,
                    #[trigger] candidates[c],
                    place,
                    distance,
                ) ==> all.contains(distance)
        }),
    decreases route.len() - position, candidates.len() - at,
{
    let all = model.reference_from(route, candidates, position, at, done)->Ok_0;
    if position >= route.len() {
    } else if at >= candidates.len() {
        lemma_reference(model, route, candidates, position + 1, 0, done);
    } else {
        lemma_heard(model, route, position, candidates[at]);
        let heard = heard_in(route, position, model.config.seed_limit);
        if heard.contains(candidates[at]) {
            lemma_reference(model, route, candidates, position, at + 1, done);
        } else {
            let measured = model.distance(route.take(position), candidates[at], None)->Ok_0;
            let next = done.push(measured);
            assert(observed_at(model, route, candidates[at], position, measured));
            assert forall|i: int| 0 <= i < next.len() implies observed(
                model,
                route,
                candidates,
                #[trigger] next[i],
            ) by {
                if i < done.len() {
                    assert(next[i] == done[i]);
                }
            }
            lemma_reference(model, route, candidates, position, at + 1, next);
            assert(all[next.len() - 1] == measured);
            assert(all.contains(measured));
            assert forall|i: int| 0 <= i < done.len() implies #[trigger] all[i] == done[i] by {
                assert(all[i] == next[i]);
            }
        }
    }
}

/// Percentiles refer to the distances of the given tracks at every place of the
/// route but the first, each from what is heard there and none of a track that
/// is heard there itself, from the smallest to the largest.
pub proof fn percentiles_refer_to_what_is_observed(
    model: BridgeModel,
    route: Seq<usize>,
    candidates: Seq<usize>,
    place: int,
    at: int,
    distance: u64,
)
    requires
        0 < place < route.len(),
        0 <= at < candidates.len(),
        observed_at(model, route, candidates[at], place, distance),
    ensures
        model.frozen_reference(route, candidates) matches Ok(reference) ==> {
            &&& reference.contains(distance)
            &&& forall|i: int|
                0 <= i < reference.len() ==> observed(
                    model,
                    route,
                    candidates,
                    #[trigger] reference[i],
                )
            &&& forall|i: int, j: int|
                0 <= i < j < reference.len() ==> #[trigger] reference[i] <= #[trigger] reference[j]
        },
{
    if let Ok(reference) = model.frozen_reference(route, candidates) {
        let found = model.reference_from(route, candidates, 1, 0, seq![])->Ok_0;
        lemma_reference(model, route, candidates, 1, 0, seq![]);
        assert(found.contains(distance));
        stable_sort_same_members(found, smallest_first());
        stable_sort_is_sorted(found, smallest_first());
        assert forall|i: int| 0 <= i < reference.len() implies observed(
            model,
            route,
            candidates,
            #[trigger] reference[i],
        ) by {
            assert(reference.contains(reference[i]));
            assert(found.contains(reference[i]));
            let k = choose|k: int| 0 <= k < found.len() && found[k] == reference[i];
            assert(observed(model, route, candidates, found[k]));
        }
        assert forall|i: int, j: int| 0 <= i < j < reference.len() implies #[trigger] reference[i]
            <= #[trigger] reference[j] by {
            assert(smallest_first()(reference[i], reference[j]));
        }
    }
}

/// Percentiles refer to the tracks of the route, and for a route of two tracks or
/// fewer to the candidates too.
pub proof fn short_routes_refer_to_the_candidates(
    route: Seq<usize>,
    candidates: Seq<usize>,
    track: usize,
)
    ensures
        reference_population(route, candidates).contains(track) <==> route.contains(track) || (
        route.len() <= 2 && candidates.contains(track)),
{
    let all = reference_population(route, candidates);
    if route.len() <= 2 {
        if route.contains(track) {
            let i = choose|i: int| 0 <= i < route.len() && route[i] == track;
            assert(all[candidates.len() + i] == track);
        }
        if candidates.contains(track) {
            let i = choose|i: int| 0 <= i < candidates.len() && candidates[i] == track;
            assert(all[i] == track);
        }
        if all.contains(track) {
            let i = choose|i: int| 0 <= i < all.len() && all[i] == track;
            if i < candidates.len() {
                assert(candidates[i] == track);
            } else {
                assert(route[i - candidates.len()] == track);
            }
        }
    }
}

// What may be added.

proof fn lemma_all_eligible(
    sources: Seq<SourceTrack>,
    library: Seq<LibraryTrack>,
    rows: Option<Set<u64>>,
    count: int,
    track: int,
)
    requires
        0 <= count <= library.len() <= usize::MAX,
        0 <= track < count,
        is_eligible(library[track], sources, library, rows),
    ensures
        eligible_upto(sources, library, rows, count).contains(track as usize),
    decreases count,
{
    let all = eligible_upto(sources, library, rows, count);
    if track == count - 1 {
        assert(all[all.len() - 1] == track as usize);
    } else {
        lemma_all_eligible(sources, library, rows, count - 1, track);
        let before = eligible_upto(sources, library, rows, count - 1);
        let i = choose|i: int| 0 <= i < before.len() && before[i] == track as usize;
        assert(all[i] == track as usize);
    }
}

/// A track of the library may be added exactly where the inventory, if there is
/// one, has its row, and no source has its file or both its artist and its title.
pub proof fn every_new_local_track_may_be_added(
    sources: Seq<SourceTrack>,
    library: Seq<LibraryTrack>,
    rows: Option<Set<u64>>,
    track: usize,
)
    requires
        library.len() <= usize::MAX,
        track < library.len(),
    ensures
        eligible(sources, library, rows).contains(track) <==> {
            let known = library[track as int];
            &&& rows is None || rows->Some_0.contains(known.row_id)
            &&& !file_taken(known.file@, sources, library)
            &&& !name_taken(known.artist_key@, known.title_key@, sources, library)
        },
{
    let all = eligible(sources, library, rows);
    lemma_eligible(sources, library, rows, library.len() as int);
    if is_eligible(library[track as int], sources, library, rows) {
        lemma_all_eligible(sources, library, rows, library.len() as int, track as int);
    }
    if all.contains(track) {
        let i = choose|i: int| 0 <= i < all.len() && all[i] == track;
        assert(is_eligible(library[all[i] as int], sources, library, rows));
    }
}

/// A file stands for the last track of the library that has it.
pub proof fn files_stand_for_their_last_track(
    library: Seq<LibraryTrack>,
    file: Seq<char>,
    at: int,
    count: int,
)
    requires
        0 <= at < count <= library.len() <= usize::MAX,
        library[at].file@ == file,
        forall|i: int| at < i < count ==> (#[trigger] library[i]).file@ != file,
    ensures
        last_with_file(library, file, count) == Some(at as usize),
    decreases count,
{
    if count - 1 > at {
        assert(library[count - 1].file@ != file);
        files_stand_for_their_last_track(library, file, at, count - 1);
    }
}

proof fn lemma_unmoved(
    findings: Seq<CandidateSemanticsView>,
    settings: SelectionSettings,
    size: int,
    from: int,
    count: int,
    track: int,
)
    requires
        0 <= from <= count <= findings.len(),
        0 <= track < size,
        forall|i: int| from <= i < count ==> (#[trigger] findings[i]).candidate != track,
    ensures
        supports_upto(findings, settings, size, count).len() == supports_upto(
            findings,
            settings,
            size,
            from,
        ).len(),
        track < supports_upto(findings, settings, size, from).len() ==> supports_upto(
            findings,
            settings,
            size,
            count,
        )[track] == supports_upto(findings, settings, size, from)[track],
    decreases count,
{
    if count > from {
        lemma_unmoved(findings, settings, size, from, count - 1, track);
        lemma_supports_size(findings, settings, size, count - 1);
        assert(findings[count - 1].candidate != track);
    }
}

proof fn lemma_supports_size(
    findings: Seq<CandidateSemanticsView>,
    settings: SelectionSettings,
    size: int,
    count: int,
)
    requires
        0 <= size,
    ensures
        supports_upto(findings, settings, size, count).len() == size,
    decreases count,
{
    if count > 0 {
        lemma_supports_size(findings, settings, size, count - 1);
    }
}

/// How much evidence supports a track for growing is what the last finding for it
/// says.
pub proof fn support_for_growing_is_of_the_last_finding(
    findings: Seq<CandidateSemanticsView>,
    settings: SelectionSettings,
    size: int,
    at: int,
)
    requires
        0 <= at < findings.len(),
        findings[at].candidate < size,
        forall|i: int|
            at < i < findings.len() ==> (#[trigger] findings[i]).candidate
                != findings[at].candidate,
    ensures
        supports_upto(
            findings,
            settings,
            size,
            findings.len() as int,
        )[findings[at].candidate as int] == findings[at].seed_guidance_score(
            settings.track_guidance_percent,
            settings.artist_guidance_percent,
        ) as u64,
{
    let count = findings.len() as int;
    let track = findings[at].candidate as int;
    lemma_supports_size(findings, settings, size, at);
    lemma_supports_size(findings, settings, size, at + 1);
    lemma_unmoved(findings, settings, size, at + 1, count, track);
}

/// Nothing supports a track for growing for which nothing was found.
pub proof fn tracks_without_a_finding_are_unsupported(
    findings: Seq<CandidateSemanticsView>,
    settings: SelectionSettings,
    size: int,
    track: int,
)
    requires
        0 <= track < size,
        forall|i: int| 0 <= i < findings.len() ==> (#[trigger] findings[i]).candidate != track,
    ensures
        supports_upto(findings, settings, size, findings.len() as int)[track] == 0,
{
    lemma_supports_size(findings, settings, size, 0);
    lemma_unmoved(findings, settings, size, 0, findings.len() as int, track);
}

// Limits.

/// More effort never searches less.
pub proof fn more_effort_searches_no_less()
    ensures
        ({
            let fast = breadth(SearchEffort::Fast);
            let balanced = breadth(SearchEffort::Balanced);
            let thorough = breadth(SearchEffort::Thorough);
            &&& fast.pool_limit < balanced.pool_limit < thorough.pool_limit
            &&& fast.shortlist_limit < balanced.shortlist_limit < thorough.shortlist_limit
            &&& fast.expansion_limit < balanced.expansion_limit < thorough.expansion_limit
            &&& fast.beam_width < balanced.beam_width < thorough.beam_width
        }),
{
}

/// No more candidates of a gap are scored strictly than the request allows, nor,
/// on the way to a destination, than the effort does; and no fewer.
pub proof fn shortlists_keep_both_limits(limit: Option<usize>, plan: ExtensionPlan)
    ensures
        limit matches Some(given) ==> shortlist_of(limit, plan) <= given,
        plan matches ExtensionPlan::Destination { goal, effort } ==> shortlist_of(limit, plan)
            <= breadth(effort).shortlist_limit,
        limit is None && !(plan is Destination) ==> shortlist_of(limit, plan) == usize::MAX,
        limit matches Some(given) ==> shortlist_of(limit, plan) == given || (plan matches ExtensionPlan::Destination {
            goal,
            effort,
        } && shortlist_of(limit, plan) == breadth(effort).shortlist_limit),
        limit is None ==> (plan matches ExtensionPlan::Destination { goal, effort }
            ==> shortlist_of(limit, plan) == breadth(effort).shortlist_limit),
{
}

/// What an inventory has and what it leaves out are the library.
pub proof fn inventories_and_the_rest_are_the_library(local: usize, library: int)
    requires
        local <= library <= usize::MAX,
    ensures
        left_out(Some(local), library) matches Some(rest) && local + rest == library,
        left_out(None, library) is None,
{
}

/// Progress is a share in whole percent, rounded down, and all of it only at the
/// end.
pub proof fn progress_is_a_share(current: u64, total: u64)
    ensures
        0 <= share_done(current, total) <= 100,
        share_done(current, total) == 100 <==> current >= total,
        current < total ==> share_done(current, total) * total <= 100 * current < (share_done(
            current,
            total,
        ) + 1) * total,
{
    if current < total {
        let t = total as int;
        let c = current as int * 100;
        let share = c / t;
        assert(share * t <= c < (share + 1) * t) by (nonlinear_arith)
            requires
                share == c / t,
                t > 0,
        ;
        assert(0 <= share < 100) by (nonlinear_arith)
            requires
                share == c / t,
                0 <= c < 100 * t,
                t > 0,
        ;
    }
}

// Names.

proof fn lemma_first_solid(text: Seq<char>, at: int)
    requires
        0 <= at <= text.len(),
    ensures
        at <= first_solid(text, at) <= text.len(),
        forall|i: int| at <= i < first_solid(text, at) ==> is_space(#[trigger] text[i]),
        first_solid(text, at) < text.len() ==> !is_space(text[first_solid(text, at)]),
    decreases text.len() - at,
{
    if at < text.len() && is_space(text[at]) {
        lemma_first_solid(text, at + 1);
    }
}

proof fn lemma_last_solid(text: Seq<char>, start: int, end: int)
    requires
        0 <= start <= end <= text.len(),
    ensures
        start <= last_solid(text, start, end) <= end,
        forall|i: int| last_solid(text, start, end) <= i < end ==> is_space(#[trigger] text[i]),
        last_solid(text, start, end) > start ==> !is_space(text[last_solid(text, start, end) - 1]),
    decreases end - start,
{
    if end > start && is_space(text[end - 1]) {
        lemma_last_solid(text, start, end - 1);
    }
}

/// Whether a text is all white space.
pub open spec fn is_blank(text: Seq<char>) -> bool {
    forall|i: int| 0 <= i < text.len() ==> is_space(#[trigger] text[i])
}

/// Trimming takes white space off both ends and nothing else.
pub proof fn trimming_takes_white_space_off_the_ends(text: Seq<char>)
    ensures
        ({
            let inner = trimmed(text);
            &&& exists|front: Seq<char>, back: Seq<char>| #[trigger]
                is_blank(front) && #[trigger] is_blank(back) && text == front + inner + back
            &&& inner.len() > 0 ==> !is_space(inner[0]) && !is_space(inner.last())
        }),
{
    let start = first_solid(text, 0);
    let end = last_solid(text, start, text.len() as int);
    lemma_first_solid(text, 0);
    lemma_last_solid(text, start, text.len() as int);
    let front = text.take(start);
    let back = text.skip(end);
    assert(is_blank(front));
    assert(is_blank(back));
    assert(text =~= front + trimmed(text) + back);
    if trimmed(text).len() > 0 {
        assert(trimmed(text)[0] == text[start]);
        assert(trimmed(text).last() == text[end - 1]);
    }
}

/// A route is reported track by track, each of the playlist as one of it and
/// every other as a bridge.
pub proof fn routes_are_reported_track_by_track(names: NamesView, route: Seq<usize>, at: int)
    requires
        0 <= at < route.len(),
    ensures
        names.sequence(route).len() == route.len(),
        names.sequence(route)[at].position == at,
        names.route.contains(route[at]) ==> names.sequence(route)[at].kind == "original"@,
        !names.route.contains(route[at]) ==> names.sequence(route)[at].kind == "bridge"@,
        names.sequence(route)[at].track_id == names.name(route[at]),
{
}

/// A request that found nothing is called infeasible exactly where it is above
/// what can be reached at all.
pub proof fn infeasible_is_what_cannot_be_reached(requested: usize, stats: ExactSearchStats)
    ensures
        requested > stats.structural_upper_bound ==> infeasible(requested, stats).code
            == "EXACT_COUNT_INFEASIBLE"@,
        requested <= stats.structural_upper_bound ==> infeasible(requested, stats).code
            == "EXACT_COUNT_NOT_FOUND_WITHIN_SEARCH_BOUNDS"@,
        infeasible(requested, stats).maximum_additions_found == stats.maximum_additions_found,
{
}

// Scores.

/// The distances of the first `count` transitions, summed.
pub open spec fn measured_in_all(legs: Seq<ScoredLeg>, count: int) -> int
    decreases count,
{
    if count <= 0 {
        0
    } else {
        legs[count - 1].distance + measured_in_all(legs, count - 1)
    }
}

proof fn lemma_scored(legs: Seq<ScoredLeg>, count: int)
    requires
        0 <= count <= legs.len(),
    ensures
        distance_sum(legs, count) == measured_in_all(legs, count),
        forall|i: int|
            0 <= i < count ==> (#[trigger] legs[i]).distance <= largest_distance(legs, count),
        count > 0 ==> exists|i: int|
            0 <= i < count && (#[trigger] legs[i]).distance == largest_distance(legs, count),
        count == 0 ==> largest_distance(legs, count) == 0,
    decreases count,
{
    if count > 0 {
        lemma_scored(legs, count - 1);
        if legs[count - 1].distance < largest_distance(legs, count - 1) {
            let i = choose|i: int|
                0 <= i < count - 1 && (#[trigger] legs[i]).distance == largest_distance(
                    legs,
                    count - 1,
                );
            assert(legs[i].distance == largest_distance(legs, count));
        } else {
            assert(legs[count - 1].distance == largest_distance(legs, count));
        }
    }
}

/// A scored playlist is reported with the sum of its transitions and the largest
/// of them, and its objective counts the largest three times.
pub proof fn scores_are_of_the_transitions(legs: Seq<ScoredLeg>, sources: Seq<SourceTrack>)
    requires
        legs.len() > 0,
    ensures
        ({
            let report = score_report(legs, sources);
            &&& report.transition_sum == measured_in_all(legs, legs.len() as int)
            &&& forall|i: int|
                0 <= i < legs.len() ==> (#[trigger] legs[i]).distance <= report.worst_transition
            &&& exists|i: int|
                0 <= i < legs.len() && (#[trigger] legs[i]).distance == report.worst_transition
            &&& report.objective == report.transition_sum + report.worst_transition
                + report.worst_transition
        }),
{
    lemma_scored(legs, legs.len() as int);
}

} // verus!
