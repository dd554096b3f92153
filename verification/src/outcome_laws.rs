//! What settings, counts and reports come to.

use crate::analysis::base_config;
use crate::bridge::EndpointSlot;
use crate::contextual::places_of;
use crate::destination::DestinationRouteOptionView;
use crate::destination_goal::{DestinationGoal, SearchEffort};
use crate::destination_report::{
    chosen_route, longest_upto, missed, DestinationReportView, PathQualityView,
};
use crate::exact::{EndpointDecisionView, SelectedEndpointView};
use crate::exact_endpoints::{noted_end, ExactEndpointSlotView};
use crate::gates::ExtensionPlan;
use crate::guidance::{pair_at_most, usable_signals, GuidanceScope, GuidanceSignal, SessionView};
use crate::preview::{
    AutomaticSelectionConfig, DecisionReason, ExactSelectionConfig, GapDecisionView,
};
use crate::reports::{ids_on, route_report, search_seed};
use crate::requests::{measure_for, Measure, SearchSettings, SelectionSettings, SourceTrack};
use crate::route::{RouteSearchResultView, SearchConfig};
use crate::selection_report::NamesView;
use crate::shuffle_laws::pools_widen_with_variation;
use crate::states::{advanced, kept_states, Progress, SearchStateView};
use crate::text::text_at_most;
use crate::variation::pool_length;
use vstd::prelude::*;

verus! {

// Variation.

/// Under any variation an automatic selection chooses among two accepted
/// candidates at least, and an exact one shuffles at least one more than it
/// follows up, as long as there are as many.
pub proof fn any_variation_leaves_a_choice(
    automatic: AutomaticSelectionConfig,
    exact: ExactSelectionConfig,
    accepted: int,
)
    requires
        0 < automatic.variation_percent <= 100,
        0 < exact.variation_percent <= 100,
        0 < accepted <= 32,
    ensures
        accepted >= 2 ==> pool_length(
            accepted,
            automatic.guide().variation_percent,
            automatic.guide().minimum_pool as int,
        ) >= 2,
        accepted > exact.candidate_limit ==> pool_length(
            accepted,
            exact.guide().variation_percent,
            exact.guide().minimum_pool as int,
        ) > exact.candidate_limit,
        accepted <= exact.candidate_limit ==> pool_length(
            accepted,
            exact.guide().variation_percent,
            exact.guide().minimum_pool as int,
        ) == accepted,
        automatic.guide().seed == automatic.generation_seed,
        exact.guide().seed == exact.generation_seed,
{
    pools_widen_with_variation(
        accepted,
        automatic.variation_percent,
        automatic.guide().minimum_pool as int,
    );
    pools_widen_with_variation(
        accepted,
        exact.variation_percent,
        exact.guide().minimum_pool as int,
    );
}

/// Without variation a route search has the seed that is given.
pub proof fn searches_without_variation_have_the_given_seed(
    search: SearchSettings,
    selection: SelectionSettings,
)
    requires
        selection.variation_percent == 0,
    ensures
        search_seed(search, selection) == search.deterministic_seed,
{
}

/// The repeat windows hold for the order of the sources, except where these are
/// to be grown or lead to a destination. Nothing else of the search changes.
pub proof fn windows_hold_for_the_sources(config: SearchConfig, plan: ExtensionPlan)
    ensures
        ({
            let base = base_config(config, plan);
            let free = plan is SeedGrowth || plan is Destination;
            &&& free ==> base.artist_window == 0 && base.album_window == 0
            &&& !free ==> base.artist_window == config.artist_window && base.album_window
                == config.album_window
            &&& base.seed_limit == config.seed_limit
            &&& base.learned_percent == config.learned_percent
            &&& base.deterministic_seed == config.deterministic_seed
            &&& base.restart_count == config.restart_count
        }),
{
}

// Measures.

/// Whatever is not static goes by a learned matrix exactly where there is one,
/// and by the variance exactly where there are two tracks to have one. What goes
/// by neither goes by the weights.
pub proof fn measures_use_what_there_is(algorithm: Seq<char>, has_matrix: bool, seeds: int)
    ensures
        ({
            let measure = measure_for(algorithm, has_matrix, seeds);
            let adaptive = algorithm != "static"@;
            &&& measure == Measure::LearnedMatrix || measure == Measure::Blend <==> adaptive
                && has_matrix
            &&& measure == Measure::Variance || measure == Measure::Blend <==> adaptive && seeds
                >= 2
            &&& measure == Measure::FeatureWeights <==> !adaptive || (!has_matrix && seeds < 2)
        }),
{
}

// Signals.

/// Signals about a track or a transition count, others do not.
pub proof fn signals_about_tracks_and_transitions_count(
    signals: Seq<GuidanceSignal>,
    count: int,
    at: int,
)
    requires
        0 <= at < count <= signals.len(),
        forall|i: int| 0 <= i < count && i != at ==> #[trigger] signals[i] != signals[at],
    ensures
        usable_signals(signals, count).contains(signals[at]) <==> signals[at].scope
            != GuidanceScope::Other,
    decreases count,
{
    let before = usable_signals(signals, count - 1);
    let after = usable_signals(signals, count);
    lemma_usable_members(signals, count - 1);
    if at < count - 1 {
        signals_about_tracks_and_transitions_count(signals, count - 1, at);
        assert(signals[count - 1] != signals[at]);
        if before.contains(signals[at]) {
            let i = choose|i: int| 0 <= i < before.len() && before[i] == signals[at];
            assert(after[i] == signals[at]);
        }
        if after.contains(signals[at]) {
            let i = choose|i: int| 0 <= i < after.len() && after[i] == signals[at];
            assert(i < before.len());
            assert(before[i] == signals[at]);
        }
    } else {
        if signals[at].scope != GuidanceScope::Other {
            assert(after[after.len() - 1] == signals[at]);
        } else if after.contains(signals[at]) {
            let i = choose|i: int| 0 <= i < before.len() && before[i] == signals[at];
            let k = choose|k: int| 0 <= k < count - 1 && #[trigger] signals[k] == before[i];
            assert(signals[k] != signals[at]);
        }
    }
}

proof fn lemma_usable_members(signals: Seq<GuidanceSignal>, count: int)
    requires
        0 <= count <= signals.len(),
    ensures
        forall|i: int|
            0 <= i < usable_signals(signals, count).len() ==> exists|k: int|
                0 <= k < count && #[trigger] signals[k] == #[trigger] usable_signals(
                    signals,
                    count,
                )[i],
    decreases count,
{
    if count > 0 {
        lemma_usable_members(signals, count - 1);
        let before = usable_signals(signals, count - 1);
        let after = usable_signals(signals, count);
        assert forall|i: int| 0 <= i < after.len() implies exists|k: int|
            0 <= k < count && #[trigger] signals[k] == #[trigger] after[i] by {
            if i < before.len() {
                assert(after[i] == before[i]);
                let k = choose|k: int| 0 <= k < count - 1 && #[trigger] signals[k] == before[i];
                assert(signals[k] == after[i]);
            } else {
                assert(signals[count - 1] == after[i]);
            }
        }
    }
}

/// Pairs of texts come by the first text, and where these are the same by the
/// second.
pub proof fn pairs_come_by_their_first_text(
    first: Seq<char>,
    second: Seq<char>,
    other_first: Seq<char>,
    other_second: Seq<char>,
)
    ensures
        first == other_first ==> (pair_at_most(first, second, other_first, other_second)
            <==> text_at_most(second, other_second)),
        first != other_first ==> (pair_at_most(first, second, other_first, other_second)
            <==> text_at_most(first, other_first)),
{
}

/// A batch of signals is counted in a session, and nothing else of it changes.
pub proof fn batches_are_counted(session: SessionView, returned: u64, accepted: int)
    requires
        0 <= accepted,
        session.score_batches < u64::MAX,
        session.returned_signals + returned <= u64::MAX,
        session.accepted_signals + accepted <= u64::MAX,
    ensures
        ({
            let after = session.after_batch(returned, accepted);
            &&& after.score_batches == session.score_batches + 1
            &&& after.returned_signals == session.returned_signals + returned
            &&& after.accepted_signals == session.accepted_signals + accepted
            &&& after.prepared == session.prepared
            &&& after.disabled == session.disabled
        }),
{
}

// Reports.

/// A route keeps the window for tracks where none is asked for or no two tracks
/// on it have one identifier.
pub proof fn track_windows_are_kept_without_repeats(
    result: RouteSearchResultView,
    sources: Seq<SourceTrack>,
    track_window: usize,
)
    ensures
        ({
            let report = route_report(result, sources, track_window);
            let ids = ids_on(result.selected.route, sources);
            &&& report.selected_track_ids == ids
            &&& report.track_window_satisfied <==> track_window == 0 || forall|i: int, j: int|
                0 <= i < j < ids.len() ==> #[trigger] ids[i] != #[trigger] ids[j]
        }),
{
}

/// A decision is reported to be on a severe gap exactly where its direct share is
/// above the threshold.
pub proof fn severe_gaps_are_reported_so(names: NamesView, decision: GapDecisionView, trigger: i64)
    ensures
        names.decision(decision, Some(trigger)).triggering == Some(
            trigger < decision.direct_percentile,
        ),
        names.decision(decision, None).triggering is None,
        names.decision(decision, Some(trigger)).candidate_id is Some <==> decision.selected is Some,
        names.decision(decision, Some(trigger)).decision == decision,
{
}

proof fn lemma_longest(options: Seq<DestinationRouteOptionView>, count: int)
    requires
        0 <= count <= options.len(),
    ensures
        forall|i: int|
            0 <= i < count ==> (#[trigger] options[i]).added_track_count <= longest_upto(
                options,
                count,
            ),
        count > 0 ==> exists|i: int|
            0 <= i < count && (#[trigger] options[i]).added_track_count == longest_upto(
                options,
                count,
            ),
    decreases count,
{
    if count > 0 {
        lemma_longest(options, count - 1);
        if options[count - 1].added_track_count < longest_upto(options, count - 1) {
            let i = choose|i: int|
                0 <= i < count - 1 && (#[trigger] options[i]).added_track_count == longest_upto(
                    options,
                    count - 1,
                );
            assert(options[i].added_track_count == longest_upto(options, count));
        } else {
            assert(options[count - 1].added_track_count == longest_upto(options, count));
        }
    }
}

/// A search that found no route of an allowed length says the most tracks that
/// any of its routes has, and allows no more than it has candidates.
pub proof fn missed_destinations_say_how_far_they_came(
    goal: DestinationGoal,
    options: Seq<DestinationRouteOptionView>,
    candidates: usize,
    at: int,
)
    requires
        0 <= at < options.len(),
    ensures
        ({
            let stats = missed(goal, options, candidates);
            &&& options[at].added_track_count <= stats.maximum_additions_found
            &&& exists|i: int|
                0 <= i < options.len() && (#[trigger] options[i]).added_track_count
                    == stats.maximum_additions_found
            &&& stats.structural_upper_bound <= candidates
            &&& goal matches DestinationGoal::Exact { added_tracks } ==> (
            stats.structural_upper_bound <= added_tracks && (stats.structural_upper_bound
                == added_tracks || stats.structural_upper_bound == candidates))
        }),
{
    lemma_longest(options, options.len() as int);
}

/// The report of a route to a destination is of the chosen one: so many tracks
/// are added as it has, and the asked share is met where its worst transition
/// is not above it.
pub proof fn destination_reports_are_of_the_chosen_route(
    names: NamesView,
    goal: DestinationGoal,
    effort: SearchEffort,
    options: Seq<DestinationRouteOptionView>,
    qualities: Seq<PathQualityView>,
    candidates: usize,
)
    ensures
        ({
            let report: DestinationReportView = names.destination(
                goal,
                effort,
                options,
                qualities,
                candidates,
            );
            match chosen_route(goal, options, qualities) {
                Some(at) => {
                    &&& report.feasible
                    &&& report.added_track_count == options[at].added_track_count
                    &&& goal matches DestinationGoal::Automatic {
                        min_added_tracks,
                        max_added_tracks,
                        trigger_percentile,
                    } ==> report.target_met == Some(
                        qualities[at].worst_percentile <= trigger_percentile,
                    )
                    &&& goal is Exact ==> report.target_met is None
                },
                None => {
                    &&& !report.feasible
                    &&& report.added_track_count == 0
                    &&& report.target_met is None
                    &&& report.final_sequence is None
                },
            }
        }),
{
}

// Counts.

/// A search counts every state that it looked at and every one that it kept.
pub proof fn searches_count_what_they_look_at_and_keep<R>(
    progress: Progress<R>,
    expanded: Seq<SearchStateView<R>>,
    original: int,
    width: int,
)
    ensures
        ({
            let next = advanced(progress, expanded, original, width);
            &&& next.states == kept_states(expanded, original, width)
            &&& progress.evaluated + expanded.len() <= usize::MAX ==> next.evaluated
                == progress.evaluated + expanded.len()
            &&& progress.retained + next.states.len() <= usize::MAX ==> next.retained
                == progress.retained + next.states.len()
        }),
{
}

/// A decision on an end says that a track was selected exactly where one was, and
/// there is none on an end that takes no track.
pub proof fn decisions_on_the_ends_say_what_was_selected(
    done: Seq<EndpointDecisionView>,
    slot: EndpointSlot,
    endpoint: Option<ExactEndpointSlotView>,
    selected: Option<SelectedEndpointView>,
)
    ensures
        endpoint is None ==> noted_end(done, slot, endpoint, selected) == done,
        endpoint matches Some(end) ==> {
            let noted = noted_end(done, slot, endpoint, selected);
            let last = noted.last();
            &&& noted.drop_last() == done
            &&& last.slot == slot
            &&& last.anchor == end.anchor
            &&& last.reason == DecisionReason::Selected <==> selected is Some
            &&& last.selected == selected
        },
{
    if let Some(end) = endpoint {
        assert(noted_end(done, slot, endpoint, selected).drop_last() =~= done);
    }
}

/// A track number stands for the place that is given for it, and for itself where
/// none is.
pub proof fn numbers_stand_for_their_places(places: Seq<usize>, tracks: Seq<usize>, at: int)
    requires
        0 <= at < tracks.len(),
    ensures
        places_of(places, tracks).len() == tracks.len(),
        tracks[at] < places.len() ==> places_of(places, tracks)[at] == places[tracks[at] as int],
        tracks[at] >= places.len() ==> places_of(places, tracks)[at] == tracks[at],
{
}

} // verus!
