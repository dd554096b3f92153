//! What each command supports.

use crate::command::{checked_by, failed, CommandFailure, FailureView};
use crate::destination_goal::{
    check_locks, is_destination, locks_refusal, plan_effort, plan_goal, planned_effort, planned_goal,
    DestinationGoal, SearchEffort,
};
use crate::requests::{
    check_measures, find_settings, measure_refusal, settings_of, AdaptiveSettings,
    ExtensionSettings, Request,
};
use crate::text::{is_text, text_around};
use vstd::prelude::*;

verus! {

/// The refusal of a value that a command does not support.
pub open spec fn unsupported(
    code: Seq<char>,
    before: Seq<char>,
    value: Seq<char>,
) -> FailureView {
    failed(code, before + value + "'"@)
}

fn refuse(code: &'static str, before: &str, value: &String) -> (failure: CommandFailure)
    ensures
        failure@ == unsupported(code@, before@, value@),
{
    CommandFailure::new(code, text_around(before, value.as_str(), "'"))
}

/// Whether the commands score by an algorithm.
pub open spec fn is_scored(algorithm: Seq<char>) -> bool {
    algorithm == "adaptive"@ || algorithm == "static"@
}

fn can_score(algorithm: &String) -> (scored: bool)
    ensures
        scored == is_scored(algorithm@),
{
    is_text(algorithm.as_str(), "adaptive") || is_text(algorithm.as_str(), "static")
}

/// The refusal of adaptive scoring without settings.
pub open spec fn settings_required() -> FailureView {
    failed(
        "ADAPTIVE_SETTINGS_REQUIRED"@,
        "adaptive scoring requires scoring.adaptive settings"@,
    )
}

/// Finds the settings of adaptive scoring.
pub fn adaptive_settings(request: &Request) -> (settings: Result<AdaptiveSettings, CommandFailure>)
    ensures
        match settings_of(request.scoring) {
            Some(adaptive) => settings == Ok::<AdaptiveSettings, CommandFailure>(adaptive),
            None => settings is Err && settings->Err_0@ == settings_required(),
        },
{
    match find_settings(&request.scoring) {
        Some(settings) => Ok(settings),
        None => Err(
            CommandFailure::plain(
                "ADAPTIVE_SETTINGS_REQUIRED",
                "adaptive scoring requires scoring.adaptive settings",
            ),
        ),
    }
}

/// Why scoring is refused, if so.
pub open spec fn score_refusal(request: Request) -> Option<FailureView> {
    if !is_scored(request.scoring.algorithm@) {
        Some(
            unsupported(
                "SCORING_ALGORITHM_UNSUPPORTED"@,
                "the score command currently supports adaptive or static scoring, not '"@,
                request.scoring.algorithm@,
            ),
        )
    } else if settings_of(request.scoring) is None {
        Some(settings_required())
    } else {
        measure_refusal(request.scoring, request.artifacts.learned_matrix is Some)
    }
}

/// Checks whether a request can be scored.
pub fn check_score_request(request: &Request) -> (checked: Result<AdaptiveSettings, CommandFailure>)
    ensures
        checked_by(checked, score_refusal(*request)),
        checked matches Ok(settings) ==> settings_of(request.scoring) == Some(settings),
{
    if !can_score(&request.scoring.algorithm) {
        return Err(
            refuse(
                "SCORING_ALGORITHM_UNSUPPORTED",
                "the score command currently supports adaptive or static scoring, not '",
                &request.scoring.algorithm,
            ),
        );
    }
    let settings = adaptive_settings(request)?;
    match check_measures(&request.scoring, request.artifacts.learned_matrix.is_some()) {
        Err(failure) => Err(failure),
        Ok(_) => Ok(settings),
    }
}

/// Why routing is refused, if so.
pub open spec fn route_refusal(request: Request) -> Option<FailureView> {
    if !is_scored(request.scoring.algorithm@) {
        Some(
            unsupported(
                "SCORING_ALGORITHM_UNSUPPORTED"@,
                "the route command currently supports adaptive or static scoring, not '"@,
                request.scoring.algorithm@,
            ),
        )
    } else if request.route.ordering_policy@ != "optimize_order"@ {
        Some(
            unsupported(
                "ROUTE_POLICY_UNSUPPORTED"@,
                "the route command currently supports optimize_order, not '"@,
                request.route.ordering_policy@,
            ),
        )
    } else if request.route.objective@ != "bottleneck_then_sum"@ {
        Some(
            unsupported(
                "ROUTE_OBJECTIVE_UNSUPPORTED"@,
                "the route command currently supports bottleneck_then_sum, not '"@,
                request.route.objective@,
            ),
        )
    } else if request.route.start_track_id is Some || request.route.destination_track_id is Some {
        Some(
            failed(
                "ROUTE_LOCK_UNSUPPORTED"@,
                "start and destination locks are not implemented in this route-search slice"@,
            ),
        )
    } else if request.route.search.time_budget_ms is Some {
        Some(time_budget_refused())
    } else if request.extension.mode@ != "none"@ {
        Some(
            failed(
                "EXTENSION_MODE_UNSUPPORTED"@,
                "route search must complete before bridge extension is enabled"@,
            ),
        )
    } else if settings_of(request.scoring) is None {
        Some(settings_required())
    } else {
        None
    }
}

/// The refusal of a time budget.
pub open spec fn time_budget_refused() -> FailureView {
    failed(
        "TIME_BUDGET_UNSUPPORTED"@,
        "time-budget termination is not deterministic and is not implemented yet"@,
    )
}

fn refuse_time_budget() -> (failure: CommandFailure)
    ensures
        failure@ == time_budget_refused(),
{
    CommandFailure::plain(
        "TIME_BUDGET_UNSUPPORTED",
        "time-budget termination is not deterministic and is not implemented yet",
    )
}

/// Checks whether a request can be routed.
pub fn check_route_request(request: &Request) -> (checked: Result<AdaptiveSettings, CommandFailure>)
    ensures
        checked_by(checked, route_refusal(*request)),
        checked matches Ok(settings) ==> settings_of(request.scoring) == Some(settings),
{
    if !can_score(&request.scoring.algorithm) {
        return Err(
            refuse(
                "SCORING_ALGORITHM_UNSUPPORTED",
                "the route command currently supports adaptive or static scoring, not '",
                &request.scoring.algorithm,
            ),
        );
    }
    if !is_text(request.route.ordering_policy.as_str(), "optimize_order") {
        return Err(
            refuse(
                "ROUTE_POLICY_UNSUPPORTED",
                "the route command currently supports optimize_order, not '",
                &request.route.ordering_policy,
            ),
        );
    }
    if !is_text(request.route.objective.as_str(), "bottleneck_then_sum") {
        return Err(
            refuse(
                "ROUTE_OBJECTIVE_UNSUPPORTED",
                "the route command currently supports bottleneck_then_sum, not '",
                &request.route.objective,
            ),
        );
    }
    if request.route.start_track_id.is_some() || request.route.destination_track_id.is_some() {
        return Err(
            CommandFailure::plain(
                "ROUTE_LOCK_UNSUPPORTED",
                "start and destination locks are not implemented in this route-search slice",
            ),
        );
    }
    if request.route.search.time_budget_ms.is_some() {
        return Err(refuse_time_budget());
    }
    if !is_text(request.extension.mode.as_str(), "none") {
        return Err(
            CommandFailure::plain(
                "EXTENSION_MODE_UNSUPPORTED",
                "route search must complete before bridge extension is enabled",
            ),
        );
    }
    adaptive_settings(request)
}

/// Whether bridging supports an ordering policy.
pub open spec fn is_bridge_policy(policy: Seq<char>) -> bool {
    policy == "optimize_order"@ || policy == "preserve_order"@ || policy == "queue_destination"@
}

/// Whether bridging supports a mode of extension.
pub open spec fn is_bridge_mode(mode: Seq<char>) -> bool {
    mode == "automatic"@ || mode == "exact_count"@ || mode == "seed_growth"@ || mode
        == "destination_route"@
}

/// How many tracks may go into a gap.
pub open spec fn tracks_per_gap(extension: ExtensionSettings) -> usize {
    match extension.max_tracks_per_gap {
        Some(count) => count,
        None => 1,
    }
}

/// Why bridging is refused by how its route is chosen, if so.
pub open spec fn bridge_route_refusal(request: Request) -> Option<FailureView> {
    if !is_scored(request.scoring.algorithm@) {
        Some(
            unsupported(
                "SCORING_ALGORITHM_UNSUPPORTED"@,
                "the bridge command currently supports adaptive or static scoring, not '"@,
                request.scoring.algorithm@,
            ),
        )
    } else if !is_bridge_policy(request.route.ordering_policy@) {
        Some(
            unsupported(
                "ROUTE_POLICY_UNSUPPORTED"@,
                "the bridge command supports optimize_order, preserve_order, or queue_destination, not '"@,
                request.route.ordering_policy@,
            ),
        )
    } else if request.route.objective@ != "bottleneck_then_sum"@ {
        Some(
            unsupported(
                "ROUTE_OBJECTIVE_UNSUPPORTED"@,
                "the bridge command currently supports bottleneck_then_sum, not '"@,
                request.route.objective@,
            ),
        )
    } else if is_destination(request.extension) && locks_refusal(request) is Some {
        locks_refusal(request)
    } else if !is_destination(request.extension) && (request.route.start_track_id is Some
        || request.route.destination_track_id is Some) {
        Some(
            failed(
                "ROUTE_LOCK_UNSUPPORTED"@,
                "start and destination locks are supported only for destination_route requests"@,
            ),
        )
    } else if request.route.search.time_budget_ms is Some {
        Some(time_budget_refused())
    } else {
        None
    }
}

/// Whether an extension has settings of a route to a destination.
pub open spec fn asks_for_a_destination(extension: ExtensionSettings) -> bool {
    extension.destination_mode is Some || extension.min_added_tracks is Some
        || extension.search_effort is Some
}

/// Why bridging is refused, if so.
pub open spec fn bridge_refusal(request: Request) -> Option<FailureView> {
    let extension = request.extension;
    let exact = extension.mode@ == "exact_count"@;
    if bridge_route_refusal(request) is Some {
        bridge_route_refusal(request)
    } else if !is_bridge_mode(extension.mode@) {
        Some(
            unsupported(
                "EXTENSION_MODE_UNSUPPORTED"@,
                "the bridge command analyzes automatic, exact_count, seed_growth, or destination_route extension, not '"@,
                extension.mode@,
            ),
        )
    } else if is_destination(extension) != (request.route.ordering_policy@
        == "queue_destination"@) {
        Some(
            failed(
                "DESTINATION_POLICY_MISMATCH"@,
                "destination_route extension and the queue_destination policy require each other"@,
            ),
        )
    } else if !is_destination(extension) && asks_for_a_destination(extension) {
        Some(
            failed(
                "DESTINATION_SETTINGS_UNSUPPORTED"@,
                "destination settings are supported only for destination_route requests"@,
            ),
        )
    } else if extension.max_tracks_per_gap is Some && !exact {
        Some(
            failed(
                "MAX_TRACKS_PER_GAP_UNSUPPORTED"@,
                "extension.max_tracks_per_gap is supported only for exact_count requests"@,
            ),
        )
    } else if (extension.allow_opening_track is Some || extension.allow_closing_track is Some)
        && !exact {
        Some(
            failed(
                "ENDPOINT_SLOTS_UNSUPPORTED"@,
                "endpoint slots are supported only for exact_count requests"@,
            ),
        )
    } else if tracks_per_gap(extension) > 1 && request.route.ordering_policy@
        != "preserve_order"@ {
        Some(
            failed(
                "MULTI_TRACK_GAPS_REQUIRE_PRESERVE_ORDER"@,
                "more than one bridge per gap currently requires preserve_order"@,
            ),
        )
    } else {
        None
    }
}

fn check_bridge_route(request: &Request) -> (checked: Result<(), CommandFailure>)
    ensures
        checked_by(checked, bridge_route_refusal(*request)),
{
    if !can_score(&request.scoring.algorithm) {
        return Err(
            refuse(
                "SCORING_ALGORITHM_UNSUPPORTED",
                "the bridge command currently supports adaptive or static scoring, not '",
                &request.scoring.algorithm,
            ),
        );
    }
    let policy = request.route.ordering_policy.as_str();
    if !is_text(policy, "optimize_order") && !is_text(policy, "preserve_order") && !is_text(
        policy,
        "queue_destination",
    ) {
        return Err(
            refuse(
                "ROUTE_POLICY_UNSUPPORTED",
                "the bridge command supports optimize_order, preserve_order, or queue_destination, not '",
                &request.route.ordering_policy,
            ),
        );
    }
    if !is_text(request.route.objective.as_str(), "bottleneck_then_sum") {
        return Err(
            refuse(
                "ROUTE_OBJECTIVE_UNSUPPORTED",
                "the bridge command currently supports bottleneck_then_sum, not '",
                &request.route.objective,
            ),
        );
    }
    if is_text(request.extension.mode.as_str(), "destination_route") {
        check_locks(request)?;
    } else if request.route.start_track_id.is_some()
        || request.route.destination_track_id.is_some() {
        return Err(
            CommandFailure::plain(
                "ROUTE_LOCK_UNSUPPORTED",
                "start and destination locks are supported only for destination_route requests",
            ),
        );
    }
    if request.route.search.time_budget_ms.is_some() {
        return Err(refuse_time_budget());
    }
    Ok(())
}

/// Checks whether a request can be bridged.
pub fn check_bridge_request(request: &Request) -> (checked: Result<(), CommandFailure>)
    ensures
        checked_by(checked, bridge_refusal(*request)),
{
    check_bridge_route(request)?;
    let extension = &request.extension;
    let mode = extension.mode.as_str();
    let exact: bool = is_text(mode, "exact_count");
    let destination: bool = is_text(mode, "destination_route");
    if !is_text(mode, "automatic") && !exact && !is_text(mode, "seed_growth") && !destination {
        return Err(
            refuse(
                "EXTENSION_MODE_UNSUPPORTED",
                "the bridge command analyzes automatic, exact_count, seed_growth, or destination_route extension, not '",
                &extension.mode,
            ),
        );
    }
    if destination != is_text(request.route.ordering_policy.as_str(), "queue_destination") {
        return Err(
            CommandFailure::plain(
                "DESTINATION_POLICY_MISMATCH",
                "destination_route extension and the queue_destination policy require each other",
            ),
        );
    }
    if !destination && (extension.destination_mode.is_some()
        || extension.min_added_tracks.is_some() || extension.search_effort.is_some()) {
        return Err(
            CommandFailure::plain(
                "DESTINATION_SETTINGS_UNSUPPORTED",
                "destination settings are supported only for destination_route requests",
            ),
        );
    }
    if extension.max_tracks_per_gap.is_some() && !exact {
        return Err(
            CommandFailure::plain(
                "MAX_TRACKS_PER_GAP_UNSUPPORTED",
                "extension.max_tracks_per_gap is supported only for exact_count requests",
            ),
        );
    }
    if (extension.allow_opening_track.is_some() || extension.allow_closing_track.is_some())
        && !exact {
        return Err(
            CommandFailure::plain(
                "ENDPOINT_SLOTS_UNSUPPORTED",
                "endpoint slots are supported only for exact_count requests",
            ),
        );
    }
    let per_gap: usize = match extension.max_tracks_per_gap {
        Some(count) => count,
        None => 1,
    };
    if per_gap > 1 && !is_text(request.route.ordering_policy.as_str(), "preserve_order") {
        return Err(
            CommandFailure::plain(
                "MULTI_TRACK_GAPS_REQUIRE_PRESERVE_ORDER",
                "more than one bridge per gap currently requires preserve_order",
            ),
        );
    }
    Ok(())
}

/// How a playlist is to be extended.
#[derive(Clone, Copy, Debug, PartialEq, Eq, Structural)]
pub enum ExtensionPlan {
    Automatic { max_added_tracks: usize, trigger_percentile: i64 },
    Exact { requested_added_tracks: usize },
    SeedGrowth,
    Destination { goal: DestinationGoal, effort: SearchEffort },
}

/// The plan of a supported extension, or what it lacks.
pub open spec fn planned(extension: ExtensionSettings) -> Result<ExtensionPlan, FailureView> {
    if extension.mode@ == "automatic"@ {
        match extension.max_added_tracks {
            None => Err(
                failed(
                    "AUTOMATIC_BRIDGE_BUDGET_REQUIRED"@,
                    "automatic extension requires extension.max_added_tracks"@,
                ),
            ),
            Some(max_added_tracks) => match extension.trigger_percentile {
                None => Err(
                    failed(
                        "AUTOMATIC_TRIGGER_REQUIRED"@,
                        "automatic extension requires extension.trigger_percentile"@,
                    ),
                ),
                Some(trigger_percentile) => Ok(
                    ExtensionPlan::Automatic { max_added_tracks, trigger_percentile },
                ),
            },
        }
    } else if extension.mode@ == "exact_count"@ {
        match extension.additional_track_count {
            None => Err(
                failed(
                    "EXACT_COUNT_REQUIRED"@,
                    "exact_count extension requires extension.additional_track_count"@,
                ),
            ),
            Some(requested_added_tracks) => Ok(ExtensionPlan::Exact { requested_added_tracks }),
        }
    } else if is_destination(extension) {
        match planned_goal(extension) {
            Err(failure) => Err(failure),
            Ok(goal) => match planned_effort(extension.search_effort) {
                Err(failure) => Err(failure),
                Ok(effort) => Ok(ExtensionPlan::Destination { goal, effort }),
            },
        }
    } else {
        Ok(ExtensionPlan::SeedGrowth)
    }
}

/// Reads the plan of a supported extension.
pub fn plan_extension(extension: &ExtensionSettings) -> (plan: Result<
    ExtensionPlan,
    CommandFailure,
>)
    requires
        is_bridge_mode(extension.mode@),
    ensures
        match planned(*extension) {
            Ok(planned) => plan == Ok::<ExtensionPlan, CommandFailure>(planned),
            Err(failure) => plan is Err && plan->Err_0@ == failure,
        },
{
    if is_text(extension.mode.as_str(), "automatic") {
        let max_added_tracks: usize = match extension.max_added_tracks {
            None => {
                return Err(
                    CommandFailure::plain(
                        "AUTOMATIC_BRIDGE_BUDGET_REQUIRED",
                        "automatic extension requires extension.max_added_tracks",
                    ),
                );
            },
            Some(count) => count,
        };
        return match extension.trigger_percentile {
            None => Err(
                CommandFailure::plain(
                    "AUTOMATIC_TRIGGER_REQUIRED",
                    "automatic extension requires extension.trigger_percentile",
                ),
            ),
            Some(trigger_percentile) => Ok(
                ExtensionPlan::Automatic { max_added_tracks, trigger_percentile },
            ),
        };
    }
    if is_text(extension.mode.as_str(), "exact_count") {
        return match extension.additional_track_count {
            None => Err(
                CommandFailure::plain(
                    "EXACT_COUNT_REQUIRED",
                    "exact_count extension requires extension.additional_track_count",
                ),
            ),
            Some(requested_added_tracks) => Ok(ExtensionPlan::Exact { requested_added_tracks }),
        };
    }
    if is_text(extension.mode.as_str(), "destination_route") {
        let goal = match plan_goal(extension) {
            Err(failure) => {
                return Err(failure);
            },
            Ok(goal) => goal,
        };
        return match plan_effort(&extension.search_effort) {
            Err(failure) => Err(failure),
            Ok(effort) => Ok(ExtensionPlan::Destination { goal, effort }),
        };
    }
    Ok(ExtensionPlan::SeedGrowth)
}

/// Only exact requests that keep the order put several tracks into a gap, and
/// only exact requests use the ends.
pub proof fn bridged_requests_are_within_their_mode(request: Request)
    requires
        bridge_refusal(request) is None,
    ensures
        is_bridge_mode(request.extension.mode@),
        is_bridge_policy(request.route.ordering_policy@),
        tracks_per_gap(request.extension) > 1 ==> request.extension.mode@ == "exact_count"@
            && request.route.ordering_policy@ == "preserve_order"@,
        request.extension.allow_opening_track is Some || request.extension.allow_closing_track is Some
            ==> request.extension.mode@ == "exact_count"@,
        is_destination(request.extension) ==> request.route.ordering_policy@
            == "queue_destination"@ && locks_refusal(request) is None,
{
}

} // verus!
