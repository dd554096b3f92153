//! What a request for a route to a destination asks for.

use crate::command::{checked_by, failed, CommandFailure, FailureView};
use crate::preview::MAX_EXACT_TRACKS_PER_GAP;
use crate::requests::{ExtensionSettings, Request};
use crate::text::{is_text, text_around};
use vstd::prelude::*;

verus! {

// How far the search goes.

/// How much work goes into a search.
#[derive(Clone, Copy, Debug, PartialEq, Eq, Structural)]
pub enum SearchEffort {
    Fast,
    Balanced,
    Thorough,
}

/// How broad a search is: how many tracks of a library come into question at
/// all, how many of them are on its shortlist, how many of those follow each
/// path, and how many paths stay at each step.
#[derive(Clone, Copy, Debug, PartialEq, Eq, Structural)]
pub struct SearchBreadth {
    pub pool_limit: usize,
    pub shortlist_limit: usize,
    pub expansion_limit: usize,
    pub beam_width: usize,
}

/// How broad the search of an effort is.
pub open spec fn breadth(effort: SearchEffort) -> SearchBreadth {
    match effort {
        SearchEffort::Fast => SearchBreadth {
            pool_limit: 65_536,
            shortlist_limit: 128,
            expansion_limit: 6,
            beam_width: 32,
        },
        SearchEffort::Balanced => SearchBreadth {
            pool_limit: 131_072,
            shortlist_limit: 256,
            expansion_limit: 8,
            beam_width: 64,
        },
        SearchEffort::Thorough => SearchBreadth {
            pool_limit: 262_144,
            shortlist_limit: 512,
            expansion_limit: 16,
            beam_width: 192,
        },
    }
}

/// Says how broad the search of an effort is.
pub fn search_breadth(effort: SearchEffort) -> (found: SearchBreadth)
    ensures
        found == breadth(effort),
{
    match effort {
        SearchEffort::Fast => SearchBreadth {
            pool_limit: 65_536,
            shortlist_limit: 128,
            expansion_limit: 6,
            beam_width: 32,
        },
        SearchEffort::Balanced => SearchBreadth {
            pool_limit: 131_072,
            shortlist_limit: 256,
            expansion_limit: 8,
            beam_width: 64,
        },
        SearchEffort::Thorough => SearchBreadth {
            pool_limit: 262_144,
            shortlist_limit: 512,
            expansion_limit: 16,
            beam_width: 192,
        },
    }
}

/// The name of an effort.
pub open spec fn effort_text(effort: SearchEffort) -> Seq<char> {
    match effort {
        SearchEffort::Fast => "fast"@,
        SearchEffort::Balanced => "balanced"@,
        SearchEffort::Thorough => "thorough"@,
    }
}

/// Names an effort.
pub fn effort_name(effort: SearchEffort) -> (name: &'static str)
    ensures
        name@ == effort_text(effort),
{
    match effort {
        SearchEffort::Fast => "fast",
        SearchEffort::Balanced => "balanced",
        SearchEffort::Thorough => "thorough",
    }
}

/// The effort that a request names; without a name the search is balanced.
pub open spec fn planned_effort(named: Option<String>) -> Result<SearchEffort, FailureView> {
    match named {
        None => Ok(SearchEffort::Balanced),
        Some(name) => if name@ == "fast"@ {
            Ok(SearchEffort::Fast)
        } else if name@ == "balanced"@ {
            Ok(SearchEffort::Balanced)
        } else if name@ == "thorough"@ {
            Ok(SearchEffort::Thorough)
        } else {
            Err(
                failed(
                    "SEARCH_EFFORT_UNSUPPORTED"@,
                    "extension.search_effort is fast, balanced, or thorough, not '"@ + name@
                        + "'"@,
                ),
            )
        },
    }
}

/// Reads the effort that a request names.
pub fn plan_effort(named: &Option<String>) -> (effort: Result<SearchEffort, CommandFailure>)
    ensures
        match planned_effort(*named) {
            Ok(planned) => effort == Ok::<SearchEffort, CommandFailure>(planned),
            Err(failure) => effort is Err && effort->Err_0@ == failure,
        },
{
    match named {
        None => Ok(SearchEffort::Balanced),
        Some(name) => {
            if is_text(name.as_str(), "fast") {
                Ok(SearchEffort::Fast)
            } else if is_text(name.as_str(), "balanced") {
                Ok(SearchEffort::Balanced)
            } else if is_text(name.as_str(), "thorough") {
                Ok(SearchEffort::Thorough)
            } else {
                Err(
                    CommandFailure::new(
                        "SEARCH_EFFORT_UNSUPPORTED",
                        text_around(
                            "extension.search_effort is fast, balanced, or thorough, not '",
                            name.as_str(),
                            "'",
                        ),
                    ),
                )
            }
        },
    }
}

// What the route is to be.

/// What a route to a destination is to be: the shortest that sounds well enough,
/// within bounds, or one with exactly so many tracks on the way.
#[derive(Clone, Copy, Debug, PartialEq, Eq, Structural)]
pub enum DestinationGoal {
    Automatic { min_added_tracks: usize, max_added_tracks: usize, trigger_percentile: i64 },
    Exact { added_tracks: usize },
}

/// The fewest tracks that a goal allows on the way.
pub open spec fn fewest(goal: DestinationGoal) -> usize {
    match goal {
        DestinationGoal::Automatic { min_added_tracks, .. } => min_added_tracks,
        DestinationGoal::Exact { added_tracks } => added_tracks,
    }
}

/// The most tracks that a goal allows on the way.
pub open spec fn most(goal: DestinationGoal) -> usize {
    match goal {
        DestinationGoal::Automatic { max_added_tracks, .. } => max_added_tracks,
        DestinationGoal::Exact { added_tracks } => added_tracks,
    }
}

/// The percentile that a goal asks every transition to stay within, if it does.
pub open spec fn target_of(goal: DestinationGoal) -> Option<i64> {
    match goal {
        DestinationGoal::Automatic { trigger_percentile, .. } => Some(trigger_percentile),
        DestinationGoal::Exact { .. } => None,
    }
}

impl DestinationGoal {
    /// The fewest tracks that are allowed on the way.
    pub fn fewest(&self) -> (count: usize)
        ensures
            count == fewest(*self),
    {
        match self {
            DestinationGoal::Automatic { min_added_tracks, .. } => *min_added_tracks,
            DestinationGoal::Exact { added_tracks } => *added_tracks,
        }
    }

    /// The most tracks that are allowed on the way.
    pub fn most(&self) -> (count: usize)
        ensures
            count == most(*self),
    {
        match self {
            DestinationGoal::Automatic { max_added_tracks, .. } => *max_added_tracks,
            DestinationGoal::Exact { added_tracks } => *added_tracks,
        }
    }

    /// The percentile that every transition is to stay within, if there is one.
    pub fn target(&self) -> (percentile: Option<i64>)
        ensures
            percentile == target_of(*self),
    {
        match self {
            DestinationGoal::Automatic { trigger_percentile, .. } => Some(*trigger_percentile),
            DestinationGoal::Exact { .. } => None,
        }
    }
}

/// The refusal of more tracks on the way than a route to a destination takes.
pub open spec fn too_many_on_the_way() -> FailureView {
    failed(
        "DESTINATION_BUDGET_EXCEEDED"@,
        "a destination route takes at most eight intermediate tracks"@,
    )
}

fn refuse_too_many() -> (failure: CommandFailure)
    ensures
        failure@ == too_many_on_the_way(),
{
    CommandFailure::plain(
        "DESTINATION_BUDGET_EXCEEDED",
        "a destination route takes at most eight intermediate tracks",
    )
}

/// The goal of an exact request, or what it lacks.
pub open spec fn planned_exactly(extension: ExtensionSettings) -> Result<
    DestinationGoal,
    FailureView,
> {
    match extension.additional_track_count {
        None => Err(
            failed(
                "EXACT_COUNT_REQUIRED"@,
                "an exact destination route requires extension.additional_track_count"@,
            ),
        ),
        Some(added_tracks) => if added_tracks > MAX_EXACT_TRACKS_PER_GAP {
            Err(too_many_on_the_way())
        } else {
            Ok(DestinationGoal::Exact { added_tracks })
        },
    }
}

/// The goal of an automatic request, or what it lacks.
pub open spec fn planned_automatically(extension: ExtensionSettings) -> Result<
    DestinationGoal,
    FailureView,
> {
    match extension.max_added_tracks {
        None => Err(
            failed(
                "AUTOMATIC_BRIDGE_BUDGET_REQUIRED"@,
                "an automatic destination route requires extension.max_added_tracks"@,
            ),
        ),
        Some(max_added_tracks) => {
            let min_added_tracks = match extension.min_added_tracks {
                Some(count) => count,
                None => 0,
            };
            if max_added_tracks > MAX_EXACT_TRACKS_PER_GAP {
                Err(too_many_on_the_way())
            } else if min_added_tracks > max_added_tracks {
                Err(
                    failed(
                        "DESTINATION_BOUNDS_INVALID"@,
                        "extension.min_added_tracks exceeds extension.max_added_tracks"@,
                    ),
                )
            } else {
                match extension.trigger_percentile {
                    None => Err(
                        failed(
                            "AUTOMATIC_TRIGGER_REQUIRED"@,
                            "an automatic destination route requires extension.trigger_percentile"@,
                        ),
                    ),
                    Some(trigger_percentile) => Ok(
                        DestinationGoal::Automatic {
                            min_added_tracks,
                            max_added_tracks,
                            trigger_percentile,
                        },
                    ),
                }
            }
        },
    }
}

/// The goal of a request for a route to a destination, or what it lacks.
pub open spec fn planned_goal(extension: ExtensionSettings) -> Result<
    DestinationGoal,
    FailureView,
> {
    match extension.destination_mode {
        None => Err(
            failed(
                "DESTINATION_MODE_REQUIRED"@,
                "destination_route extension requires extension.destination_mode"@,
            ),
        ),
        Some(mode) => if mode@ == "exact"@ {
            planned_exactly(extension)
        } else if mode@ == "automatic"@ {
            planned_automatically(extension)
        } else {
            Err(
                failed(
                    "DESTINATION_MODE_UNSUPPORTED"@,
                    "extension.destination_mode is automatic or exact, not '"@ + mode@ + "'"@,
                ),
            )
        },
    }
}

fn plan_automatically(extension: &ExtensionSettings) -> (goal: Result<
    DestinationGoal,
    CommandFailure,
>)
    ensures
        match planned_automatically(*extension) {
            Ok(planned) => goal == Ok::<DestinationGoal, CommandFailure>(planned),
            Err(failure) => goal is Err && goal->Err_0@ == failure,
        },
{
    let max_added_tracks: usize = match extension.max_added_tracks {
        None => {
            return Err(
                CommandFailure::plain(
                    "AUTOMATIC_BRIDGE_BUDGET_REQUIRED",
                    "an automatic destination route requires extension.max_added_tracks",
                ),
            );
        },
        Some(count) => count,
    };
    let min_added_tracks: usize = match extension.min_added_tracks {
        Some(count) => count,
        None => 0,
    };
    if max_added_tracks > MAX_EXACT_TRACKS_PER_GAP {
        return Err(refuse_too_many());
    }
    if min_added_tracks > max_added_tracks {
        return Err(
            CommandFailure::plain(
                "DESTINATION_BOUNDS_INVALID",
                "extension.min_added_tracks exceeds extension.max_added_tracks",
            ),
        );
    }
    match extension.trigger_percentile {
        None => Err(
            CommandFailure::plain(
                "AUTOMATIC_TRIGGER_REQUIRED",
                "an automatic destination route requires extension.trigger_percentile",
            ),
        ),
        Some(trigger_percentile) => Ok(
            DestinationGoal::Automatic { min_added_tracks, max_added_tracks, trigger_percentile },
        ),
    }
}

/// Reads the goal of a request for a route to a destination.
pub fn plan_goal(extension: &ExtensionSettings) -> (goal: Result<DestinationGoal, CommandFailure>)
    ensures
        match planned_goal(*extension) {
            Ok(planned) => goal == Ok::<DestinationGoal, CommandFailure>(planned),
            Err(failure) => goal is Err && goal->Err_0@ == failure,
        },
{
    match &extension.destination_mode {
        None => Err(
            CommandFailure::plain(
                "DESTINATION_MODE_REQUIRED",
                "destination_route extension requires extension.destination_mode",
            ),
        ),
        Some(mode) => {
            if is_text(mode.as_str(), "exact") {
                match extension.additional_track_count {
                    None => Err(
                        CommandFailure::plain(
                            "EXACT_COUNT_REQUIRED",
                            "an exact destination route requires extension.additional_track_count",
                        ),
                    ),
                    Some(added_tracks) => if added_tracks > MAX_EXACT_TRACKS_PER_GAP {
                        Err(refuse_too_many())
                    } else {
                        Ok(DestinationGoal::Exact { added_tracks })
                    },
                }
            } else if is_text(mode.as_str(), "automatic") {
                plan_automatically(extension)
            } else {
                Err(
                    CommandFailure::new(
                        "DESTINATION_MODE_UNSUPPORTED",
                        text_around(
                            "extension.destination_mode is automatic or exact, not '",
                            mode.as_str(),
                            "'",
                        ),
                    ),
                )
            }
        },
    }
}

/// A planned goal is within the bounds of a route to a destination.
pub proof fn planned_goals_are_bounded(extension: ExtensionSettings)
    ensures
        planned_goal(extension) matches Ok(goal) ==> fewest(goal) <= most(goal)
            <= MAX_EXACT_TRACKS_PER_GAP,
{
}

// The locked ends.

/// Whether a request asks for a route to a destination.
pub open spec fn is_destination(extension: ExtensionSettings) -> bool {
    extension.mode@ == "destination_route"@
}

/// Whether the last two sources are the locked start and destination.
pub open spec fn ends_at_the_locks(
    request: Request,
    start: Seq<char>,
    destination: Seq<char>,
) -> bool {
    let sources = request.source_tracks@;
    &&& sources.len() >= 2
    &&& sources[sources.len() - 2].id@ == start
    &&& sources.last().id@ == destination
}

/// Why the locks of a request for a route to a destination are refused, if so.
pub open spec fn locks_refusal(request: Request) -> Option<FailureView> {
    match (request.route.start_track_id, request.route.destination_track_id) {
        (Some(start), Some(destination)) => if ends_at_the_locks(request, start@, destination@) {
            None
        } else {
            Some(
                failed(
                    "DESTINATION_LOCK_MISMATCH"@,
                    "the final two source tracks must be the locked start and destination"@,
                ),
            )
        },
        _ => Some(
            failed(
                "DESTINATION_LOCKS_REQUIRED"@,
                "destination_route extension requires route.start_track_id and route.destination_track_id"@,
            ),
        ),
    }
}

/// Checks the locks of a request for a route to a destination.
pub fn check_locks(request: &Request) -> (checked: Result<(), CommandFailure>)
    ensures
        checked_by(checked, locks_refusal(*request)),
{
    match (&request.route.start_track_id, &request.route.destination_track_id) {
        (Some(start), Some(destination)) => {
            let count: usize = request.source_tracks.len();
            if count >= 2 && is_text(
                request.source_tracks[count - 2].id.as_str(),
                start.as_str(),
            ) && is_text(request.source_tracks[count - 1].id.as_str(), destination.as_str()) {
                Ok(())
            } else {
                Err(
                    CommandFailure::plain(
                        "DESTINATION_LOCK_MISMATCH",
                        "the final two source tracks must be the locked start and destination",
                    ),
                )
            }
        },
        _ => Err(
            CommandFailure::plain(
                "DESTINATION_LOCKS_REQUIRED",
                "destination_route extension requires route.start_track_id and route.destination_track_id",
            ),
        ),
    }
}

} // verus!
