//! Choosing among the routes to a destination, and what is reported of it.

use crate::anchored_path::{adjacency, adjacent, is_adjacency};
use crate::bridge::{percentile_of, BridgeError, FrozenReference};
use crate::destination::{DestinationRouteOption, DestinationRouteOptionView};
use crate::destination_goal::{
    breadth, effort_name, effort_text, fewest, most, search_breadth, target_of, DestinationGoal,
    SearchBreadth, SearchEffort,
};
use crate::exact::ExactSearchStats;
use crate::selection_report::{
    infeasibility_in, infeasible, is_unique, sequence_in, DecisionReport, DecisionReportView, Entry,
    EntryView, Infeasibility, InfeasibilityView, Names, NamesView,
};
use crate::sequences::{lemma_views_push, views};
use crate::units::exceeds;
use vstd::prelude::*;

verus! {

// How a path sounds.

/// A transition between two neighbours of a path.
#[derive(Clone, Copy, Debug, PartialEq, Eq, Structural)]
pub struct PathEdge {
    pub from: usize,
    pub to: usize,
    pub distance: u64,
    pub percentile: u64,
}

/// The first `count` transitions of a path, each with its distance and the share
/// of a distribution below it.
pub open spec fn edges_upto(
    reference: Seq<u64>,
    distance: spec_fn(usize, usize) -> u64,
    path: Seq<usize>,
    count: int,
) -> Result<Seq<PathEdge>, BridgeError>
    decreases count,
{
    if count <= 0 {
        Ok(seq![])
    } else {
        match edges_upto(reference, distance, path, count - 1) {
            Err(error) => Err(error),
            Ok(before) => {
                let apart = distance(path[count - 1], path[count]);
                match percentile_of(reference, apart) {
                    Err(error) => Err(error),
                    Ok(percentile) => Ok(
                        before.push(
                            PathEdge {
                                from: path[count - 1],
                                to: path[count],
                                distance: apart,
                                percentile,
                            },
                        ),
                    ),
                }
            },
        }
    }
}

/// The summed distance of the first `count` transitions.
pub open spec fn edge_sum(edges: Seq<PathEdge>, count: int) -> nat
    decreases count,
{
    if count <= 0 {
        0
    } else {
        edge_sum(edges, count - 1) + edges[count - 1].distance as nat
    }
}

/// The largest distance of the first `count` transitions.
pub open spec fn edge_bottleneck(edges: Seq<PathEdge>, count: int) -> u64
    decreases count,
{
    if count <= 0 {
        0
    } else {
        let before = edge_bottleneck(edges, count - 1);
        if edges[count - 1].distance > before {
            edges[count - 1].distance
        } else {
            before
        }
    }
}

/// The largest share of the first `count` transitions.
pub open spec fn edge_percentile(edges: Seq<PathEdge>, count: int) -> u64
    decreases count,
{
    if count <= 0 {
        0
    } else {
        let before = edge_percentile(edges, count - 1);
        if edges[count - 1].percentile > before {
            edges[count - 1].percentile
        } else {
            before
        }
    }
}

/// How a path sounds, from neighbour to neighbour.
#[verifier::ext_equal]
pub struct PathQualityView {
    pub edges: Seq<PathEdge>,
    pub sum: nat,
    pub bottleneck: u64,
    pub worst_percentile: u64,
}

/// How a path sounds, from neighbour to neighbour.
#[derive(Debug, PartialEq, Eq)]
pub struct PathQuality {
    pub edges: Vec<PathEdge>,
    pub sum: u128,
    pub bottleneck: u64,
    pub worst_percentile: u64,
}

impl View for PathQuality {
    type V = PathQualityView;

    open spec fn view(&self) -> PathQualityView {
        PathQualityView {
            edges: self.edges@,
            sum: self.sum as nat,
            bottleneck: self.bottleneck,
            worst_percentile: self.worst_percentile,
        }
    }
}

/// How a path sounds by a distance and a distribution.
pub open spec fn path_quality(
    reference: Seq<u64>,
    distance: spec_fn(usize, usize) -> u64,
    path: Seq<usize>,
) -> Result<PathQualityView, BridgeError> {
    match edges_upto(reference, distance, path, path.len() - 1) {
        Err(error) => Err(error),
        Ok(edges) => Ok(
            PathQualityView {
                edges,
                sum: edge_sum(edges, edges.len() as int),
                bottleneck: edge_bottleneck(edges, edges.len() as int),
                worst_percentile: edge_percentile(edges, edges.len() as int),
            },
        ),
    }
}

proof fn lemma_edges_error(
    reference: Seq<u64>,
    distance: spec_fn(usize, usize) -> u64,
    path: Seq<usize>,
    from: int,
    to: int,
)
    requires
        0 <= from <= to,
        edges_upto(reference, distance, path, from) is Err,
    ensures
        edges_upto(reference, distance, path, to) == edges_upto(reference, distance, path, from),
    decreases to - from,
{
    if from < to {
        lemma_edges_error(reference, distance, path, from, to - 1);
    }
}

/// A further transition leaves the totals of those before it alone.
pub proof fn lemma_edge_totals_push(edges: Seq<PathEdge>, edge: PathEdge, count: int)
    requires
        0 <= count <= edges.len(),
    ensures
        edge_sum(edges.push(edge), count) == edge_sum(edges, count),
        edge_bottleneck(edges.push(edge), count) == edge_bottleneck(edges, count),
        edge_percentile(edges.push(edge), count) == edge_percentile(edges, count),
    decreases count,
{
    if count > 0 {
        lemma_edge_totals_push(edges, edge, count - 1);
    }
}

/// Measures how a path sounds.
pub fn measure_path<F: Fn(usize, usize) -> u64>(
    reference: &FrozenReference,
    distance: &F,
    path: &[usize],
) -> (quality: Result<PathQuality, BridgeError>)
    requires
        is_adjacency(*distance),
        path@.len() >= 1,
    ensures
        match path_quality(reference@, adjacency(*distance), path@) {
            Ok(found) => quality is Ok && quality->Ok_0@ == found,
            Err(error) => quality is Err && quality->Err_0 == error,
        },
{
    let ghost apart_by = adjacency(*distance);
    let mut edges: Vec<PathEdge> = Vec::new();
    let mut sum: u128 = 0;
    let mut bottleneck: u64 = 0;
    let mut worst_percentile: u64 = 0;
    let mut at: usize = 1;
    while at < path.len()
        invariant
            1 <= at <= path@.len(),
            is_adjacency(*distance),
            apart_by == adjacency(*distance),
            edges_upto(reference@, apart_by, path@, at - 1) == Ok::<Seq<PathEdge>, BridgeError>(
                edges@,
            ),
            edges@.len() == at - 1,
            sum as nat == edge_sum(edges@, at - 1),
            sum <= (at - 1) * u64::MAX,
            bottleneck == edge_bottleneck(edges@, at - 1),
            worst_percentile == edge_percentile(edges@, at - 1),
        decreases path@.len() - at,
    {
        let apart: u64 = adjacent(distance, path[at - 1], path[at]);
        let percentile: u64 = match reference.percentile(apart) {
            Err(error) => {
                proof {
                    lemma_edges_error(
                        reference@,
                        apart_by,
                        path@,
                        at as int,
                        path@.len() - 1,
                    );
                }
                return Err(error);
            },
            Ok(percentile) => percentile,
        };
        let edge = PathEdge { from: path[at - 1], to: path[at], distance: apart, percentile };
        proof {
            lemma_edge_totals_push(edges@, edge, at - 1);
            assert((at - 1) * u64::MAX + u64::MAX == at * u64::MAX) by (nonlinear_arith);
            assert(at * u64::MAX <= usize::MAX * u64::MAX) by (nonlinear_arith)
                requires
                    at <= usize::MAX,
            ;
            assert(usize::MAX * u64::MAX <= u128::MAX) by (nonlinear_arith)
                requires
                    usize::MAX <= 0xffff_ffff_ffff_ffff,
            ;
        }
        edges.push(edge);
        sum = sum + apart as u128;
        if apart > bottleneck {
            bottleneck = apart;
        }
        if percentile > worst_percentile {
            worst_percentile = percentile;
        }
        at += 1;
    }
    Ok(PathQuality { edges, sum, bottleneck, worst_percentile })
}

/// The requested part of a route: from the start, `before` tracks into it, to
/// the destination.
pub open spec fn requested_path(option: DestinationRouteOptionView, before: int) -> Seq<usize> {
    match option.selection.final_route {
        Some(route) => route.skip(before),
        None => seq![],
    }
}

/// How the routes from `at` on sound, behind those in `done`.
pub open spec fn qualities_from(
    reference: Seq<u64>,
    distance: spec_fn(usize, usize) -> u64,
    options: Seq<DestinationRouteOptionView>,
    before: int,
    at: int,
    done: Seq<PathQualityView>,
) -> Result<Seq<PathQualityView>, BridgeError>
    decreases options.len() - at,
{
    if at >= options.len() {
        Ok(done)
    } else {
        match path_quality(reference, distance, requested_path(options[at], before)) {
            Err(error) => Err(error),
            Ok(quality) => qualities_from(
                reference,
                distance,
                options,
                before,
                at + 1,
                done.push(quality),
            ),
        }
    }
}

/// Measures how every route sounds.
pub fn measure_routes<F: Fn(usize, usize) -> u64>(
    reference: &FrozenReference,
    distance: &F,
    options: &Vec<DestinationRouteOption>,
    before: usize,
) -> (qualities: Result<Vec<PathQuality>, BridgeError>)
    requires
        is_adjacency(*distance),
        forall|i: int|
            0 <= i < options@.len() ==> (#[trigger] options@[i])@.selection.final_route is Some
                && options@[i]@.selection.final_route->Some_0.len() > before,
    ensures
        match qualities_from(
            reference@,
            adjacency(*distance),
            views(options@),
            before as int,
            0,
            seq![],
        ) {
            Ok(found) => qualities is Ok && views(qualities->Ok_0@) == found
                && qualities->Ok_0@.len() == options@.len(),
            Err(error) => qualities is Err && qualities->Err_0 == error,
        },
{
    let ghost all = views(options@);
    let ghost apart_by = adjacency(*distance);
    let mut qualities: Vec<PathQuality> = Vec::new();
    let mut at: usize = 0;
    assert(views(qualities@) =~= seq![]);
    while at < options.len()
        invariant
            at <= options@.len(),
            all == views(options@),
            apart_by == adjacency(*distance),
            is_adjacency(*distance),
            qualities@.len() == at,
            forall|i: int|
                0 <= i < options@.len() ==> (#[trigger] options@[i])@.selection.final_route is Some
                    && options@[i]@.selection.final_route->Some_0.len() > before,
            qualities_from(reference@, apart_by, all, before as int, 0, seq![]) == qualities_from(
                reference@,
                apart_by,
                all,
                before as int,
                at as int,
                views(qualities@),
            ),
        decreases options@.len() - at,
    {
        assert(all[at as int] == options@[at as int]@);
        match &options[at].selection.final_route {
            Some(route) => {
                let path = vstd::slice::slice_subrange(route.as_slice(), before, route.len());
                assert(path@ =~= route@.skip(before as int));
                match measure_path(reference, distance, path) {
                    Err(error) => {
                        return Err(error);
                    },
                    Ok(quality) => {
                        proof {
                            lemma_views_push(qualities@, quality);
                        }
                        qualities.push(quality);
                    },
                }
            },
            None => {
                assert(options@[at as int]@.selection.final_route is Some);
                return Ok(qualities);
            },
        }
        at += 1;
    }
    Ok(qualities)
}

// The choice.

/// Whether a goal allows the length of a route.
pub open spec fn is_permitted(goal: DestinationGoal, option: DestinationRouteOptionView) -> bool {
    fewest(goal) <= option.added_track_count <= most(goal)
}

/// Whether a route is all that a goal asks for.
pub open spec fn qualifies(
    goal: DestinationGoal,
    option: DestinationRouteOptionView,
    quality: PathQualityView,
) -> bool {
    is_permitted(goal, option) && (target_of(goal) matches Some(target)
        ==> quality.worst_percentile <= target)
}

/// The shortest of the first `count` routes that are all that a goal asks for.
pub open spec fn shortest_qualifying(
    goal: DestinationGoal,
    options: Seq<DestinationRouteOptionView>,
    qualities: Seq<PathQualityView>,
    count: int,
) -> Option<int>
    decreases count,
{
    if count <= 0 {
        None
    } else {
        let before = shortest_qualifying(goal, options, qualities, count - 1);
        if qualifies(goal, options[count - 1], qualities[count - 1]) && (before matches Some(other)
            ==> options[count - 1].added_track_count < options[other].added_track_count) {
            Some(count - 1)
        } else {
            before
        }
    }
}

/// Whether one route has a smaller bottleneck than another, or the same and a
/// smaller sum.
pub open spec fn sounds_better(
    left: DestinationRouteOptionView,
    right: DestinationRouteOptionView,
) -> bool {
    left.adjacent_worst_transition < right.adjacent_worst_transition || (
    left.adjacent_worst_transition == right.adjacent_worst_transition
        && left.adjacent_transition_sum < right.adjacent_transition_sum)
}

/// The best sounding of the first `count` routes that a goal allows.
pub open spec fn best_effort(
    goal: DestinationGoal,
    options: Seq<DestinationRouteOptionView>,
    count: int,
) -> Option<int>
    decreases count,
{
    if count <= 0 {
        None
    } else {
        let before = best_effort(goal, options, count - 1);
        if is_permitted(goal, options[count - 1]) && (before matches Some(other) ==> sounds_better(
            options[count - 1],
            options[other],
        )) {
            Some(count - 1)
        } else {
            before
        }
    }
}

/// The route that is chosen: the shortest that is all that the goal asks for, or
/// else the best sounding that it allows.
pub open spec fn chosen_route(
    goal: DestinationGoal,
    options: Seq<DestinationRouteOptionView>,
    qualities: Seq<PathQualityView>,
) -> Option<int> {
    match shortest_qualifying(goal, options, qualities, options.len() as int) {
        Some(at) => Some(at),
        None => best_effort(goal, options, options.len() as int),
    }
}

/// Chooses among routes.
pub fn choose_route(
    goal: &DestinationGoal,
    options: &Vec<DestinationRouteOption>,
    qualities: &Vec<PathQuality>,
) -> (chosen: Option<usize>)
    requires
        qualities@.len() == options@.len(),
    ensures
        match chosen_route(*goal, views(options@), views(qualities@)) {
            Some(at) => chosen is Some && chosen->Some_0 == at && 0 <= at < options@.len(),
            None => chosen is None,
        },
{
    let ghost all = views(options@);
    let ghost heard = views(qualities@);
    let least: usize = goal.fewest();
    let greatest: usize = goal.most();
    let target: Option<i64> = goal.target();
    let mut shortest: Option<usize> = None;
    let mut best: Option<usize> = None;
    let mut at: usize = 0;
    while at < options.len()
        invariant
            at <= options@.len(),
            qualities@.len() == options@.len(),
            all == views(options@),
            heard == views(qualities@),
            least == fewest(*goal),
            greatest == most(*goal),
            target == target_of(*goal),
            match shortest_qualifying(*goal, all, heard, at as int) {
                Some(place) => shortest is Some && shortest->Some_0 == place && 0 <= place < at,
                None => shortest is None,
            },
            match best_effort(*goal, all, at as int) {
                Some(place) => best is Some && best->Some_0 == place && 0 <= place < at,
                None => best is None,
            },
        decreases options@.len() - at,
    {
        assert(all[at as int] == options@[at as int]@);
        assert(heard[at as int] == qualities@[at as int]@);
        let count: usize = options[at].added_track_count;
        let permitted: bool = least <= count && count <= greatest;
        let well: bool = match target {
            Some(target) => !exceeds(qualities[at].worst_percentile, target),
            None => true,
        };
        let shorter: bool = match shortest {
            Some(other) => {
                assert(all[other as int] == options@[other as int]@);
                count < options[other].added_track_count
            },
            None => true,
        };
        if permitted && well && shorter {
            shortest = Some(at);
        }
        let better: bool = match best {
            Some(other) => {
                assert(all[other as int] == options@[other as int]@);
                options[at].adjacent_worst_transition < options[other].adjacent_worst_transition
                    || (options[at].adjacent_worst_transition
                    == options[other].adjacent_worst_transition
                    && options[at].adjacent_transition_sum
                    < options[other].adjacent_transition_sum)
            },
            None => true,
        };
        if permitted && better {
            best = Some(at);
        }
        at += 1;
    }
    match shortest {
        Some(place) => Some(place),
        None => best,
    }
}

proof fn lemma_shortest_qualifying(
    goal: DestinationGoal,
    options: Seq<DestinationRouteOptionView>,
    qualities: Seq<PathQualityView>,
    count: int,
)
    requires
        0 <= count <= options.len(),
    ensures
        match shortest_qualifying(goal, options, qualities, count) {
            Some(at) => {
                &&& 0 <= at < count
                &&& qualifies(goal, options[at], qualities[at])
                &&& forall|i: int|
                    0 <= i < count && qualifies(goal, #[trigger] options[i], qualities[i])
                        ==> options[at].added_track_count <= options[i].added_track_count
            },
            None => forall|i: int|
                0 <= i < count ==> !qualifies(goal, #[trigger] options[i], qualities[i]),
        },
    decreases count,
{
    if count > 0 {
        lemma_shortest_qualifying(goal, options, qualities, count - 1);
    }
}

proof fn lemma_best_effort(
    goal: DestinationGoal,
    options: Seq<DestinationRouteOptionView>,
    count: int,
)
    requires
        0 <= count <= options.len(),
    ensures
        match best_effort(goal, options, count) {
            Some(at) => {
                &&& 0 <= at < count
                &&& is_permitted(goal, options[at])
                &&& forall|i: int|
                    0 <= i < count && is_permitted(goal, #[trigger] options[i]) ==> !sounds_better(
                        options[i],
                        options[at],
                    )
            },
            None => forall|i: int| 0 <= i < count ==> !is_permitted(goal, #[trigger] options[i]),
        },
    decreases count,
{
    if count > 0 {
        lemma_best_effort(goal, options, count - 1);
    }
}

/// A chosen route is of a length that the goal allows. Where some route is all
/// that the goal asks for, the chosen one is so too and no longer than any of
/// them; otherwise no route that the goal allows sounds better. Nothing is
/// chosen only where the goal allows none of the routes.
pub proof fn the_shortest_good_route_or_the_best_is_chosen(
    goal: DestinationGoal,
    options: Seq<DestinationRouteOptionView>,
    qualities: Seq<PathQualityView>,
)
    requires
        qualities.len() == options.len(),
    ensures
        match chosen_route(goal, options, qualities) {
            Some(at) => {
                &&& 0 <= at < options.len()
                &&& is_permitted(goal, options[at])
                &&& (exists|i: int|
                    0 <= i < options.len() && qualifies(goal, #[trigger] options[i], qualities[i]))
                    ==> qualifies(goal, options[at], qualities[at]) && forall|i: int|
                    0 <= i < options.len() && qualifies(goal, #[trigger] options[i], qualities[i])
                        ==> options[at].added_track_count <= options[i].added_track_count
                &&& !qualifies(goal, options[at], qualities[at]) ==> forall|i: int|
                    0 <= i < options.len() && is_permitted(goal, #[trigger] options[i])
                        ==> !sounds_better(options[i], options[at])
            },
            None => forall|i: int|
                0 <= i < options.len() ==> !is_permitted(goal, #[trigger] options[i]),
        },
{
    lemma_shortest_qualifying(goal, options, qualities, options.len() as int);
    lemma_best_effort(goal, options, options.len() as int);
}

// What is reported.

/// A transition as it is reported.
#[verifier::ext_equal]
pub struct EdgeReportView {
    pub from_track_id: Seq<char>,
    pub to_track_id: Seq<char>,
    pub distance: u64,
    pub percentile: u64,
}

/// A transition as it is reported.
#[derive(Debug)]
pub struct EdgeReport {
    pub from_track_id: String,
    pub to_track_id: String,
    pub distance: u64,
    pub percentile: u64,
}

impl View for EdgeReport {
    type V = EdgeReportView;

    open spec fn view(&self) -> EdgeReportView {
        EdgeReportView {
            from_track_id: self.from_track_id@,
            to_track_id: self.to_track_id@,
            distance: self.distance,
            percentile: self.percentile,
        }
    }
}

/// How a route sounds as it is reported.
#[verifier::ext_equal]
pub struct QualityReportView {
    pub distance_kind: Seq<char>,
    pub percentile_kind: Seq<char>,
    pub edges: Seq<EdgeReportView>,
    pub adjacent_distance_sum: nat,
    pub adjacent_bottleneck: u64,
    pub worst_adjacent_percentile: u64,
}

/// How a route sounds as it is reported.
#[derive(Debug)]
pub struct QualityReport {
    pub distance_kind: &'static str,
    pub percentile_kind: &'static str,
    pub edges: Vec<EdgeReport>,
    pub adjacent_distance_sum: u128,
    pub adjacent_bottleneck: u64,
    pub worst_adjacent_percentile: u64,
}

impl View for QualityReport {
    type V = QualityReportView;

    open spec fn view(&self) -> QualityReportView {
        QualityReportView {
            distance_kind: self.distance_kind@,
            percentile_kind: self.percentile_kind@,
            edges: views(self.edges@),
            adjacent_distance_sum: self.adjacent_distance_sum as nat,
            adjacent_bottleneck: self.adjacent_bottleneck,
            worst_adjacent_percentile: self.worst_adjacent_percentile,
        }
    }
}

/// What is reported of a route to a destination.
#[verifier::ext_equal]
pub struct DestinationReportView {
    pub processing_order: Seq<char>,
    pub destination_mode: Seq<char>,
    pub search_effort: Seq<char>,
    pub breadth: SearchBreadth,
    pub min_added_tracks: usize,
    pub max_added_tracks: usize,
    pub trigger_percentile: Option<i64>,
    pub feasible: bool,
    pub target_met: Option<bool>,
    pub added_track_count: usize,
    pub original_subsequence_preserved: Option<bool>,
    pub unique_membership: Option<bool>,
    pub final_sequence: Option<Seq<EntryView>>,
    pub decisions: Seq<DecisionReportView>,
    pub route_quality: Option<QualityReportView>,
    pub stats: ExactSearchStats,
    pub infeasibility: Option<InfeasibilityView>,
}

/// What is reported of a route to a destination.
#[derive(Debug)]
pub struct DestinationReport {
    pub processing_order: &'static str,
    pub destination_mode: &'static str,
    pub search_effort: &'static str,
    pub breadth: SearchBreadth,
    pub min_added_tracks: usize,
    pub max_added_tracks: usize,
    pub trigger_percentile: Option<i64>,
    pub feasible: bool,
    pub target_met: Option<bool>,
    pub added_track_count: usize,
    pub original_subsequence_preserved: Option<bool>,
    pub unique_membership: Option<bool>,
    pub final_sequence: Option<Vec<Entry>>,
    pub decisions: Vec<DecisionReport>,
    pub route_quality: Option<QualityReport>,
    pub stats: ExactSearchStats,
    pub infeasibility: Option<Infeasibility>,
}

/// The value of a quality that may be missing.
pub open spec fn quality_in(quality: Option<QualityReport>) -> Option<QualityReportView> {
    match quality {
        Some(quality) => Some(quality@),
        None => None,
    }
}

impl View for DestinationReport {
    type V = DestinationReportView;

    open spec fn view(&self) -> DestinationReportView {
        DestinationReportView {
            processing_order: self.processing_order@,
            destination_mode: self.destination_mode@,
            search_effort: self.search_effort@,
            breadth: self.breadth,
            min_added_tracks: self.min_added_tracks,
            max_added_tracks: self.max_added_tracks,
            trigger_percentile: self.trigger_percentile,
            feasible: self.feasible,
            target_met: self.target_met,
            added_track_count: self.added_track_count,
            original_subsequence_preserved: self.original_subsequence_preserved,
            unique_membership: self.unique_membership,
            final_sequence: sequence_in(self.final_sequence),
            decisions: views(self.decisions@),
            route_quality: quality_in(self.route_quality),
            stats: self.stats,
            infeasibility: infeasibility_in(self.infeasibility),
        }
    }
}

/// The name of a goal.
pub open spec fn goal_text(goal: DestinationGoal) -> Seq<char> {
    match goal {
        DestinationGoal::Automatic { .. } => "automatic"@,
        DestinationGoal::Exact { .. } => "exact"@,
    }
}

/// The most tracks on the way that any of the first `count` routes has.
pub open spec fn longest_upto(options: Seq<DestinationRouteOptionView>, count: int) -> usize
    decreases count,
{
    if count <= 0 {
        0
    } else {
        let before = longest_upto(options, count - 1);
        if options[count - 1].added_track_count > before {
            options[count - 1].added_track_count
        } else {
            before
        }
    }
}

/// What is known of a search that found no route of a length that the goal
/// allows: `candidates` tracks were there to choose from.
pub open spec fn missed(
    goal: DestinationGoal,
    options: Seq<DestinationRouteOptionView>,
    candidates: usize,
) -> ExactSearchStats {
    ExactSearchStats {
        max_tracks_per_gap: most(goal),
        evaluated_states: 0,
        retained_states: 0,
        maximum_additions_found: longest_upto(options, options.len() as int),
        structural_upper_bound: if candidates < most(goal) {
            candidates
        } else {
            most(goal)
        },
    }
}

impl NamesView {
    /// Transitions under the names of their tracks.
    pub open spec fn edges(self, edges: Seq<PathEdge>) -> Seq<EdgeReportView> {
        Seq::new(
            edges.len(),
            |i: int|
                EdgeReportView {
                    from_track_id: self.name(edges[i].from),
                    to_track_id: self.name(edges[i].to),
                    distance: edges[i].distance,
                    percentile: edges[i].percentile,
                },
        )
    }

    /// How a route sounds, under the names of its tracks.
    pub open spec fn quality(self, quality: PathQualityView) -> QualityReportView {
        QualityReportView {
            distance_kind: "fixed-matrix-adjacent-distance"@,
            percentile_kind: "source-relative-local-library-percentile"@,
            edges: self.edges(quality.edges),
            adjacent_distance_sum: quality.sum,
            adjacent_bottleneck: quality.bottleneck,
            worst_adjacent_percentile: quality.worst_percentile,
        }
    }

    /// What is reported of the routes to a destination.
    pub open spec fn destination(
        self,
        goal: DestinationGoal,
        effort: SearchEffort,
        options: Seq<DestinationRouteOptionView>,
        qualities: Seq<PathQualityView>,
        candidates: usize,
    ) -> DestinationReportView {
        let chosen = chosen_route(goal, options, qualities);
        let at = chosen->Some_0;
        let route = options[at].selection.final_route->Some_0;
        let lacking = missed(goal, options, candidates);
        DestinationReportView {
            processing_order: "fixed-matrix-layered-path-search"@,
            destination_mode: goal_text(goal),
            search_effort: effort_text(effort),
            breadth: breadth(effort),
            min_added_tracks: fewest(goal),
            max_added_tracks: most(goal),
            trigger_percentile: target_of(goal),
            feasible: chosen is Some,
            target_met: match (chosen, target_of(goal)) {
                (Some(at), Some(target)) => Some(qualities[at].worst_percentile <= target),
                _ => None,
            },
            added_track_count: if chosen is Some {
                options[at].added_track_count
            } else {
                0
            },
            original_subsequence_preserved: if chosen is Some {
                Some(self.preserved(route))
            } else {
                None
            },
            unique_membership: if chosen is Some {
                Some(route.no_duplicates())
            } else {
                None
            },
            final_sequence: if chosen is Some {
                Some(self.sequence(route))
            } else {
                None
            },
            decisions: if chosen is Some {
                self.decisions(options[at].selection.decisions, target_of(goal))
            } else {
                seq![]
            },
            route_quality: if chosen is Some {
                Some(self.quality(qualities[at]))
            } else {
                None
            },
            stats: if chosen is Some {
                options[at].selection.stats
            } else {
                lacking
            },
            infeasibility: if chosen is Some {
                None
            } else {
                Some(infeasible(fewest(goal), lacking))
            },
        }
    }
}

fn report_edges(names: &Names<'_>, edges: &Vec<PathEdge>) -> (reports: Vec<EdgeReport>)
    requires
        names.valid(),
    ensures
        views(reports@) == names@.edges(edges@),
{
    let mut reports: Vec<EdgeReport> = Vec::new();
    let mut at: usize = 0;
    while at < edges.len()
        invariant
            at <= edges@.len(),
            names.valid(),
            views(reports@) =~= names@.edges(edges@).take(at as int),
        decreases edges@.len() - at,
    {
        let edge = edges[at];
        let report = EdgeReport {
            from_track_id: names.name(edge.from),
            to_track_id: names.name(edge.to),
            distance: edge.distance,
            percentile: edge.percentile,
        };
        proof {
            lemma_views_push(reports@, report);
        }
        reports.push(report);
        at += 1;
    }
    assert(views(reports@) =~= names@.edges(edges@));
    reports
}

fn report_quality(names: &Names<'_>, quality: &PathQuality) -> (report: QualityReport)
    requires
        names.valid(),
    ensures
        report@ == names@.quality(quality@),
{
    QualityReport {
        distance_kind: "fixed-matrix-adjacent-distance",
        percentile_kind: "source-relative-local-library-percentile",
        edges: report_edges(names, &quality.edges),
        adjacent_distance_sum: quality.sum,
        adjacent_bottleneck: quality.bottleneck,
        worst_adjacent_percentile: quality.worst_percentile,
    }
}

fn goal_name(goal: &DestinationGoal) -> (name: &'static str)
    ensures
        name@ == goal_text(*goal),
{
    match goal {
        DestinationGoal::Automatic { .. } => "automatic",
        DestinationGoal::Exact { .. } => "exact",
    }
}

fn find_longest(options: &Vec<DestinationRouteOption>) -> (longest: usize)
    ensures
        longest == longest_upto(views(options@), options@.len() as int),
{
    let ghost all = views(options@);
    let mut longest: usize = 0;
    let mut at: usize = 0;
    while at < options.len()
        invariant
            at <= options@.len(),
            all == views(options@),
            longest == longest_upto(all, at as int),
        decreases options@.len() - at,
    {
        assert(all[at as int] == options@[at as int]@);
        if options[at].added_track_count > longest {
            longest = options[at].added_track_count;
        }
        at += 1;
    }
    longest
}

/// Chooses among the routes to a destination and reports the choice.
pub fn report_destination(
    names: &Names<'_>,
    goal: &DestinationGoal,
    effort: SearchEffort,
    options: &Vec<DestinationRouteOption>,
    qualities: &Vec<PathQuality>,
    candidates: usize,
) -> (report: DestinationReport)
    requires
        names.valid(),
        qualities@.len() == options@.len(),
        forall|i: int|
            0 <= i < options@.len() ==> (#[trigger] options@[i])@.selection.final_route is Some,
    ensures
        report@ == names@.destination(
            *goal,
            effort,
            views(options@),
            views(qualities@),
            candidates,
        ),
{
    let ghost all = views(options@);
    let target: Option<i64> = goal.target();
    let found = match choose_route(goal, options, qualities) {
        Some(at) => {
            assert(all[at as int] == options@[at as int]@);
            assert(views(qualities@)[at as int] == qualities@[at as int]@);
            match &options[at].selection.final_route {
                Some(route) => Some((at, route)),
                None => None,
            }
        },
        None => None,
    };
    match found {
        Some((at, route)) => {
            let route = route.as_slice();
            let option = &options[at];
            DestinationReport {
                processing_order: "fixed-matrix-layered-path-search",
                destination_mode: goal_name(goal),
                search_effort: effort_name(effort),
                breadth: search_breadth(effort),
                min_added_tracks: goal.fewest(),
                max_added_tracks: goal.most(),
                trigger_percentile: target,
                feasible: true,
                target_met: match target {
                    Some(target) => Some(!exceeds(qualities[at].worst_percentile, target)),
                    None => None,
                },
                added_track_count: option.added_track_count,
                original_subsequence_preserved: Some(names.preserved(route)),
                unique_membership: Some(is_unique(route)),
                final_sequence: Some(names.sequence(route)),
                decisions: names.decisions(&option.selection.decisions, target),
                route_quality: Some(report_quality(names, &qualities[at])),
                stats: option.selection.stats,
                infeasibility: None,
            }
        },
        None => {
            let greatest: usize = goal.most();
            let requested: usize = goal.fewest();
            let bound: usize = if candidates < greatest {
                candidates
            } else {
                greatest
            };
            let longest: usize = find_longest(options);
            let decisions: Vec<DecisionReport> = Vec::new();
            assert(views(decisions@) =~= seq![]);
            DestinationReport {
                processing_order: "fixed-matrix-layered-path-search",
                destination_mode: goal_name(goal),
                search_effort: effort_name(effort),
                breadth: search_breadth(effort),
                min_added_tracks: requested,
                max_added_tracks: greatest,
                trigger_percentile: target,
                feasible: false,
                target_met: None,
                added_track_count: 0,
                original_subsequence_preserved: None,
                unique_membership: None,
                final_sequence: None,
                decisions,
                route_quality: None,
                stats: ExactSearchStats {
                    max_tracks_per_gap: greatest,
                    evaluated_states: 0,
                    retained_states: 0,
                    maximum_additions_found: longest,
                    structural_upper_bound: bound,
                },
                infeasibility: Some(
                    Infeasibility {
                        code: if requested > bound {
                            "EXACT_COUNT_INFEASIBLE"
                        } else {
                            "EXACT_COUNT_NOT_FOUND_WITHIN_SEARCH_BOUNDS"
                        },
                        requested_added_tracks: requested,
                        maximum_additions_found: longest,
                        structural_upper_bound: bound,
                    },
                ),
            }
        },
    }
}

} // verus!
