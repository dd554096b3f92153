//! What the choices among finished routes and paths come to, in numbers.

use crate::anchored_path::PathModel;
use crate::bridge::{percentile_of, BridgeError};
use crate::coarse_pool::{
    coarse_pool, pools_are_bounded_and_keep_the_nearest, remoteness, remotenesses, Nearness,
};
use crate::destination::{
    best_routes, best_with, walk_between, DestinationModel, DestinationRouteOptionView,
};
use crate::destination_goal::DestinationGoal;
use crate::destination_report::{
    chosen_route, edge_bottleneck, edge_percentile, edge_sum, edges_upto, is_permitted,
    path_quality, the_shortest_good_route_or_the_best_is_chosen, PathEdge, PathQualityView,
};
use crate::exact::ExactModel;
use crate::exact_multi::{best_path_first, lemma_path_ranking, GapPathView, PathState};
use crate::preview::AutomaticGapView;
use crate::route::nearest_first;
use crate::sequences::{lex_less, lex_less_from};
use crate::sorting::{
    sifting_drops_the_last, stable_sort, stable_sort_is_sorted, stable_sort_keeps_items,
    stable_sort_same_members,
};
use crate::states::same_state_route;
use vstd::prelude::*;

verus! {

// The order of routes.

/// Whether the first place at which two routes differ, or at which the left one
/// is over, puts the left one first.
pub open spec fn first_difference(left: Seq<usize>, right: Seq<usize>, at: int) -> bool {
    &&& 0 <= at < right.len()
    &&& at <= left.len()
    &&& forall|i: int| 0 <= i < at ==> #[trigger] left[i] == right[i]
    &&& at == left.len() || left[at] < right[at]
}

proof fn lemma_first_difference(left: Seq<usize>, right: Seq<usize>, from: int)
    requires
        0 <= from <= left.len(),
        from <= right.len(),
        forall|i: int| 0 <= i < from ==> #[trigger] left[i] == right[i],
    ensures
        lex_less_from(left, right, from) <==> exists|at: int| #[trigger]
            first_difference(left, right, at),
    decreases left.len() - from,
{
    if from < right.len() && (from == left.len() || left[from] < right[from]) {
        assert(first_difference(left, right, from));
    } else if from < right.len() && left[from] == right[from] {
        lemma_first_difference(left, right, from + 1);
    } else if exists|at: int| #[trigger] first_difference(left, right, at) {
        let at = choose|at: int| #[trigger] first_difference(left, right, at);
        if at > from {
            assert(left[from] == right[from]);
        }
    }
}

/// A route comes before another exactly where it has the smaller number at the
/// first place at which they differ, or is over where the other goes on.
pub proof fn routes_come_by_their_first_difference(left: Seq<usize>, right: Seq<usize>)
    ensures
        lex_less(left, right) <==> exists|at: int| #[trigger] first_difference(left, right, at),
{
    lemma_first_difference(left, right, 0);
}

// The tracks on the way.

/// Whether some tracks, `count` of them and all in a pool, are no farther by a
/// measure than a bound.
pub open spec fn holds_as_near(
    pool: Seq<usize>,
    near: Seq<usize>,
    farness: spec_fn(usize) -> int,
    bound: int,
    count: int,
) -> bool {
    &&& near.len() == count
    &&& forall|i: int|
        0 <= i < near.len() ==> pool.contains(#[trigger] near[i]) && farness(near[i]) <= bound
}

/// How far a track is from the start, from the destination, or from the farther
/// of both.
pub open spec fn farness(
    distance: spec_fn(usize, usize) -> u64,
    left: usize,
    right: usize,
    nearness: Nearness,
) -> spec_fn(usize) -> int {
    |track: usize|
        {
            let from = distance(left, track) as int;
            let to = distance(track, right) as int;
            if nearness == Nearness::Left || (nearness == Nearness::Middle && from >= to) {
                from
            } else {
                to
            }
        }
}

/// A track that no longer comes into question leaves enough others: by each
/// measure a third of the limit, all of them kept and none of them farther.
pub proof fn pools_drop_only_what_is_no_nearer(
    tracks: Seq<usize>,
    distance: spec_fn(usize, usize) -> u64,
    left: usize,
    right: usize,
    limit: usize,
    nearness: Nearness,
    dropped: usize,
)
    requires
        tracks.contains(dropped),
        !coarse_pool(tracks, distance, left, right, limit).contains(dropped),
    ensures
        exists|near: Seq<usize>|
            #![trigger near.len()]
            holds_as_near(
                coarse_pool(tracks, distance, left, right, limit),
                near,
                farness(distance, left, right, nearness),
                farness(distance, left, right, nearness)(dropped),
                limit as int / 3,
            ) && (tracks.no_duplicates() ==> near.no_duplicates()),
{
    let pool = coarse_pool(tracks, distance, left, right, limit);
    let all = remotenesses(tracks, distance, left, right, nearness);
    let sorted = stable_sort(all, nearest_first());
    let third = limit as int / 3;
    let measure = farness(distance, left, right, nearness);
    stable_sort_is_sorted(all, nearest_first());
    stable_sort_same_members(all, nearest_first());
    stable_sort_keeps_items(all, nearest_first());
    pools_are_bounded_and_keep_the_nearest(tracks, distance, left, right, limit, nearness, 0);
    assert(tracks.len() > limit);
    let near = Seq::new(third as nat, |i: int| sorted[i].1);
    let at = choose|i: int| 0 <= i < tracks.len() && tracks[i] == dropped;
    assert(all.contains(all[at]));
    assert(sorted.contains(all[at]));
    let place = choose|i: int| 0 <= i < sorted.len() && sorted[i] == all[at];
    assert forall|i: int| 0 <= i < sorted.len() implies (#[trigger] sorted[i]).0 == measure(
        sorted[i].1,
    ) by {
        assert(sorted.contains(sorted[i]));
        assert(all.contains(sorted[i]));
        let j = choose|j: int| 0 <= j < all.len() && all[j] == sorted[i];
        assert(all[j].0 == remoteness(distance, left, right, nearness, tracks[j]));
    }
    assert forall|i: int| 0 <= i < near.len() implies pool.contains(#[trigger] near[i])
        && measure(near[i]) <= measure(dropped) by {
        pools_are_bounded_and_keep_the_nearest(tracks, distance, left, right, limit, nearness, i);
        if place < i {
            pools_are_bounded_and_keep_the_nearest(
                tracks,
                distance,
                left,
                right,
                limit,
                nearness,
                place,
            );
        }
        assert(place != i);
        assert(nearest_first()(sorted[i], sorted[place]));
    }
    assert(holds_as_near(pool, near, measure, measure(dropped), third));
    if tracks.no_duplicates() {
        assert(all.no_duplicates()) by {
            assert forall|i: int, j: int|
                0 <= i < all.len() && 0 <= j < all.len() && i != j implies all[i] != all[j] by {
                assert(tracks[i] != tracks[j]);
            }
        }
        all.lemma_multiset_has_no_duplicates();
        sorted.lemma_multiset_has_no_duplicates_conv();
        assert(near.no_duplicates()) by {
            assert forall|i: int, j: int|
                0 <= i < near.len() && 0 <= j < near.len() && i != j implies near[i] != near[j] by {
                assert(sorted[i].0 == measure(sorted[i].1));
                assert(sorted[j].0 == measure(sorted[j].1));
                assert(sorted[i] != sorted[j]);
            }
        }
    }
    assert(near.len() == third);
}

// How a path sounds.

/// The distances between the first `count` neighbors of a path, summed.
pub open spec fn steps_summed(
    distance: spec_fn(usize, usize) -> u64,
    path: Seq<usize>,
    count: int,
) -> int
    decreases count,
{
    if count <= 0 {
        0
    } else {
        distance(path[count - 1], path[count]) + steps_summed(distance, path, count - 1)
    }
}

proof fn lemma_edges(
    reference: Seq<u64>,
    distance: spec_fn(usize, usize) -> u64,
    path: Seq<usize>,
    count: int,
)
    requires
        0 <= count,
        edges_upto(reference, distance, path, count) is Ok,
    ensures
        ({
            let edges = edges_upto(reference, distance, path, count)->Ok_0;
            &&& edges.len() == count
            &&& forall|i: int|
                0 <= i < count ==> {
                    &&& (#[trigger] edges[i]).from == path[i]
                    &&& edges[i].to == path[i + 1]
                    &&& edges[i].distance == distance(path[i], path[i + 1])
                    &&& percentile_of(reference, edges[i].distance) == Ok::<
                        u64,
                        BridgeError,
                    >(edges[i].percentile)
                }
        }),
    decreases count,
{
    if count > 0 {
        lemma_edges(reference, distance, path, count - 1);
    }
}

proof fn lemma_totals(
    distance: spec_fn(usize, usize) -> u64,
    path: Seq<usize>,
    edges: Seq<PathEdge>,
    count: int,
)
    requires
        0 <= count <= edges.len(),
        forall|i: int|
            0 <= i < count ==> (#[trigger] edges[i]).distance == distance(path[i], path[i + 1]),
    ensures
        edge_sum(edges, count) == steps_summed(distance, path, count),
        forall|i: int|
            0 <= i < count ==> (#[trigger] edges[i]).distance <= edge_bottleneck(edges, count)
                && edges[i].percentile <= edge_percentile(edges, count),
        count > 0 ==> exists|i: int|
            0 <= i < count && (#[trigger] edges[i]).distance == edge_bottleneck(edges, count),
        count > 0 ==> exists|i: int|
            0 <= i < count && (#[trigger] edges[i]).percentile == edge_percentile(edges, count),
    decreases count,
{
    if count > 0 {
        lemma_totals(distance, path, edges, count - 1);
        let last = edges[count - 1];
        if last.distance < edge_bottleneck(edges, count - 1) {
            let i = choose|i: int|
                0 <= i < count - 1 && (#[trigger] edges[i]).distance == edge_bottleneck(
                    edges,
                    count - 1,
                );
            assert(edges[i].distance == edge_bottleneck(edges, count));
        } else {
            assert(edges[count - 1].distance == edge_bottleneck(edges, count));
        }
        if last.percentile < edge_percentile(edges, count - 1) {
            let i = choose|i: int|
                0 <= i < count - 1 && (#[trigger] edges[i]).percentile == edge_percentile(
                    edges,
                    count - 1,
                );
            assert(edges[i].percentile == edge_percentile(edges, count));
        } else {
            assert(edges[count - 1].percentile == edge_percentile(edges, count));
        }
    }
}

/// How a path sounds is measured between its neighbors, one after the other: the
/// sum of their distances, the largest of these, and the largest share of the
/// distribution below one of them.
pub proof fn paths_sound_as_their_transitions(
    reference: Seq<u64>,
    distance: spec_fn(usize, usize) -> u64,
    path: Seq<usize>,
)
    requires
        path.len() > 1,
    ensures
        path_quality(reference, distance, path) matches Ok(quality) ==> {
            let edges = quality.edges;
            &&& edges.len() == path.len() - 1
            &&& forall|i: int|
                0 <= i < edges.len() ==> {
                    &&& (#[trigger] edges[i]).from == path[i]
                    &&& edges[i].to == path[i + 1]
                    &&& edges[i].distance == distance(path[i], path[i + 1])
                    &&& percentile_of(reference, edges[i].distance) == Ok::<
                        u64,
                        BridgeError,
                    >(edges[i].percentile)
                    &&& edges[i].distance <= quality.bottleneck
                    &&& edges[i].percentile <= quality.worst_percentile
                }
            &&& quality.sum == steps_summed(distance, path, path.len() - 1)
            &&& exists|i: int|
                0 <= i < edges.len() && (#[trigger] edges[i]).distance == quality.bottleneck
            &&& exists|i: int|
                0 <= i < edges.len() && (#[trigger] edges[i]).percentile
                    == quality.worst_percentile
        },
{
    if let Ok(quality) = path_quality(reference, distance, path) {
        lemma_edges(reference, distance, path, path.len() - 1);
        lemma_totals(distance, path, quality.edges, path.len() - 1);
    }
}

// The route to a destination.

/// Whether a goal allows so many tracks on the way.
pub open spec fn allows(goal: DestinationGoal, added: int) -> bool {
    match goal {
        DestinationGoal::Automatic { min_added_tracks, max_added_tracks, .. } => {
            min_added_tracks <= added && added <= max_added_tracks
        },
        DestinationGoal::Exact { added_tracks } => added == added_tracks,
    }
}

/// Whether a goal asks for nothing better than a share for the worst transition.
pub open spec fn is_content(goal: DestinationGoal, worst: int) -> bool {
    match goal {
        DestinationGoal::Automatic { trigger_percentile, .. } => worst <= trigger_percentile,
        DestinationGoal::Exact { .. } => true,
    }
}

/// The route to a destination is of a length that the goal allows. Where some
/// route of such a length has no transition above the asked share, the chosen
/// one has none either and adds no more tracks than that one. Otherwise none of
/// such a length has a smaller worst transition, and none with an equal one a
/// smaller sum. One is chosen wherever a length is allowed.
pub proof fn the_chosen_route_is_short_or_sounds_best(
    goal: DestinationGoal,
    options: Seq<DestinationRouteOptionView>,
    qualities: Seq<PathQualityView>,
    other: int,
)
    requires
        qualities.len() == options.len(),
        0 <= other < options.len(),
        allows(goal, options[other].added_track_count as int),
    ensures
        chosen_route(goal, options, qualities) matches Some(at) && {
            let content = is_content(goal, qualities[at].worst_percentile as int);
            &&& 0 <= at < options.len()
            &&& allows(goal, options[at].added_track_count as int)
            &&& is_content(goal, qualities[other].worst_percentile as int) ==> content
                && options[at].added_track_count <= options[other].added_track_count
            &&& !content ==> options[at].adjacent_worst_transition
                <= options[other].adjacent_worst_transition
            &&& !content && options[at].adjacent_worst_transition
                == options[other].adjacent_worst_transition ==> options[at].adjacent_transition_sum
                <= options[other].adjacent_transition_sum
        },
{
    the_shortest_good_route_or_the_best_is_chosen(goal, options, qualities);
    assert(is_permitted(goal, options[other]));
}

/// A route is chosen only where the goal allows the length of one.
pub proof fn nothing_is_chosen_that_the_goal_rules_out(
    goal: DestinationGoal,
    options: Seq<DestinationRouteOptionView>,
    qualities: Seq<PathQualityView>,
)
    requires
        qualities.len() == options.len(),
        forall|i: int|
            0 <= i < options.len() ==> !allows(
                goal,
                (#[trigger] options[i]).added_track_count as int,
            ),
    ensures
        chosen_route(goal, options, qualities) is None,
{
    the_shortest_good_route_or_the_best_is_chosen(goal, options, qualities);
}

// Routes through a waypoint.

/// Whether a route has no larger worst transition than another, and no larger
/// sum where these are equal.
pub open spec fn rides_no_worse(
    a: DestinationRouteOptionView,
    b: DestinationRouteOptionView,
) -> bool {
    &&& a.adjacent_worst_transition <= b.adjacent_worst_transition
    &&& a.adjacent_worst_transition == b.adjacent_worst_transition ==> a.adjacent_transition_sum
        <= b.adjacent_transition_sum
}

proof fn lemma_best_with(options: Seq<DestinationRouteOptionView>, total: int, count: int)
    requires
        0 <= count <= options.len(),
    ensures
        match best_with(options, total, count) {
            Some(at) => {
                &&& 0 <= at < count
                &&& options[at].added_track_count == total
                &&& forall|i: int|
                    0 <= i < count && (#[trigger] options[i]).added_track_count == total
                        ==> rides_no_worse(options[at], options[i])
            },
            None => forall|i: int|
                0 <= i < count ==> (#[trigger] options[i]).added_track_count != total,
        },
    decreases count,
{
    if count > 0 {
        lemma_best_with(options, total, count - 1);
    }
}

proof fn lemma_best_routes(options: Seq<DestinationRouteOptionView>, count: int, other: int)
    requires
        0 <= count,
        0 <= other < options.len(),
    ensures
        forall|i: int|
            0 <= i < best_routes(options, count).len() ==> options.contains(
                #[trigger] best_routes(options, count)[i],
            ) && best_routes(options, count)[i].added_track_count < count,
        forall|i: int|
            0 <= i < best_routes(options, count).len() && (#[trigger] best_routes(
                options,
                count,
            )[i]).added_track_count == options[other].added_track_count ==> rides_no_worse(
                best_routes(options, count)[i],
                options[other],
            ),
        forall|i: int, j: int|
            0 <= i < j < best_routes(options, count).len() ==> (#[trigger] best_routes(
                options,
                count,
            )[i]).added_track_count < (#[trigger] best_routes(options, count)[j]).added_track_count,
        options[other].added_track_count < count ==> exists|i: int|
            0 <= i < best_routes(options, count).len() && (#[trigger] best_routes(
                options,
                count,
            )[i]).added_track_count == options[other].added_track_count,
    decreases count,
{
    if count > 0 {
        lemma_best_routes(options, count - 1, other);
        lemma_best_with(options, count - 1, options.len() as int);
        let before = best_routes(options, count - 1);
        let after = best_routes(options, count);
        if let Some(at) = best_with(options, count - 1, options.len() as int) {
            assert(after == before.push(options[at]));
            assert(options.contains(options[at]));
            assert forall|i: int| 0 <= i < after.len() implies options.contains(
                #[trigger] after[i],
            ) && after[i].added_track_count < count by {
                if i < before.len() {
                    assert(after[i] == before[i]);
                }
            }
            assert forall|i: int|
                0 <= i < after.len() && (#[trigger] after[i]).added_track_count
                    == options[other].added_track_count implies rides_no_worse(
                after[i],
                options[other],
            ) by {
                if i < before.len() {
                    assert(after[i] == before[i]);
                }
            }
            assert forall|i: int, j: int| 0 <= i < j < after.len() implies (
            #[trigger] after[i]).added_track_count < (#[trigger] after[j]).added_track_count by {
                assert(after[i] == before[i]);
                if j < before.len() {
                    assert(after[j] == before[j]);
                }
            }
            if options[other].added_track_count == count - 1 {
                assert(after[after.len() - 1].added_track_count == options[other].added_track_count);
            } else if options[other].added_track_count < count {
                let i = choose|i: int|
                    0 <= i < before.len() && (#[trigger] before[i]).added_track_count
                        == options[other].added_track_count;
                assert(after[i] == before[i]);
            }
        } else {
            assert(after == before);
            assert(options[other].added_track_count != count - 1);
        }
    }
}

/// Of the routes through a waypoint one is kept for each number of added tracks,
/// the fewest first, and of those with as many tracks none has a smaller worst
/// transition, and none with an equal one a smaller sum.
pub proof fn excursions_are_the_best_of_their_length(
    model: DestinationModel,
    original: Seq<usize>,
    gaps: Seq<AutomaticGapView>,
    max_added: usize,
    other: int,
)
    requires
        model.excursions(original, gaps, max_added) is Ok,
        ({
            let outward = model.leg(original.drop_last(), gaps[0], max_added)->Ok_0;
            let all = model.excursions_from(original, gaps, max_added, outward, 0, seq![])->Ok_0;
            0 <= other < all.len()
        }),
    ensures
        ({
            let outward = model.leg(original.drop_last(), gaps[0], max_added)->Ok_0;
            let all = model.excursions_from(original, gaps, max_added, outward, 0, seq![])->Ok_0;
            let kept = model.excursions(original, gaps, max_added)->Ok_0;
            &&& forall|i: int| 0 <= i < kept.len() ==> all.contains(#[trigger] kept[i])
            &&& forall|i: int, j: int|
                0 <= i < j < kept.len() ==> (#[trigger] kept[i]).added_track_count < (
                #[trigger] kept[j]).added_track_count
            &&& all[other].added_track_count <= max_added ==> exists|i: int|
                0 <= i < kept.len() && (#[trigger] kept[i]).added_track_count
                    == all[other].added_track_count
            &&& forall|i: int|
                0 <= i < kept.len() && (#[trigger] kept[i]).added_track_count
                    == all[other].added_track_count ==> rides_no_worse(kept[i], all[other])
        }),
{
    let outward = model.leg(original.drop_last(), gaps[0], max_added)->Ok_0;
    let all = model.excursions_from(original, gaps, max_added, outward, 0, seq![])->Ok_0;
    lemma_best_routes(all, max_added + 1, other);
}

/// The distances between the neighbours of a route from one place to another,
/// summed.
pub open spec fn walked_from(
    distance: spec_fn(usize, usize) -> u64,
    route: Seq<usize>,
    at: int,
    end: int,
) -> int
    decreases end - at,
{
    if at >= end {
        0
    } else {
        distance(route[at], route[at + 1]) + walked_from(distance, route, at + 1, end)
    }
}

proof fn lemma_walked(
    distance: spec_fn(usize, usize) -> u64,
    route: Seq<usize>,
    at: int,
    end: int,
    sum: nat,
    worst: nat,
)
    ensures
        ({
            let (total, largest) = walk_between(distance, route, at, end, sum, worst);
            &&& total == sum + walked_from(distance, route, at, end)
            &&& worst <= largest
            &&& forall|i: int|
                at <= i < end ==> #[trigger] distance(route[i], route[i + 1]) <= largest
            &&& largest == worst || exists|i: int|
                at <= i < end && #[trigger] distance(route[i], route[i + 1]) == largest
        }),
    decreases end - at,
{
    if at < end {
        let step = distance(route[at], route[at + 1]) as nat;
        let next = if worst >= step {
            worst
        } else {
            step
        };
        lemma_walked(distance, route, at + 1, end, sum + step, next);
    }
}

/// A way out and back is measured between its neighbours: by the sum of their
/// distances and the largest of them.
pub proof fn ways_are_measured_between_neighbours(
    distance: spec_fn(usize, usize) -> u64,
    route: Seq<usize>,
    at: int,
    end: int,
)
    requires
        at < end,
    ensures
        ({
            let (total, largest) = walk_between(distance, route, at, end, 0, 0);
            &&& total == walked_from(distance, route, at, end)
            &&& forall|i: int|
                at <= i < end ==> #[trigger] distance(route[i], route[i + 1]) <= largest
            &&& exists|i: int|
                at <= i < end && #[trigger] distance(route[i], route[i + 1]) == largest
        }),
{
    lemma_walked(distance, route, at, end, 0, 0);
    let largest = walk_between(distance, route, at, end, 0, 0).1;
    if largest == 0 {
        assert(distance(route[at], route[at + 1]) <= largest);
    }
}

/// The distance into a track of a path.
pub open spec fn step_into(model: PathModel, intermediates: Seq<usize>, at: int) -> int {
    (model.distance)(model.before(intermediates, at), intermediates[at]) as int
}

proof fn lemma_worst_grows(model: PathModel, intermediates: Seq<usize>, count: int)
    requires
        0 < count,
    ensures
        ({
            let before = model.walk_worst(intermediates, count - 1) as int;
            let after = model.walk_worst(intermediates, count) as int;
            let step = step_into(model, intermediates, count - 1);
            &&& before <= after
            &&& step <= after
            &&& after == before || after == step
            &&& count == 1 ==> after == step
        }),
{
}

/// The worst transition of a path is the largest of its distances.
pub proof fn worst_transitions_are_the_largest(
    model: PathModel,
    intermediates: Seq<usize>,
    count: int,
)
    requires
        0 < count <= intermediates.len(),
    ensures
        forall|i: int|
            0 <= i < count ==> #[trigger] step_into(model, intermediates, i) <= model.walk_worst(
                intermediates,
                count,
            ),
        exists|i: int|
            0 <= i < count && #[trigger] step_into(model, intermediates, i) == model.walk_worst(
                intermediates,
                count,
            ),
    decreases count,
{
    lemma_worst_grows(model, intermediates, count);
    let after = model.walk_worst(intermediates, count) as int;
    let step = step_into(model, intermediates, count - 1);
    if count > 1 {
        worst_transitions_are_the_largest(model, intermediates, count - 1);
        if after != step {
            let i = choose|i: int|
                0 <= i < count - 1 && #[trigger] step_into(model, intermediates, i)
                    == model.walk_worst(intermediates, count - 1);
            assert(step_into(model, intermediates, i) == after);
        }
    }
}

// Paths through a gap.

/// In the middle of a gap a state is given up only where another with the same
/// route is kept that scores no more, or where as many are kept as the beam is
/// wide and none of them scores more.
pub proof fn gaps_give_up_only_what_scores_no_less(
    model: ExactModel,
    states: Seq<PathState>,
    at: int,
)
    requires
        0 <= at < states.len(),
    ensures
        ({
            let kept = model.narrowed(states);
            ||| exists|i: int|
                0 <= i < kept.len() && (#[trigger] kept[i]).route == states[at].route
                    && kept[i].objective <= states[at].objective
            ||| kept.len() == model.config.beam_width && forall|i: int|
                0 <= i < kept.len() ==> (#[trigger] kept[i]).objective <= states[at].objective
        }),
{
    let leq = best_path_first();
    let same = same_state_route::<GapPathView>();
    lemma_path_ranking();
    assert(states.contains(states[at]));
    assert forall|x: PathState| #[trigger] same(x, x) by {}
    let width = model.config.beam_width as int;
    sifting_drops_the_last(states, leq, same, width, states[at]);
    let kept = model.narrowed(states);
    if exists|i: int|
        0 <= i < kept.len() && same(states[at], #[trigger] kept[i]) && leq(kept[i], states[at]) {
        let i = choose|i: int|
            0 <= i < kept.len() && same(states[at], #[trigger] kept[i]) && leq(
                kept[i],
                states[at],
            );
        assert(kept[i].route == states[at].route && kept[i].objective <= states[at].objective);
    } else {
        assert forall|i: int| 0 <= i < kept.len() implies (#[trigger] kept[i]).objective
            <= states[at].objective by {
            assert(leq(kept[i], states[at]));
        }
    }
}

} // verus!
