//! What every route to a destination keeps.

use crate::anchored_path::{AnchoredPathOptionView, PathModel};
use crate::anchored_path_laws::{every_option_keeps_its_promises, keeps_promises};
use crate::bridge::{windows_safe_at, BridgeError, BridgeModel, GapContextMode};
use crate::contextual::{context_prepared, ContextMatrixView};
use crate::destination::{
    anchors_in_order, best_routes, best_with, extends_last, DestinationModel,
    DestinationRouteOptionView,
};
use crate::destination_report::{
    edge_bottleneck, edge_sum, edges_upto, lemma_edge_totals_push, path_quality, requested_path,
};
use crate::exact_multi::{
    candidate_decision, candidate_decisions_from, final_decisions_from, gap_decisions,
};
use crate::preview::{
    evolving_ranked, first_entry, lemma_evolving_members, lemma_first_entry, numbers_of,
    AutomaticGapView, EvolvingAcceptance, GapDecisionView, Guidance, PreviewErrorView,
    MAX_EXACT_TRACKS_PER_GAP,
};
use crate::route::recent;
use crate::selection_laws::{final_decisions_are_sound, kept_in_order, places_fit, sound_decisions};
use crate::sequences::{
    in_range, lemma_first_outside, lemma_position_from, lemma_position_of_member, position,
};
use vstd::prelude::*;

verus! {

/// Whether a route keeps all tracks of the original in their order, counts what
/// it adds, stays within the budget, and decides soundly.
pub open spec fn sound_route(
    model: DestinationModel,
    original: Seq<usize>,
    max_added: int,
    option: DestinationRouteOptionView,
) -> bool {
    &&& option.selection.final_route matches Some(route) && route.len() == original.len()
        + option.added_track_count && kept_in_order(original, route)
    &&& option.added_track_count <= max_added
    &&& option.selection.requested_added_tracks == option.added_track_count
    &&& sound_decisions(model.bridge, option.selection.decisions)
}

proof fn lemma_extension_is_kept(
    original: Seq<usize>,
    gap: AutomaticGapView,
    max_added: int,
    option: DestinationRouteOptionView,
)
    requires
        original.len() >= 1,
        extends_last(original, gap, max_added, option),
    ensures
        kept_in_order(original, option.selection.final_route->Some_0),
{
    let route = option.selection.final_route->Some_0;
    let prefix = original.len() - 1;
    let places = Seq::new(
        original.len(),
        |i: int|
            if i < prefix {
                i
            } else {
                route.len() - 1
            },
    );
    assert forall|i: int| 0 <= i < places.len() implies 0 <= #[trigger] places[i] < route.len()
        && route[places[i]] == original[i] by {
        if i < prefix {
            assert(route.take(prefix)[i] == original.drop_last()[i]);
        }
    }
    assert(places_fit(original, route, places));
}

proof fn lemma_leg_options_decide_soundly(
    model: DestinationModel,
    gap: AutomaticGapView,
    max_added: usize,
    paths: Seq<AnchoredPathOptionView>,
    at: int,
    done: Seq<DestinationRouteOptionView>,
)
    requires
        model.config.variation_percent <= 100,
        0 <= at,
        forall|i: int| 0 <= i < paths.len() ==> (#[trigger] paths[i]).route.len() <= usize::MAX,
        forall|i: int|
            0 <= i < done.len() ==> sound_decisions(
                model.bridge,
                (#[trigger] done[i]).selection.decisions,
            ) && done[i].selection.requested_added_tracks == done[i].added_track_count,
    ensures
        model.leg_options_from(gap, max_added, paths, at, done) matches Ok(options) ==> forall|
            i: int,
        |
            0 <= i < options.len() ==> sound_decisions(
                model.bridge,
                (#[trigger] options[i]).selection.decisions,
            ) && options[i].selection.requested_added_tracks == options[i].added_track_count,
    decreases paths.len() - at,
{
    if at < paths.len() {
        final_decisions_are_sound(
            model.bridge,
            model.config.guide(),
            paths[at].route,
            seq![gap],
            seq![paths[at].intermediates],
        );
        if let Ok(option) = model.leg_option(gap, max_added, paths[at]) {
            lemma_leg_options_decide_soundly(
                model,
                gap,
                max_added,
                paths,
                at + 1,
                done.push(option),
            );
        }
    }
}

proof fn lemma_leg_options_distinct(
    model: DestinationModel,
    gap: AutomaticGapView,
    max_added: usize,
    paths: Seq<AnchoredPathOptionView>,
    at: int,
    done: Seq<DestinationRouteOptionView>,
)
    requires
        0 <= at,
        forall|i: int| 0 <= i < paths.len() ==> (#[trigger] paths[i]).route.no_duplicates(),
        forall|i: int| 0 <= i < done.len() ==> no_track_twice(#[trigger] done[i]),
    ensures
        model.leg_options_from(gap, max_added, paths, at, done) matches Ok(options) ==> forall|
            i: int,
        |
            0 <= i < options.len() ==> no_track_twice(#[trigger] options[i]),
    decreases paths.len() - at,
{
    if at < paths.len() {
        if let Ok(option) = model.leg_option(gap, max_added, paths[at]) {
            let next = done.push(option);
            assert(paths[at].route.no_duplicates());
            assert forall|i: int| 0 <= i < next.len() implies no_track_twice(
                #[trigger] next[i],
            ) by {
                if i < done.len() {
                    assert(next[i] == done[i]);
                }
            }
            lemma_leg_options_distinct(model, gap, max_added, paths, at + 1, next);
        }
    }
}

/// Whether a route holds no track twice.
pub open spec fn no_track_twice(option: DestinationRouteOptionView) -> bool {
    option.selection.final_route matches Some(route) ==> route.no_duplicates()
}

/// A route to a destination holds no track twice where the tracks before it and
/// the destination hold none twice.
pub proof fn destination_routes_hold_no_track_twice(
    model: DestinationModel,
    original: Seq<usize>,
    gap: AutomaticGapView,
    max_added: usize,
)
    requires
        original.no_duplicates(),
    ensures
        model.leg(original, gap, max_added) matches Ok(options) ==> forall|i: int|
            0 <= i < options.len() ==> no_track_twice(#[trigger] options[i]),
{
    if model.leg_refusal(original, gap, max_added) is None {
        let path_model = model.paths(original, gap, max_added);
        every_option_keeps_its_promises(path_model);
        if let Ok(paths) = path_model.search() {
            assert forall|i: int| 0 <= i < paths.len() implies (
            #[trigger] paths[i]).route.no_duplicates() by {
                let path = paths[i];
                assert(keeps_promises(path_model, path));
                let route = path.route;
                let prefix = original.len() - 1;
                assert forall|a: int, b: int|
                    0 <= a < route.len() && 0 <= b < route.len() && a != b implies route[a]
                    != route[b] by {
                    lemma_place_on_path(path_model, path, original, a);
                    lemma_place_on_path(path_model, path, original, b);
                }
            }
            lemma_leg_options_distinct(model, gap, max_added, paths, 0, seq![]);
        }
    }
}

proof fn lemma_place_on_path(
    path_model: PathModel,
    path: AnchoredPathOptionView,
    original: Seq<usize>,
    at: int,
)
    requires
        keeps_promises(path_model, path),
        path_model.prefix == original.drop_last(),
        path_model.unavailable == original,
        original.len() >= 2,
        path_model.right == original.last(),
        0 <= at < path.route.len(),
    ensures
        path.route.len() == original.len() + path.intermediates.len(),
        at < original.len() - 1 ==> path.route[at] == original[at],
        at == path.route.len() - 1 ==> path.route[at] == original.last(),
        original.len() - 1 <= at < path.route.len() - 1 ==> path.route[at]
            == path.intermediates[at - (original.len() - 1)] && !original.contains(path.route[at]),
{
    let prefix = original.len() - 1;
    if prefix <= at < path.route.len() - 1 {
        assert(path_model.available(path.intermediates[at - prefix]));
    }
}

/// Every route to a destination keeps the original tracks in their order, adds
/// no more than allowed, and rests on sound decisions.
pub proof fn routes_to_a_destination_are_sound(
    model: DestinationModel,
    original: Seq<usize>,
    gap: AutomaticGapView,
    max_added: usize,
)
    requires
        original.len() + MAX_EXACT_TRACKS_PER_GAP <= usize::MAX,
    ensures
        model.leg(original, gap, max_added) matches Ok(options) ==> forall|i: int|
            0 <= i < options.len() ==> sound_route(
                model,
                original,
                max_added as int,
                #[trigger] options[i],
            ),
{
    model.every_leg_extends_the_last_transition(original, gap, max_added);
    if model.leg_refusal(original, gap, max_added) is None {
        let path_model = model.paths(original, gap, max_added);
        every_option_keeps_its_promises(path_model);
        if let Ok(paths) = path_model.search() {
            assert forall|i: int| 0 <= i < paths.len() implies (#[trigger] paths[i]).route.len()
                <= usize::MAX by {
                assert(keeps_promises(path_model, paths[i]));
            }
            assert(path_model.refusal() is None);
            lemma_leg_options_decide_soundly(model, gap, max_added, paths, 0, seq![]);
            if let Ok(options) = model.leg(original, gap, max_added) {
                assert forall|i: int| 0 <= i < options.len() implies sound_route(
                    model,
                    original,
                    max_added as int,
                    #[trigger] options[i],
                ) by {
                    assert(extends_last(original, gap, max_added as int, options[i]));
                    lemma_extension_is_kept(original, gap, max_added as int, options[i]);
                }
            }
        }
    }
}

// Through a waypoint.

/// Whether the waypoint and the rejoin anchor at the end of a route occur
/// nowhere before, and the rejoin anchor is no candidate for the way out.
pub open spec fn anchors_apart(original: Seq<usize>, gaps: Seq<AutomaticGapView>) -> bool {
    let count = original.len() as int;
    count >= 3 && gaps.len() == 2 ==> {
        &&& !original.take(count - 3).contains(original[count - 2])
        &&& !original.take(count - 2).contains(original[count - 1])
        &&& !numbers_of(gaps[0].semantics.candidates).contains(original[count - 1])
    }
}

/// The start, the waypoint and the rejoin anchor follow each other on a
/// route out and back, with only added tracks between them.
proof fn lemma_joined_positions(
    model: DestinationModel,
    original: Seq<usize>,
    gaps: Seq<AutomaticGapView>,
    max_added: usize,
    outward: DestinationRouteOptionView,
    returning: DestinationRouteOptionView,
)
    requires
        model.waypoint_refusal(original, gaps, max_added) is None,
        anchors_apart(original, gaps),
        gaps[0].left != gaps[0].right,
        gaps[1].left != gaps[1].right,
        extends_last(original.drop_last(), gaps[0], max_added as int, outward),
        extends_last(
            outward.selection.final_route->Some_0.push(original.last()),
            gaps[1],
            max_added - outward.added_track_count,
            returning,
        ),
    ensures
        ({
            let count = original.len() as int;
            let route = returning.selection.final_route->Some_0;
            let out = outward.added_track_count as int;
            let back = returning.added_track_count as int;
            &&& route.len() == count + out + back
            &&& out + back <= max_added
            &&& 0 <= position(route, original[count - 3]) <= count - 3
            &&& position(route, original[count - 2]) == count - 2 + out
            &&& position(route, original[count - 1]) == count - 1 + out + back
        }),
{
    let count = original.len() as int;
    let way = outward.selection.final_route->Some_0;
    let route = returning.selection.final_route->Some_0;
    let out = outward.added_track_count as int;
    let back = returning.added_track_count as int;
    let source = original.drop_last();
    let back_source = way.push(original.last());
    let start = original[count - 3];
    let waypoint = original[count - 2];
    let rejoin = original[count - 1];
    assert(back_source.drop_last() =~= way);
    assert(route.take(way.len() as int) == way);
    assert forall|i: int| 0 <= i < way.len() implies #[trigger] route[i] == way[i] by {
        assert(route.take(way.len() as int)[i] == route[i]);
    }
    assert forall|i: int| 0 <= i < count - 2 implies #[trigger] way[i] == original[i] by {
        assert(way.take(count - 2)[i] == source.drop_last()[i]);
    }
    assert(way[way.len() - 1] == waypoint);
    assert(back_source[way.len() as int] == rejoin);
    // The start.
    lemma_position_from(route, start, 0);
    assert(route[count - 3] == start);
    // The waypoint.
    lemma_position_from(route, waypoint, 0);
    assert(route[count - 2 + out] == waypoint);
    assert forall|i: int| 0 <= i < count - 2 + out implies #[trigger] route[i] != waypoint by {
        if i < count - 3 {
            assert(original.take(count - 3)[i] == original[i]);
            assert(route[i] == way[i] && way[i] == original[i]);
        } else if i == count - 3 {
            assert(route[i] == start);
        } else {
            assert(route[i] == way[i]);
            assert(!source.contains(way[i]));
            assert(source[count - 2] == waypoint);
        }
    }
    // The rejoin anchor.
    lemma_position_from(route, rejoin, 0);
    assert(route[count - 1 + out + back] == rejoin);
    assert forall|i: int| 0 <= i < count - 1 + out + back implies #[trigger] route[i]
        != rejoin by {
        if i < count - 2 {
            assert(original.take(count - 2)[i] == original[i]);
            assert(route[i] == way[i] && way[i] == original[i]);
        } else if i < count - 2 + out {
            assert(route[i] == way[i]);
            assert(numbers_of(gaps[0].semantics.candidates).contains(way[i]));
        } else if i == count - 2 + out {
            assert(route[i] == waypoint);
        } else {
            assert(!back_source.contains(route[i]));
        }
    }
}

/// Where the waypoint and the rejoin anchor are nowhere else on the original
/// route, and the rejoin anchor is no candidate for the way out, every route out
/// and back meets the anchors in order.
pub proof fn distinct_anchors_are_met_in_order(
    model: DestinationModel,
    original: Seq<usize>,
    gaps: Seq<AutomaticGapView>,
    max_added: usize,
)
    requires
        anchors_apart(original, gaps),
    ensures
        model.excursions_in_order(original, gaps, max_added),
{
    if model.waypoint_refusal(original, gaps, max_added) is None {
        let source = original.drop_last();
        if let Ok(outward) = model.leg(source, gaps[0], max_added) {
            model.every_leg_extends_the_last_transition(source, gaps[0], max_added);
            model.lemma_leg_anchors_differ(source, gaps[0], max_added);
            assert forall|i: int| 0 <= i < outward.len() implies model.returns_in_order(
                original,
                gaps,
                max_added,
                #[trigger] outward[i],
            ) by {
                let way = outward[i].selection.final_route->Some_0.push(original.last());
                let remaining = (max_added - outward[i].added_track_count) as usize;
                assert(extends_last(source, gaps[0], max_added as int, outward[i]));
                if let Ok(returning) = model.ways_back(original, gaps, max_added, outward[i]) {
                    model.every_leg_extends_the_last_transition(way, gaps[1], remaining);
                    model.lemma_leg_anchors_differ(way, gaps[1], remaining);
                    assert forall|j: int| 0 <= j < returning.len() implies anchors_in_order(
                        original,
                        (#[trigger] returning[j]).selection.final_route->Some_0,
                    ) by {
                        lemma_joined_positions(
                            model,
                            original,
                            gaps,
                            max_added,
                            outward[i],
                            returning[j],
                        );
                    }
                }
            }
        }
    }
}

proof fn lemma_joined_is_sound(
    model: DestinationModel,
    original: Seq<usize>,
    gaps: Seq<AutomaticGapView>,
    max_added: usize,
    outward: DestinationRouteOptionView,
    returning: DestinationRouteOptionView,
)
    requires
        model.config.variation_percent <= 100,
        original.len() + MAX_EXACT_TRACKS_PER_GAP <= usize::MAX,
        model.waypoint_refusal(original, gaps, max_added) is None,
        extends_last(original.drop_last(), gaps[0], max_added as int, outward),
        extends_last(
            outward.selection.final_route->Some_0.push(original.last()),
            gaps[1],
            max_added - outward.added_track_count,
            returning,
        ),
    ensures
        model.joined(original, gaps, max_added, outward, returning) matches Ok(option)
            ==> sound_route(model, original, max_added as int, option),
{
    let count = original.len() as int;
    let way = outward.selection.final_route->Some_0;
    let route = returning.selection.final_route->Some_0;
    let out = outward.added_track_count as int;
    let back = returning.added_track_count as int;
    let start = position(route, original[count - 3]);
    let waypoint = position(route, original[count - 2]);
    let rejoin = position(route, original[count - 1]);
    let places = Seq::new(
        original.len(),
        |i: int|
            if i < count - 2 {
                i
            } else if i == count - 2 {
                count - 2 + out
            } else {
                count - 1 + out + back
            },
    );
    assert(way.push(original.last()).drop_last() =~= way);
    assert forall|i: int| 0 <= i < places.len() implies 0 <= #[trigger] places[i] < route.len()
        && route[places[i]] == original[i] by {
        if i < count - 2 {
            assert(route.take(way.len() as int)[i] == way[i]);
            assert(way.take(count - 2)[i] == original.drop_last().drop_last()[i]);
        } else if i == count - 2 {
            assert(route.take(way.len() as int)[i + out] == way[i + out]);
        }
    }
    assert(places_fit(original, route, places));
    final_decisions_are_sound(
        model.bridge,
        model.config.guide(),
        route,
        gaps,
        seq![route.subrange(start + 1, waypoint), route.subrange(waypoint + 1, rejoin)],
    );
}

/// Whether every route is sound.
pub open spec fn sound_routes(
    model: DestinationModel,
    original: Seq<usize>,
    max_added: int,
    options: Seq<DestinationRouteOptionView>,
) -> bool {
    forall|i: int|
        0 <= i < options.len() ==> sound_route(model, original, max_added, #[trigger] options[i])
}

proof fn lemma_joined_from_is_sound(
    model: DestinationModel,
    original: Seq<usize>,
    gaps: Seq<AutomaticGapView>,
    max_added: usize,
    outward: DestinationRouteOptionView,
    returning: Seq<DestinationRouteOptionView>,
    at: int,
    done: Seq<DestinationRouteOptionView>,
)
    requires
        model.config.variation_percent <= 100,
        original.len() + MAX_EXACT_TRACKS_PER_GAP <= usize::MAX,
        model.waypoint_refusal(original, gaps, max_added) is None,
        extends_last(original.drop_last(), gaps[0], max_added as int, outward),
        forall|i: int|
            0 <= i < returning.len() ==> extends_last(
                outward.selection.final_route->Some_0.push(original.last()),
                gaps[1],
                max_added - outward.added_track_count,
                #[trigger] returning[i],
            ),
        0 <= at,
        sound_routes(model, original, max_added as int, done),
    ensures
        model.joined_from(original, gaps, max_added, outward, returning, at, done) matches Ok(
            options,
        ) ==> sound_routes(model, original, max_added as int, options),
    decreases returning.len() - at,
{
    if at < returning.len() {
        lemma_joined_is_sound(model, original, gaps, max_added, outward, returning[at]);
        if let Ok(option) = model.joined(original, gaps, max_added, outward, returning[at]) {
            lemma_joined_from_is_sound(
                model,
                original,
                gaps,
                max_added,
                outward,
                returning,
                at + 1,
                done.push(option),
            );
        }
    }
}

proof fn lemma_excursions_from_are_sound(
    model: DestinationModel,
    original: Seq<usize>,
    gaps: Seq<AutomaticGapView>,
    max_added: usize,
    outward: Seq<DestinationRouteOptionView>,
    at: int,
    done: Seq<DestinationRouteOptionView>,
)
    requires
        model.config.variation_percent <= 100,
        original.len() + MAX_EXACT_TRACKS_PER_GAP <= usize::MAX,
        model.waypoint_refusal(original, gaps, max_added) is None,
        forall|i: int|
            0 <= i < outward.len() ==> extends_last(
                original.drop_last(),
                gaps[0],
                max_added as int,
                #[trigger] outward[i],
            ),
        0 <= at,
        sound_routes(model, original, max_added as int, done),
    ensures
        model.excursions_from(original, gaps, max_added, outward, at, done) matches Ok(options)
            ==> sound_routes(model, original, max_added as int, options),
    decreases outward.len() - at,
{
    if at < outward.len() {
        let source = outward[at].selection.final_route->Some_0.push(original.last());
        let remaining = (max_added - outward[at].added_track_count) as usize;
        assert(extends_last(original.drop_last(), gaps[0], max_added as int, outward[at]));
        if let Ok(returning) = model.ways_back(original, gaps, max_added, outward[at]) {
            model.every_leg_extends_the_last_transition(source, gaps[1], remaining);
            lemma_joined_from_is_sound(
                model,
                original,
                gaps,
                max_added,
                outward[at],
                returning,
                0,
                done,
            );
            if let Ok(joined) = model.joined_from(
                original,
                gaps,
                max_added,
                outward[at],
                returning,
                0,
                done,
            ) {
                lemma_excursions_from_are_sound(
                    model,
                    original,
                    gaps,
                    max_added,
                    outward,
                    at + 1,
                    joined,
                );
            }
        }
    }
}

proof fn lemma_best_with(options: Seq<DestinationRouteOptionView>, total: int, count: int)
    requires
        0 <= count <= options.len(),
    ensures
        best_with(options, total, count) matches Some(at) ==> 0 <= at < count
            && options[at].added_track_count == total,
    decreases count,
{
    if count > 0 {
        lemma_best_with(options, total, count - 1);
    }
}

/// Whether there is at most one route for each number of added tracks, the
/// smaller numbers first.
pub open spec fn one_for_each_count(options: Seq<DestinationRouteOptionView>) -> bool {
    forall|i: int, j: int|
        0 <= i < j < options.len() ==> (#[trigger] options[i]).added_track_count < (
        #[trigger] options[j]).added_track_count
}

proof fn lemma_best_routes(
    model: DestinationModel,
    original: Seq<usize>,
    max_added: int,
    options: Seq<DestinationRouteOptionView>,
    count: int,
)
    requires
        sound_routes(model, original, max_added, options),
    ensures
        sound_routes(model, original, max_added, best_routes(options, count)),
        one_for_each_count(best_routes(options, count)),
        forall|i: int|
            0 <= i < best_routes(options, count).len() ==> (
            #[trigger] best_routes(options, count)[i]).added_track_count < count,
    decreases count,
{
    if count > 0 {
        lemma_best_routes(model, original, max_added, options, count - 1);
        lemma_best_with(options, count - 1, options.len() as int);
        let before = best_routes(options, count - 1);
        let after = best_routes(options, count);
        if let Some(at) = best_with(options, count - 1, options.len() as int) {
            assert(after =~= before.push(options[at]));
            assert(sound_route(model, original, max_added, options[at]));
            assert forall|i: int| 0 <= i < after.len() implies sound_route(
                model,
                original,
                max_added,
                #[trigger] after[i],
            ) && after[i].added_track_count < count by {
                if i < before.len() {
                    assert(after[i] == before[i]);
                }
            }
            assert forall|i: int, j: int| 0 <= i < j < after.len() implies (
            #[trigger] after[i]).added_track_count < (#[trigger] after[j]).added_track_count by {
                assert(after[i] == before[i]);
                if j < before.len() {
                    assert(after[j] == before[j]);
                }
            }
        }
    }
}

/// Every excursion keeps the original tracks in their order, the start, the
/// waypoint and the rejoin anchor among them, shares one budget between its two
/// legs, and rests on sound decisions. There is at most one for each number of
/// added tracks.
pub proof fn excursions_are_sound(
    model: DestinationModel,
    original: Seq<usize>,
    gaps: Seq<AutomaticGapView>,
    max_added: usize,
)
    requires
        original.len() + MAX_EXACT_TRACKS_PER_GAP <= usize::MAX,
    ensures
        model.excursions(original, gaps, max_added) matches Ok(options) ==> sound_routes(
            model,
            original,
            max_added as int,
            options,
        ) && one_for_each_count(options),
{
    if model.waypoint_refusal(original, gaps, max_added) is None {
        let source = original.drop_last();
        if let Ok(outward) = model.leg(source, gaps[0], max_added) {
            model.every_leg_extends_the_last_transition(source, gaps[0], max_added);
            model.lemma_leg_anchors_differ(source, gaps[0], max_added);
            lemma_excursions_from_are_sound(
                model,
                original,
                gaps,
                max_added,
                outward,
                0,
                seq![],
            );
            if let Ok(options) = model.excursions_from(
                original,
                gaps,
                max_added,
                outward,
                0,
                seq![],
            ) {
                lemma_best_routes(model, original, max_added as int, options, max_added + 1);
            }
        }
    }
}

// How the routes sound.

/// Whether a route is a path that keeps its promises, with its sum and its worst
/// transition.
pub open spec fn is_path(
    paths: PathModel,
    option: DestinationRouteOptionView,
    path: AnchoredPathOptionView,
) -> bool {
    &&& keeps_promises(paths, path)
    &&& option.selection.final_route == Some(path.route)
    &&& option.adjacent_transition_sum == path.transition_sum
    &&& option.adjacent_worst_transition == path.worst_transition
}

/// Whether a route is one of the paths.
pub open spec fn is_some_path(paths: PathModel, option: DestinationRouteOptionView) -> bool {
    exists|path: AnchoredPathOptionView| is_path(paths, option, path)
}

proof fn lemma_options_are_paths(
    model: DestinationModel,
    path_model: PathModel,
    gap: AutomaticGapView,
    max_added: usize,
    paths: Seq<AnchoredPathOptionView>,
    at: int,
    done: Seq<DestinationRouteOptionView>,
)
    requires
        0 <= at,
        forall|i: int| 0 <= i < paths.len() ==> keeps_promises(path_model, #[trigger] paths[i]),
        forall|i: int| 0 <= i < done.len() ==> is_some_path(path_model, #[trigger] done[i]),
    ensures
        model.leg_options_from(gap, max_added, paths, at, done) matches Ok(options) ==> forall|
            i: int,
        |
            0 <= i < options.len() ==> is_some_path(path_model, #[trigger] options[i]),
    decreases paths.len() - at,
{
    if at < paths.len() {
        if let Ok(option) = model.leg_option(gap, max_added, paths[at]) {
            let next = done.push(option);
            assert(is_path(path_model, option, paths[at]));
            assert forall|i: int| 0 <= i < next.len() implies is_some_path(
                path_model,
                #[trigger] next[i],
            ) by {
                if i < done.len() {
                    assert(next[i] == done[i]);
                }
            }
            lemma_options_are_paths(model, path_model, gap, max_added, paths, at + 1, next);
        }
    }
}

/// The transitions of a path that starts at its left anchor are those of its
/// walk.
proof fn lemma_edges_are_the_walk(
    paths: PathModel,
    reference: Seq<u64>,
    path: Seq<usize>,
    walk: Seq<usize>,
    count: int,
)
    requires
        0 <= count <= walk.len(),
        path.len() == walk.len() + 1,
        path[0] == paths.left,
        forall|i: int| 0 <= i < walk.len() ==> #[trigger] walk[i] == path[i + 1],
    ensures
        edges_upto(reference, paths.distance, path, count) matches Ok(edges) ==> {
            &&& edges.len() == count
            &&& edge_sum(edges, count) == paths.walk_sum(walk, count)
            &&& edge_bottleneck(edges, count) as nat == paths.walk_worst(walk, count)
        },
    decreases count,
{
    if count > 0 {
        lemma_edges_are_the_walk(paths, reference, path, walk, count - 1);
        assert(walk[count - 1] == path[count]);
        if count > 1 {
            assert(walk[count - 2] == path[count - 1]);
        }
        if let Ok(before) = edges_upto(reference, paths.distance, path, count - 1) {
            if let Ok(edges) = edges_upto(reference, paths.distance, path, count) {
                lemma_edge_totals_push(before, edges.last(), count - 1);
                assert(edges =~= before.push(edges.last()));
            }
        }
    }
}

/// What is published of how a route to a destination sounds is what it was
/// searched by: the distances between its neighbours from the start to the
/// destination add up to the sum of the search, and the largest of them is its
/// worst transition.
pub proof fn published_quality_is_what_was_searched_by(
    model: DestinationModel,
    original: Seq<usize>,
    gap: AutomaticGapView,
    max_added: usize,
    reference: Seq<u64>,
)
    ensures
        model.leg(original, gap, max_added) matches Ok(options) ==> forall|i: int|
            0 <= i < options.len() ==> (path_quality(
                reference,
                model.distance,
                requested_path(#[trigger] options[i], original.len() - 2),
            ) matches Ok(quality) ==> {
                &&& quality.sum == options[i].adjacent_transition_sum
                &&& quality.bottleneck as nat == options[i].adjacent_worst_transition
            }),
{
    if model.leg_refusal(original, gap, max_added) is None {
        let path_model = model.paths(original, gap, max_added);
        every_option_keeps_its_promises(path_model);
        if let Ok(paths) = path_model.search() {
            lemma_options_are_paths(model, path_model, gap, max_added, paths, 0, seq![]);
            if let Ok(options) = model.leg(original, gap, max_added) {
                let before = original.len() - 2;
                assert forall|i: int| 0 <= i < options.len() implies (path_quality(
                    reference,
                    model.distance,
                    requested_path(#[trigger] options[i], before),
                ) matches Ok(quality) ==> {
                    &&& quality.sum == options[i].adjacent_transition_sum
                    &&& quality.bottleneck as nat == options[i].adjacent_worst_transition
                }) by {
                    assert(is_some_path(path_model, options[i]));
                    let path = choose|path: AnchoredPathOptionView|
                        is_path(path_model, options[i], path);
                    let walk = path.intermediates.push(path_model.right);
                    let heard = requested_path(options[i], before);
                    assert(heard =~= seq![gap.left] + walk);
                    assert forall|j: int| 0 <= j < walk.len() implies #[trigger] walk[j]
                        == heard[j + 1] by {}
                    lemma_edges_are_the_walk(
                        path_model,
                        reference,
                        heard,
                        walk,
                        walk.len() as int,
                    );
                }
            }
        }
    }
}

// Every path can be published.

/// Whether every context can be measured and nothing is turned away for how it
/// sounds.
pub open spec fn measures_everything(bridge: BridgeModel) -> bool {
    &&& bridge.reference.len() > 0
    &&& bridge.config.seed_limit >= 1
    &&& bridge.config.max_leg_percentile == u64::MAX
    &&& bridge.config.max_detour_percentile == u64::MAX
    &&& bridge.config.gap_context_mode == GapContextMode::Rolling
    &&& forall|seeds: Seq<usize>|
        seeds.len() > 0 ==> #[trigger] context_prepared(
            bridge.scoring,
            seeds,
            bridge.config.learned_percent,
        ) is Ok
}

proof fn lemma_distance_known(bridge: BridgeModel, prefix: Seq<usize>, track: usize)
    requires
        measures_everything(bridge),
        prefix.len() > 0,
        in_range(prefix, bridge.tracks.len() as int),
        track < bridge.tracks.len(),
    ensures
        bridge.distance(prefix, track, None) is Ok,
        bridge.prepared(prefix) is Ok,
{
    lemma_first_outside(prefix, bridge.tracks.len() as int, 0);
    let seeds = recent(prefix, bridge.config.seed_limit);
    assert(seeds.len() > 0);
    assert(context_prepared(bridge.scoring, seeds, bridge.config.learned_percent) is Ok);
}

/// A track that repeats nothing where it stands is accepted there.
proof fn lemma_accepted_where_it_stands(
    bridge: BridgeModel,
    route: Seq<usize>,
    at: int,
)
    requires
        measures_everything(bridge),
        in_range(route, bridge.tracks.len() as int),
        route.no_duplicates(),
        0 < at < route.len() - 1,
        windows_safe_at(
            route,
            bridge.tracks,
            at,
            bridge.config.artist_window,
            bridge.config.album_window,
        ),
    ensures
        bridge.evaluation(route.remove(at), at, route[at], None) matches Ok(evaluation)
            && evaluation.accepted,
        bridge.ranked(route.remove(at), at, seq![route[at]], None) is Ok,
{
    let without = route.remove(at);
    let candidate = route[at];
    let count = bridge.tracks.len() as int;
    assert(in_range(without, count)) by {
        assert forall|i: int| 0 <= i < without.len() implies #[trigger] without[i] < count by {
            if i < at {
                assert(without[i] == route[i]);
            } else {
                assert(without[i] == route[i + 1]);
            }
        }
    }
    lemma_first_outside(without, count, 0);
    let before = without.take(at);
    let behind = before.push(candidate);
    assert(in_range(before, count)) by {
        assert forall|i: int| 0 <= i < before.len() implies #[trigger] before[i] < count by {
            assert(before[i] == without[i]);
        }
    }
    assert(in_range(behind, count)) by {
        assert forall|i: int| 0 <= i < behind.len() implies #[trigger] behind[i] < count by {
            if i < before.len() {
                assert(behind[i] == before[i]);
            }
        }
    }
    assert(route[at] < count);
    assert(without[at] < count);
    lemma_distance_known(bridge, before, candidate);
    lemma_distance_known(bridge, behind, without[at]);
    assert(without.insert(at, candidate) =~= route);
    assert(!without.contains(candidate)) by {
        if without.contains(candidate) {
            let i = choose|i: int| 0 <= i < without.len() && without[i] == candidate;
            if i < at {
                assert(route[i] == route[at]);
            } else {
                assert(route[i + 1] == route[at]);
            }
        }
    }
    assert(bridge.insert_safe(without, at, candidate));
    let alone = seq![candidate];
    assert(in_range(alone, count));
    lemma_first_outside(alone, count, 0);
    let evaluation = bridge.evaluation(without, at, candidate, None)->Ok_0;
    assert(alone[0] == candidate);
    assert(bridge.evaluations_from(without, at, alone, None, 0, seq![])
        == bridge.evaluations_from(without, at, alone, None, 1, seq![].push(evaluation)));
}

/// The decision on a track that repeats nothing where it stands is made.
proof fn lemma_decision_made(
    bridge: BridgeModel,
    guidance: Guidance,
    route: Seq<usize>,
    gap: AutomaticGapView,
    at: int,
)
    requires
        measures_everything(bridge),
        guidance.variation_percent <= 100,
        in_range(route, bridge.tracks.len() as int),
        route.no_duplicates(),
        route.len() <= usize::MAX,
        0 < at < route.len() - 1,
        windows_safe_at(
            route,
            bridge.tracks,
            at,
            bridge.config.artist_window,
            bridge.config.album_window,
        ),
        numbers_of(gap.semantics.candidates).contains(route[at]),
        exists|i: int| 0 <= i < at && route[i] == gap.left,
    ensures
        candidate_decision(bridge, guidance, route, gap, route[at]) is Ok,
{
    reveal(candidate_decision);
    let candidates = gap.semantics.candidates;
    let candidate = route[at];
    lemma_position_of_member(route, candidate);
    lemma_position_from(route, candidate, 0);
    assert(route.contains(route[at]));
    let place = position(route, candidate);
    assert(place == at) by {
        if place != at {
            assert(route[place] == route[at]);
        }
    }
    let k = choose|k: int| 0 <= k < candidates.len() && numbers_of(candidates)[k] == candidate;
    assert(candidates[k].candidate == candidate);
    lemma_first_entry(candidates, candidate, 0);
    let entry = first_entry(candidates, candidate, 0);
    let without = route.remove(at);
    let i = choose|i: int| 0 <= i < at && route[i] == gap.left;
    assert(without[i] == gap.left);
    lemma_position_of_member(without, gap.left);
    assert(without.contains(without[i]));
    let left = position(without, gap.left);
    assert(bridge.gap_matrix(without, left + 1) == Ok::<
        Option<ContextMatrixView>,
        BridgeError,
    >(None));
    lemma_accepted_where_it_stands(bridge, route, at);
    let alone = seq![candidates[entry]];
    assert(numbers_of(alone) =~= seq![candidate]);
    lemma_evolving_members(
        bridge,
        without,
        at as usize,
        alone,
        None,
        guidance,
        EvolvingAcceptance::FullBridge,
    );
    let ranked = evolving_ranked(
        bridge,
        without,
        at as usize,
        alone,
        None,
        guidance,
        EvolvingAcceptance::FullBridge,
    )->Ok_0;
    assert(ranked.len() == 1);
    assert(numbers_of(alone).contains(ranked[0].candidate));
    assert(ranked[0].candidate == candidate);
}

/// What a path over the last transition of a playlist looks like to those who
/// judge its tracks.
spec fn is_publishable(
    bridge: BridgeModel,
    original: Seq<usize>,
    gap: AutomaticGapView,
    path: AnchoredPathOptionView,
) -> bool {
    let route = path.route;
    let prefix = original.len() - 1;
    &&& original.len() >= 2
    &&& route.len() == original.len() + path.intermediates.len()
    &&& route.len() <= usize::MAX
    &&& route.no_duplicates()
    &&& in_range(route, bridge.tracks.len() as int)
    &&& route[prefix - 1] == gap.left
    &&& route.last() == gap.right
    &&& forall|i: int|
        0 <= i < path.intermediates.len() ==> #[trigger] path.intermediates[i] == route[prefix + i]
            && numbers_of(gap.semantics.candidates).contains(path.intermediates[i])
            && windows_safe_at(
            route,
            bridge.tracks,
            prefix + i,
            bridge.config.artist_window,
            bridge.config.album_window,
        )
}

proof fn lemma_candidates_decided(
    bridge: BridgeModel,
    guidance: Guidance,
    original: Seq<usize>,
    gap: AutomaticGapView,
    path: AnchoredPathOptionView,
    at: int,
    done: Seq<GapDecisionView>,
)
    requires
        measures_everything(bridge),
        guidance.variation_percent <= 100,
        is_publishable(bridge, original, gap, path),
        0 <= at,
    ensures
        candidate_decisions_from(
            bridge,
            guidance,
            path.route,
            gap,
            path.intermediates,
            at,
            done,
        ) is Ok,
    decreases path.intermediates.len() - at,
{
    if at < path.intermediates.len() {
        let place = original.len() - 1 + at;
        assert(path.intermediates[at] == path.route[place]);
        assert(0 <= original.len() - 2 < place && path.route[original.len() - 2] == gap.left);
        lemma_decision_made(bridge, guidance, path.route, gap, place);
        let decision = candidate_decision(
            bridge,
            guidance,
            path.route,
            gap,
            path.intermediates[at],
        )->Ok_0;
        lemma_candidates_decided(
            bridge,
            guidance,
            original,
            gap,
            path,
            at + 1,
            done.push(decision),
        );
    }
}

proof fn lemma_option_published(
    model: DestinationModel,
    original: Seq<usize>,
    gap: AutomaticGapView,
    max_added: usize,
    path: AnchoredPathOptionView,
)
    requires
        measures_everything(model.bridge),
        model.config.variation_percent <= 100,
        is_publishable(model.bridge, original, gap, path),
    ensures
        model.leg_option(gap, max_added, path) is Ok,
{
    reveal(gap_decisions);
    let gaps = seq![gap];
    let chosen = seq![path.intermediates];
    let guidance = model.config.guide();
    assert(gaps[0] == gap && chosen[0] == path.intermediates);
    if path.intermediates.len() == 0 {
        let route = path.route;
        lemma_position_of_member(route, gap.left);
        lemma_position_of_member(route, gap.right);
        lemma_position_from(route, gap.left, 0);
        lemma_position_from(route, gap.right, 0);
        assert(route.contains(route[original.len() - 2]));
        assert(route.contains(route[route.len() - 1]));
        assert(position(route, gap.left) == original.len() - 2);
        assert(position(route, gap.right) == route.len() - 1);
    } else {
        lemma_candidates_decided(
            model.bridge,
            guidance,
            original,
            gap,
            path,
            0,
            seq![],
        );
    }
    let decisions = gap_decisions(
        model.bridge,
        guidance,
        path.route,
        gap,
        path.intermediates,
        seq![],
    )->Ok_0;
    assert(final_decisions_from(
        model.bridge,
        guidance,
        path.route,
        gaps,
        chosen,
        1,
        decisions,
    ) == Ok::<Seq<GapDecisionView>, PreviewErrorView>(decisions));
}

proof fn lemma_options_published(
    model: DestinationModel,
    original: Seq<usize>,
    gap: AutomaticGapView,
    max_added: usize,
    paths: Seq<AnchoredPathOptionView>,
    at: int,
    done: Seq<DestinationRouteOptionView>,
)
    requires
        measures_everything(model.bridge),
        model.config.variation_percent <= 100,
        0 <= at <= paths.len(),
        forall|i: int|
            0 <= i < paths.len() ==> is_publishable(
                model.bridge,
                original,
                gap,
                #[trigger] paths[i],
            ),
    ensures
        model.leg_options_from(gap, max_added, paths, at, done) is Ok,
        model.leg_options_from(gap, max_added, paths, at, done)->Ok_0.len() == done.len()
            + paths.len() - at,
    decreases paths.len() - at,
{
    if at < paths.len() {
        lemma_option_published(model, original, gap, max_added, paths[at]);
        let option = model.leg_option(gap, max_added, paths[at])->Ok_0;
        lemma_options_published(
            model,
            original,
            gap,
            max_added,
            paths,
            at + 1,
            done.push(option),
        );
    }
}

/// A search for a destination is refused only for what it is given: where every
/// context can be measured and nothing is turned away for how it sounds, every
/// path that it finds is published, and there is always one, the direct way.
pub proof fn every_path_to_a_destination_is_published(
    model: DestinationModel,
    original: Seq<usize>,
    gap: AutomaticGapView,
    max_added: usize,
)
    requires
        measures_everything(model.bridge),
        model.config.variation_percent <= 100,
        model.history.len() == 0,
        original.no_duplicates(),
        original.len() + MAX_EXACT_TRACKS_PER_GAP <= usize::MAX,
        model.leg_refusal(original, gap, max_added) is None,
        model.paths(original, gap, max_added).refusal() is None,
    ensures
        model.leg(original, gap, max_added) is Ok,
        model.leg(original, gap, max_added)->Ok_0.len() > 0,
{
    let path_model = model.paths(original, gap, max_added);
    every_option_keeps_its_promises(path_model);
    let paths = path_model.search()->Ok_0;
    let count = model.bridge.tracks.len() as int;
    lemma_first_outside(original, count, 0);
    lemma_first_outside(path_model.candidate_tracks(), count, 0);
    assert forall|i: int| 0 <= i < paths.len() implies is_publishable(
        model.bridge,
        original,
        gap,
        #[trigger] paths[i],
    ) by {
        let path = paths[i];
        let prefix = original.len() - 1;
        let route = path.route;
        assert(keeps_promises(path_model, path));
        assert((path_model.repeat_prefix() + path.intermediates).push(path_model.right)
            =~= route);
        assert(path_model.repeat_prefix().len() == prefix);
        assert(route.no_duplicates()) by {
            assert forall|a: int, b: int|
                0 <= a < route.len() && 0 <= b < route.len() && a != b implies route[a]
                != route[b] by {
                lemma_place_on_path(path_model, path, original, a);
                lemma_place_on_path(path_model, path, original, b);
            }
        }
        assert forall|k: int| 0 <= k < path.intermediates.len() implies (
        #[trigger] path.intermediates[k]) == route[prefix + k] && numbers_of(
            gap.semantics.candidates,
        ).contains(path.intermediates[k]) && path.intermediates[k] < count && windows_safe_at(
            route,
            model.bridge.tracks,
            prefix + k,
            model.bridge.config.artist_window,
            model.bridge.config.album_window,
        ) by {
            assert(path_model.available(path.intermediates[k]));
            let j = choose|j: int|
                0 <= j < path_model.candidates.len() && (
                #[trigger] path_model.candidates[j]).track == path.intermediates[k];
            assert(numbers_of(gap.semantics.candidates)[j] == path.intermediates[k]);
            assert(path_model.candidate_tracks()[j] == path.intermediates[k]);
            assert(crate::anchored_path::generated_safe_at(
                route,
                prefix + k,
                path_model.tracks,
                path_model.config,
            ));
        }
        assert(in_range(route, count)) by {
            assert forall|a: int| 0 <= a < route.len() implies #[trigger] route[a] < count by {
                lemma_place_on_path(path_model, path, original, a);
                if prefix <= a < route.len() - 1 {
                    assert(path.intermediates[a - prefix] < count);
                } else if a < prefix {
                    assert(original[a] < count);
                } else {
                    assert(original[prefix] < count);
                }
            }
        }
        lemma_place_on_path(path_model, path, original, prefix - 1);
    }
    lemma_options_published(model, original, gap, max_added, paths, 0, seq![]);
}

} // verus!
