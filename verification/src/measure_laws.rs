//! What routes are measured by: their transitions, their repeats and their arc.

use crate::bridge::{BridgeError, BridgeModel, GapContextMode};
use crate::contextual::{context_distance, ContextualError, Scoring};
use crate::preview::{
    frozen_legs_from, search_objective, stretch_at, stretch_matrix, stretches_from, FrozenStretch,
};
use crate::random::leaning_pick;
use crate::route::{
    append_distance, arc_error, arc_error_upto, arc_peak, arc_target, by_intensity, calmest_first,
    feature_before, feature_rank, intensity, legs_from, may_follow, metrics_of, optimized,
    pair_safe, rank_sum, recent, repeat_safe, score_of, seven_tenths, ArcView, RouteMetricsView,
    RouteTrack, ScoredRoute, SearchConfig, SearchModel,
};
use crate::route_laws::search_finds_the_best_attempt;
use crate::sequences::{ascending, position};
use crate::sorting::stable_sort_is_sorted;
use crate::units::UNIT;
use vstd::prelude::*;

verus! {

// Transitions.

/// The distance into position `at` of a route: that of the track there from the
/// `limit` tracks in front of it, or from all of them where there are fewer.
pub open spec fn leg_into(
    scoring: Scoring,
    route: Seq<usize>,
    at: int,
    limit: usize,
    percent: u16,
) -> Result<u64, ContextualError> {
    let first = if at < limit {
        0
    } else {
        at - limit
    };
    context_distance(scoring, route.subrange(first, at), percent, route[at])
}

/// The distances into the positions before `count`, summed.
pub open spec fn legs_summed(
    scoring: Scoring,
    route: Seq<usize>,
    limit: usize,
    percent: u16,
    count: int,
) -> nat
    decreases count,
{
    if count <= 1 {
        0
    } else {
        legs_summed(scoring, route, limit, percent, count - 1) + leg_into(
            scoring,
            route,
            count - 1,
            limit,
            percent,
        )->Ok_0 as nat
    }
}

proof fn lemma_leg_into(scoring: Scoring, route: Seq<usize>, at: int, limit: usize, percent: u16)
    requires
        0 <= at < route.len(),
    ensures
        append_distance(scoring, route.take(at), route[at], limit, percent) == leg_into(
            scoring,
            route,
            at,
            limit,
            percent,
        ),
{
    let first = if at < limit {
        0
    } else {
        at - limit
    };
    assert(recent(route.take(at), limit) =~= route.subrange(first, at));
}

proof fn lemma_legs(
    scoring: Scoring,
    route: Seq<usize>,
    limit: usize,
    percent: u16,
    at: int,
    sum: nat,
    worst: nat,
    other: int,
)
    requires
        1 <= at,
        legs_from(scoring, route, limit, percent, at, sum, worst) is Ok,
        at <= route.len() ==> sum == legs_summed(scoring, route, limit, percent, at),
    ensures
        ({
            let (total, largest) = legs_from(
                scoring,
                route,
                limit,
                percent,
                at,
                sum,
                worst,
            )->Ok_0;
            &&& at <= route.len() ==> total == legs_summed(
                scoring,
                route,
                limit,
                percent,
                route.len() as int,
            )
            &&& worst <= largest
            &&& at <= other < route.len() ==> (leg_into(
                scoring,
                route,
                other,
                limit,
                percent,
            ) matches Ok(distance) && distance <= largest)
            &&& largest == worst || exists|i: int|
                at <= i < route.len() && #[trigger] leg_into(scoring, route, i, limit, percent)
                    == Ok::<u64, ContextualError>(largest as u64) && largest <= u64::MAX
        }),
    decreases route.len() - at,
{
    if at < route.len() {
        lemma_leg_into(scoring, route, at, limit, percent);
        let distance = leg_into(scoring, route, at, limit, percent)->Ok_0;
        let next = if distance as nat > worst {
            distance as nat
        } else {
            worst
        };
        lemma_legs(
            scoring,
            route,
            limit,
            percent,
            at + 1,
            sum + distance as nat,
            next,
            other,
        );
    }
}

/// The measures of a route are those of its transitions: the sum of all, the
/// largest of them, and the sum with the largest counted twice more.
pub proof fn routes_are_measured_by_their_transitions(
    scoring: Scoring,
    route: Seq<usize>,
    limit: usize,
    percent: u16,
    arc: Option<ArcView>,
    at: int,
)
    requires
        metrics_of(scoring, route, limit, percent, arc) is Ok,
        1 <= at < route.len(),
    ensures
        ({
            let measured = metrics_of(scoring, route, limit, percent, arc)->Ok_0;
            &&& measured.transition_sum == legs_summed(
                scoring,
                route,
                limit,
                percent,
                route.len() as int,
            )
            &&& leg_into(scoring, route, at, limit, percent) matches Ok(distance) && distance
                <= measured.worst_transition
            &&& measured.worst_transition == 0 || exists|i: int|
                1 <= i < route.len() && #[trigger] leg_into(scoring, route, i, limit, percent)
                    == Ok::<u64, ContextualError>(measured.worst_transition as u64)
            &&& measured.objective == measured.transition_sum + measured.worst_transition
                + measured.worst_transition
        }),
{
    lemma_legs(scoring, route, limit, percent, 1, 0, 0, at);
}

/// The distance into position `at` of a route under the context that its gap is
/// frozen to.
pub open spec fn frozen_leg_into(
    model: BridgeModel,
    route: Seq<usize>,
    stretches: Seq<FrozenStretch>,
    at: int,
) -> Result<u64, BridgeError> {
    model.distance(route.take(at), route[at], stretch_matrix(stretches, at))
}

proof fn lemma_frozen_legs(
    model: BridgeModel,
    route: Seq<usize>,
    stretches: Seq<FrozenStretch>,
    at: int,
    sum: nat,
    worst: nat,
    other: int,
)
    requires
        frozen_legs_from(model, route, stretches, at, sum, worst) is Ok,
    ensures
        ({
            let (total, largest) = frozen_legs_from(
                model,
                route,
                stretches,
                at,
                sum,
                worst,
            )->Ok_0;
            &&& worst <= largest
            &&& sum <= total
            &&& at <= other < route.len() ==> (model.distance(
                route.take(other),
                route[other],
                stretch_matrix(stretches, other),
            ) matches Ok(distance) && distance <= largest && sum + distance <= total)
            &&& total <= sum + largest * (if at < route.len() {
                route.len() - at
            } else {
                0
            })
            &&& largest == worst || exists|i: int|
                at <= i < route.len() && #[trigger] frozen_leg_into(model, route, stretches, i)
                    == Ok::<u64, BridgeError>(largest as u64) && largest <= u64::MAX
        }),
    decreases route.len() - at,
{
    if at < route.len() {
        assert(frozen_leg_into(model, route, stretches, at) == model.distance(
            route.take(at),
            route[at],
            stretch_matrix(stretches, at),
        ));
        let distance = model.distance(
            route.take(at),
            route[at],
            stretch_matrix(stretches, at),
        )->Ok_0;
        let next = if distance as nat > worst {
            distance as nat
        } else {
            worst
        };
        lemma_frozen_legs(model, route, stretches, at + 1, sum + distance as nat, next, other);
        let largest = frozen_legs_from(model, route, stretches, at, sum, worst)->Ok_0.1;
        let left = route.len() - at;
        assert(largest * left == largest * (left - 1) + largest) by (nonlinear_arith);
        if at + 1 >= route.len() {
            assert(left == 1);
            assert(largest * (left - 1) == 0) by (nonlinear_arith)
                requires
                    left == 1,
            ;
        }
    } else {
        let largest = worst as int;
        assert(largest * 0 == 0);
    }
}

proof fn lemma_stretch_found(
    stretches: Seq<FrozenStretch>,
    place: int,
    at: int,
    found: int,
)
    requires
        0 <= at <= found < stretches.len(),
        stretches[found].left < place <= stretches[found].right,
        forall|i: int|
            at <= i < found ==> !((#[trigger] stretches[i]).left < place && place
                <= stretches[i].right),
    ensures
        stretch_at(stretches, place, at) == found,
    decreases found - at,
{
    if at < found {
        assert(!(stretches[at].left < place && place <= stretches[at].right));
        lemma_stretch_found(stretches, place, at + 1, found);
    }
}

/// A position is measured under the context of the first stretch that it lies in:
/// behind its left end, and no farther than its right one.
pub proof fn positions_are_measured_by_their_stretch(
    stretches: Seq<FrozenStretch>,
    place: int,
    found: int,
)
    requires
        0 <= found < stretches.len(),
        stretches[found].left < place <= stretches[found].right,
        forall|i: int|
            0 <= i < found ==> !((#[trigger] stretches[i]).left < place && place
                <= stretches[i].right),
    ensures
        stretch_matrix(stretches, place) == Some(stretches[found].matrix),
{
    lemma_stretch_found(stretches, place, 0, found);
}

proof fn lemma_stretches(
    model: BridgeModel,
    route: Seq<usize>,
    original: Seq<usize>,
    at: int,
    done: Seq<FrozenStretch>,
)
    requires
        0 <= at < original.len(),
        done.len() == at,
        forall|i: int| 0 <= i < at ==> is_stretch(model, route, original, i, #[trigger] done[i]),
    ensures
        stretches_from(model, route, original, at, done) matches Ok(stretches) ==> {
            &&& stretches.len() == original.len() - 1
            &&& forall|i: int|
                0 <= i < stretches.len() ==> is_stretch(
                    model,
                    route,
                    original,
                    i,
                    #[trigger] stretches[i],
                )
        },
    decreases original.len() - at,
{
    if at + 1 < original.len() {
        let left = position(route, original[at]);
        let right = position(route, original[at + 1]);
        if left < route.len() && right < route.len() {
            if let Ok(matrix) = model.gap_matrix(route, left + 1) {
                let stretch = FrozenStretch { left, right, matrix: matrix->Some_0 };
                assert(is_stretch(model, route, original, at, stretch));
                lemma_stretches(model, route, original, at + 1, done.push(stretch));
            }
        }
    }
}

/// Whether a stretch reaches from an original track to the next, under the
/// context in front of the first track behind it.
pub open spec fn is_stretch(
    model: BridgeModel,
    route: Seq<usize>,
    original: Seq<usize>,
    at: int,
    stretch: FrozenStretch,
) -> bool {
    &&& stretch.left == position(route, original[at])
    &&& stretch.right == position(route, original[at + 1])
    &&& model.gap_matrix(route, stretch.left + 1) matches Ok(matrix) && stretch.matrix
        == matrix->Some_0
}

/// Frozen contexts reach from each original track to the next, in order.
pub proof fn stretches_reach_from_track_to_track(
    model: BridgeModel,
    route: Seq<usize>,
    original: Seq<usize>,
)
    requires
        original.len() > 0,
    ensures
        stretches_from(model, route, original, 0, seq![]) matches Ok(stretches) ==> {
            &&& stretches.len() == original.len() - 1
            &&& forall|i: int|
                0 <= i < stretches.len() ==> is_stretch(
                    model,
                    route,
                    original,
                    i,
                    #[trigger] stretches[i],
                )
        },
{
    lemma_stretches(model, route, original, 0, seq![]);
}

/// The number by which routes with bridges are compared counts every transition
/// once and the largest twice more: it is at least three times any transition,
/// and at most what it would be were every transition as long as the largest.
/// Without frozen contexts it is the objective of the route's own measures.
pub proof fn compared_routes_count_their_largest_transition_thrice(
    model: BridgeModel,
    route: Seq<usize>,
    original: Seq<usize>,
    at: int,
)
    requires
        search_objective(model, route, original) is Ok,
        1 <= at < route.len(),
    ensures
        model.config.gap_context_mode == GapContextMode::Rolling ==> (metrics_of(
            model.scoring,
            route,
            model.config.seed_limit,
            model.config.learned_percent,
            None,
        ) matches Ok(measured) && search_objective(model, route, original)->Ok_0
            == measured.objective),
        model.config.gap_context_mode == GapContextMode::Frozen ==> ({
            let stretches = stretches_from(model, route, original, 0, seq![])->Ok_0;
            &&& frozen_leg_into(model, route, stretches, at) matches Ok(distance) && 3 * distance
                <= search_objective(model, route, original)->Ok_0
            &&& exists|i: int|
                1 <= i < route.len() && (#[trigger] frozen_leg_into(
                    model,
                    route,
                    stretches,
                    i,
                ) matches Ok(longest) && search_objective(model, route, original)->Ok_0 <= (
                route.len() + 1) * longest)
        }),
{
    if model.config.gap_context_mode == GapContextMode::Frozen {
        let stretches = stretches_from(model, route, original, 0, seq![])->Ok_0;
        lemma_frozen_legs(model, route, stretches, 1, 0, 0, at);
        let largest = frozen_legs_from(model, route, stretches, 1, 0, 0)->Ok_0.1 as int;
        let legs = route.len() - 1;
        assert((legs + 2) * largest == largest * legs + 2 * largest) by (nonlinear_arith);
        let i = if largest == 0 {
            at
        } else {
            choose|i: int|
                1 <= i < route.len() && #[trigger] frozen_leg_into(model, route, stretches, i)
                    == Ok::<u64, BridgeError>(largest as u64)
        };
        assert(frozen_leg_into(model, route, stretches, i) == Ok::<u64, BridgeError>(
            largest as u64,
        ));
    }
}

// Repeats.

/// Whether two positions of a route are far enough apart, or differ in artist and
/// album as far as the later one has them.
pub open spec fn differ_or_are_apart(
    route: Seq<usize>,
    tracks: Seq<RouteTrack>,
    config: SearchConfig,
    left: int,
    right: int,
) -> bool {
    let earlier = tracks[route[left] as int];
    let later = tracks[route[right] as int];
    &&& later.artist_key@.len() == 0 || earlier.artist_key@ != later.artist_key@ || left
        + config.artist_window < right
    &&& later.album_key@.len() == 0 || earlier.album_key@ != later.album_key@ || left
        + config.album_window < right
}

/// A route repeats nothing too soon exactly where any two of its positions differ
/// or are far enough apart.
pub proof fn safe_routes_differ_within_the_windows(
    route: Seq<usize>,
    tracks: Seq<RouteTrack>,
    config: SearchConfig,
)
    ensures
        repeat_safe(route, tracks, config) <==> forall|left: int, right: int|
            0 <= left < right < route.len() ==> #[trigger] differ_or_are_apart(
                route,
                tracks,
                config,
                left,
                right,
            ),
{
    assert forall|left: int, right: int| #[trigger]
        differ_or_are_apart(route, tracks, config, left, right) == pair_safe(
            route,
            tracks,
            config,
            left,
            right,
        ) by {}
    if repeat_safe(route, tracks, config) {
        assert forall|left: int, right: int| 0 <= left < right < route.len() implies
            #[trigger] differ_or_are_apart(route, tracks, config, left, right) by {
            assert(pair_safe(route, tracks, config, left, right));
        }
    } else {
        let (left, right) = choose|left: int, right: int|
            0 <= left < right < route.len() && !#[trigger] pair_safe(
                route,
                tracks,
                config,
                left,
                right,
            );
        assert(!differ_or_are_apart(route, tracks, config, left, right));
    }
}

/// A track may follow a route exactly where it differs from every track that is
/// closer to the end of it than a window.
pub proof fn followers_differ_within_the_windows(
    route: Seq<usize>,
    candidate: usize,
    tracks: Seq<RouteTrack>,
    config: SearchConfig,
)
    ensures
        may_follow(route, candidate, tracks, config) <==> forall|i: int|
            0 <= i < route.len() ==> #[trigger] differ_or_are_apart(
                route.push(candidate),
                tracks,
                config,
                i,
                route.len() as int,
            ),
{
    let next = route.push(candidate);
    let end = route.len() as int;
    if may_follow(route, candidate, tracks, config) {
        assert forall|i: int| 0 <= i < route.len() implies #[trigger] differ_or_are_apart(
            next,
            tracks,
            config,
            i,
            end,
        ) by {
            assert(next[i] == route[i]);
        }
    } else if forall|i: int|
        0 <= i < route.len() ==> #[trigger] differ_or_are_apart(next, tracks, config, i, end) {
        assert forall|i: int| 0 <= i < route.len() implies #[trigger] route[i] == next[i]
            && differ_or_are_apart(next, tracks, config, i, end) by {}
    }
}

// Searching.

/// What a search finds scores no more than what any of its attempts finds, and
/// where the attempt from the given order finds a route, no more than the given
/// order does.
pub proof fn searches_never_do_worse_than_the_given_order(model: SearchModel, task: int)
    requires
        0 <= task < model.fixed_starts() + model.config.restart_count,
        model.attempt(task) is Ok,
    ensures
        model.search() matches Ok(found) && {
            &&& model.score(found.metrics) <= model.score(model.attempt(task)->Ok_0.metrics)
            &&& task == 0 ==> (model.metrics(ascending(model.tracks.len() as int)) matches Ok(given)
                && model.score(found.metrics) <= model.score(given))
            &&& task == 1 ==> (model.metrics(
                ascending(model.tracks.len() as int).reverse(),
            ) matches Ok(given) && model.score(found.metrics) <= model.score(given))
        },
{
    search_finds_the_best_attempt(model, task);
    if task == 0 || task == 1 {
        let route = model.start(task)->Ok_0;
        let count = model.tracks.len() as int;
        let start = ScoredRoute { route, score: model.score(model.metrics(route)->Ok_0) };
        crate::route_laws::lemma_improve_scored_truly(model, start);
        crate::route_laws::lemma_improve_never_raises(model, start);
    }
}

/// The route along the arc is selected exactly where its objective is at most
/// eight hundredths above the plain one's and its distance from the arc at least
/// a tenth smaller; otherwise the plain route is.
pub proof fn the_arc_is_selected_where_it_is_close(
    scoring: Scoring,
    tracks: Seq<RouteTrack>,
    config: SearchConfig,
)
    ensures
        optimized(scoring, tracks, config) matches Ok(result) ==> {
            let plain = result.primary.metrics;
            let arced = result.arc.metrics;
            let close = 100 * arced.objective <= 108 * plain.objective && 10 * arced.arc_error <= 9
                * plain.arc_error;
            &&& close ==> result.selected == result.arc
            &&& !close ==> result.selected == result.primary
        },
{
}

/// A search along the arc counts twelve hundredths of the distance from it on top
/// of the objective; one without counts the objective alone.
pub proof fn scores_count_the_distance_from_the_arc(metrics: RouteMetricsView)
    ensures
        score_of(metrics, false) == metrics.objective,
        metrics.objective + metrics.arc_error <= u128::MAX ==> ({
            let extra = score_of(metrics, true) - metrics.objective;
            100 * extra <= 12 * metrics.arc_error < 100 * (extra + 1)
        }),
{
}

/// The distance from the arc is at least that of any position from its target,
/// and nothing where every position meets its target.
pub proof fn the_distance_from_the_arc_is_of_the_positions(
    route: Seq<usize>,
    arc: ArcView,
    at: int,
)
    requires
        route.len() == arc.targets.len(),
        0 <= at < route.len(),
    ensures
        ({
            let level = arc.intensities[route[at] as int] as int;
            let target = arc.targets[at] as int;
            let error = arc_error(route, Some(arc)) as int;
            level - target <= error && target - level <= error
        }),
        (forall|i: int|
            0 <= i < route.len() ==> arc.intensities[(#[trigger] route[i]) as int]
                == arc.targets[i]) ==> arc_error(route, Some(arc)) == 0,
        arc_error(route, None) == 0,
{
    lemma_arc_error(route, arc, route.len() as int, at);
}

proof fn lemma_arc_error(route: Seq<usize>, arc: ArcView, count: int, at: int)
    requires
        route.len() == arc.targets.len(),
        0 <= count <= route.len(),
    ensures
        0 <= at < count ==> ({
            let level = arc.intensities[route[at] as int] as int;
            let target = arc.targets[at] as int;
            let error = arc_error_upto(route, arc, count) as int;
            level - target <= error && target - level <= error
        }),
        (forall|i: int|
            0 <= i < route.len() ==> arc.intensities[(#[trigger] route[i]) as int]
                == arc.targets[i]) ==> arc_error_upto(route, arc, count) == 0,
    decreases count,
{
    if count > 0 {
        lemma_arc_error(route, arc, count - 1, at);
        assert(route[count - 1] == route[count - 1]);
    }
}

// The arc.

/// The arc starts at a quarter, rises to 0.85 at its peak and falls to 0.35 at
/// the end; the peak lies at seven tenths of the way.
pub proof fn the_arc_rises_to_its_peak_and_falls(size: int, position: int)
    requires
        2 <= size <= 1_000_000_000,
        0 <= position < size,
    ensures
        ({
            let peak = arc_peak(size);
            &&& 1 <= peak < size
            &&& peak == 1 || (10 * peak - 7 * (size - 1) <= 5 && 7 * (size - 1) - 10 * peak <= 5)
            &&& arc_target(size, 0) == UNIT / 4
            &&& 100 * arc_target(size, peak) == 85 * UNIT
            &&& peak < size - 1 ==> 100 * arc_target(size, size - 1) == 35 * UNIT
            &&& position < peak ==> arc_target(size, position) < arc_target(size, position + 1)
            &&& peak <= position && position + 1 < size ==> arc_target(size, position)
                > arc_target(size, position + 1)
        }),
{
    let peak = arc_peak(size);
    let span = size - 1;
    assert(7 * span / 10 <= seven_tenths(span) <= (7 * span + 5) / 10);
    assert(1 <= peak < size);
    let rise = 600_000_000_000int;
    let fall = 500_000_000_000int;
    assert(rise * 0 / peak == 0) by (nonlinear_arith)
        requires
            peak > 0,
    ;
    assert(rise * peak / peak == rise) by (nonlinear_arith)
        requires
            peak > 0,
    ;
    if position < peak {
        assert(rise * position / peak < rise * (position + 1) / peak) by (nonlinear_arith)
            requires
                0 < peak <= 1_000_000_000,
                rise == 600_000_000_000int,
                0 <= position,
        ;
    } else if position + 1 < size {
        let down = if size - 1 - peak > 1 {
            size - 1 - peak
        } else {
            1
        };
        let gone = position - peak;
        assert(fall * gone / down < fall * (gone + 1) / down) by (nonlinear_arith)
            requires
                0 < down <= 1_000_000_000,
                fall == 500_000_000_000int,
                0 <= gone,
        ;
        if position == peak {
            assert(fall * gone / down == 0) by (nonlinear_arith)
                requires
                    gone == 0,
                    down > 0,
            ;
        }
    }
    if peak < size - 1 {
        let down = size - 1 - peak;
        assert(fall * down / down == fall) by (nonlinear_arith)
            requires
                down > 0,
        ;
    }
}

proof fn lemma_rank_of_more(
    tracks: Seq<RouteTrack>,
    feature: int,
    calm: int,
    intense: int,
    count: int,
)
    requires
        0 <= calm < tracks.len(),
        0 <= intense < tracks.len(),
        0 <= count <= tracks.len(),
        tracks[calm].features[feature] < tracks[intense].features[feature],
    ensures
        feature_rank(tracks, feature, calm, count) <= feature_rank(tracks, feature, intense, count),
        count > calm ==> feature_rank(tracks, feature, calm, count) < feature_rank(
            tracks,
            feature,
            intense,
            count,
        ),
    decreases count,
{
    if count > 0 {
        lemma_rank_of_more(tracks, feature, calm, intense, count - 1);
    }
}

/// Which tracks have less of a feature than one, or as much and come before it.
pub open spec fn calmer_in(tracks: Seq<RouteTrack>, feature: int, track: int) -> Set<int> {
    Set::new(
        |i: int|
            0 <= i < tracks.len() && (tracks[i].features[feature] < tracks[track].features[feature]
                || (tracks[i].features[feature] == tracks[track].features[feature] && i < track)),
    )
}

proof fn lemma_calmer(tracks: Seq<RouteTrack>, feature: int, track: int, count: int)
    requires
        0 <= count <= tracks.len(),
    ensures
        calmer_in(tracks, feature, track).filter(|i: int| i < count).finite(),
        calmer_in(tracks, feature, track).filter(|i: int| i < count).len() == feature_rank(
            tracks,
            feature,
            track,
            count,
        ),
    decreases count,
{
    let all = calmer_in(tracks, feature, track);
    let some = all.filter(|i: int| i < count);
    if count == 0 {
        assert(some =~= Set::empty());
    } else {
        lemma_calmer(tracks, feature, track, count - 1);
        let fewer = all.filter(|i: int| i < count - 1);
        if feature_before(tracks, feature, count - 1, track) {
            assert(some =~= fewer.insert(count - 1));
        } else {
            assert(some =~= fewer);
        }
    }
}

/// The intensity of a track counts, in each of five features alike, the tracks
/// that have less of it.
pub proof fn intensity_counts_five_features(tracks: Seq<RouteTrack>, track: int)
    ensures
        rank_sum(tracks, track) == calmer_in(tracks, 0, track).len() + calmer_in(
            tracks,
            1,
            track,
        ).len() + calmer_in(tracks, 2, track).len() + calmer_in(tracks, 4, track).len()
            + calmer_in(tracks, 8, track).len(),
{
    lemma_calmer_all(tracks, 0, track);
    lemma_calmer_all(tracks, 1, track);
    lemma_calmer_all(tracks, 2, track);
    lemma_calmer_all(tracks, 4, track);
    lemma_calmer_all(tracks, 8, track);
}

proof fn lemma_calmer_all(tracks: Seq<RouteTrack>, feature: int, track: int)
    ensures
        calmer_in(tracks, feature, track).len() == feature_rank(
            tracks,
            feature,
            track,
            tracks.len() as int,
        ),
{
    let count = tracks.len() as int;
    lemma_calmer(tracks, feature, track, count);
    assert(calmer_in(tracks, feature, track).filter(|i: int| i < count) =~= calmer_in(
        tracks,
        feature,
        track,
    ));
}

/// A track that has more of every feature that makes a track intense is no less
/// intense, and ranks strictly higher.
pub proof fn more_of_every_feature_is_more_intense(
    tracks: Seq<RouteTrack>,
    calm: int,
    intense: int,
)
    requires
        0 <= calm < tracks.len(),
        0 <= intense < tracks.len(),
        tracks[calm].features[0] < tracks[intense].features[0],
        tracks[calm].features[1] < tracks[intense].features[1],
        tracks[calm].features[2] < tracks[intense].features[2],
        tracks[calm].features[4] < tracks[intense].features[4],
        tracks[calm].features[8] < tracks[intense].features[8],
    ensures
        rank_sum(tracks, calm) + 5 <= rank_sum(tracks, intense),
        intensity(tracks, calm) <= intensity(tracks, intense),
{
    let count = tracks.len() as int;
    lemma_rank_of_more(tracks, 0, calm, intense, count);
    lemma_rank_of_more(tracks, 1, calm, intense, count);
    lemma_rank_of_more(tracks, 2, calm, intense, count);
    lemma_rank_of_more(tracks, 4, calm, intense, count);
    lemma_rank_of_more(tracks, 8, calm, intense, count);
    crate::units::fraction_is_monotone(
        rank_sum(tracks, calm) as int,
        rank_sum(tracks, intense) as int,
        5 * crate::route::rank_span(count),
    );
}

/// Ordered by intensity, no track is more intense than one behind it.
pub proof fn tracks_go_from_calm_to_intense(intensities: Seq<u64>, earlier: int, later: int)
    requires
        intensities.len() <= usize::MAX,
        0 <= earlier < later < by_intensity(intensities).len(),
    ensures
        intensities[by_intensity(intensities)[earlier] as int]
            <= intensities[by_intensity(intensities)[later] as int],
{
    let order = by_intensity(intensities);
    stable_sort_is_sorted(ascending(intensities.len() as int), calmest_first(intensities));
    assert(calmest_first(intensities)(order[earlier], order[later]));
}

/// A draw leans towards the first of the positions: a larger word never gives an
/// earlier one, and the smaller half of all words gives the first quarter.
pub proof fn draws_lean_towards_the_first(word: u64, larger: u64, width: int)
    requires
        word <= larger,
        0 < width <= 4,
    ensures
        0 <= leaning_pick(word, width) <= leaning_pick(larger, width) < width,
        word < 0x8000_0000_0000_0000 ==> 4 * leaning_pick(word, width) < width,
{
    let low = (word / 2048) as int;
    let high = (larger / 2048) as int;
    let all = 0x400_0000_0000_0000_0000_0000_0000int;
    assert(low * low * width <= high * high * width && 0 <= low * low * width) by (nonlinear_arith)
        requires
            0 <= low <= high,
            0 < width,
    ;
    assert(high * high * width < all * width) by (nonlinear_arith)
        requires
            0 <= high < 0x20_0000_0000_0000int,
            0 < width,
            all == 0x400_0000_0000_0000_0000_0000_0000int,
    ;
    if word < 0x8000_0000_0000_0000 {
        assert(4 * (low * low * width) < all * width) by (nonlinear_arith)
            requires
                0 <= low < 0x10_0000_0000_0000int,
                0 < width,
                all == 0x400_0000_0000_0000_0000_0000_0000int,
        ;
    }
}

} // verus!
