//! What holds of every route search.

use crate::contextual::Scoring;
use crate::route::{
    arc_of, by_intensity, calmest_first, lemma_next_track_remains, moved, moved_from, optimized,
    prefers_arc, repeat_safe, turned, violations_empty_iff_repeat_safe, FoundRoute, RouteTrack, ScoredRoute,
    SearchConfig, SearchFailure, SearchModel,
};
use crate::sequences::{
    ascending, in_range, lemma_lex_less_strict, lemma_lex_less_transitive, lemma_position_of_member,
    position,
};
use crate::sorting::stable_sort_keeps_items;
use crate::units::EPSILON;
use vstd::prelude::*;

verus! {

/// A route that visits `count` tracks, each number below `count` once.
pub open spec fn visits_all(route: Seq<usize>, count: int) -> bool {
    &&& route.len() == count
    &&& in_range(route, count)
    &&& route.no_duplicates()
}

/// A route over `count` tracks without duplicates leaves none out.
pub proof fn visiting_all_leaves_none_out(route: Seq<usize>, count: int)
    requires
        visits_all(route, count),
    ensures
        forall|track: usize| track < count ==> #[trigger] route.contains(track),
{
    let numbers = route.map_values(|track: usize| track as int);
    assert(numbers.no_duplicates()) by {
        assert forall|i: int, j: int|
            0 <= i < numbers.len() && 0 <= j < numbers.len() && i != j implies numbers[i]
            != numbers[j] by {
            assert(route[i] != route[j]);
        }
    }
    numbers.unique_seq_to_set();
    let visited = numbers.to_set();
    let all = vstd::set_lib::set_int_range(0, count);
    vstd::set_lib::lemma_int_range(0, count);
    assert(visited.subset_of(all)) by {
        assert forall|number: int| visited.contains(number) implies all.contains(number) by {
            let i = choose|i: int| 0 <= i < numbers.len() && numbers[i] == number;
            assert(route[i] < count);
        }
    }
    vstd::set_lib::lemma_subset_equality(visited, all);
    assert forall|track: usize| track < count implies #[trigger] route.contains(track) by {
        assert(all.contains(track as int));
        assert(numbers.contains(track as int));
        let i = choose|i: int| 0 <= i < numbers.len() && numbers[i] == track as int;
        assert(route[i] == track);
    }
}

proof fn lemma_turned_visits_all(route: Seq<usize>, start: int, end: int, count: int)
    requires
        visits_all(route, count),
        0 <= start <= end < count,
    ensures
        visits_all(turned(route, start, end), count),
{
    let next = turned(route, start, end);
    assert forall|i: int, j: int|
        0 <= i < next.len() && 0 <= j < next.len() && i != j implies next[i] != next[j] by {
        let from_i = if start <= i <= end {
            start + end - i
        } else {
            i
        };
        let from_j = if start <= j <= end {
            start + end - j
        } else {
            j
        };
        assert(route[from_i] != route[from_j]);
    }
}

proof fn lemma_moved_no_duplicates(route: Seq<usize>, source: int, destination: int)
    requires
        route.no_duplicates(),
        0 <= source < route.len(),
        0 <= destination < route.len(),
    ensures
        moved(route, source, destination).no_duplicates(),
{
    let next = moved(route, source, destination);
    assert forall|i: int, j: int|
        0 <= i < next.len() && 0 <= j < next.len() && i != j implies next[i] != next[j] by {
        assert(route[moved_from(source, destination, i)] != route[moved_from(
            source,
            destination,
            j,
        )]);
    }
}

proof fn lemma_moved_visits_all(route: Seq<usize>, source: int, destination: int, count: int)
    requires
        visits_all(route, count),
        0 <= source < count,
        0 <= destination < count,
    ensures
        visits_all(moved(route, source, destination), count),
{
    lemma_moved_no_duplicates(route, source, destination);
}

/// A scored route whose score is that of its own measures.
pub open spec fn scored_truly(model: SearchModel, scored: ScoredRoute) -> bool {
    model.metrics(scored.route) matches Ok(metrics) && model.score(metrics) == scored.score
}

/// What every step of an improvement keeps.
pub open spec fn sound_step(model: SearchModel, scored: ScoredRoute, count: int) -> bool {
    visits_all(scored.route, count) && scored_truly(model, scored)
}

proof fn lemma_consider_sound(
    model: SearchModel,
    candidate: Seq<usize>,
    best: ScoredRoute,
    count: int,
)
    requires
        sound_step(model, best, count),
        visits_all(candidate, count),
    ensures
        model.consider(candidate, best) matches Ok(next) ==> sound_step(model, next, count),
{
}

proof fn lemma_reversals_sound(
    model: SearchModel,
    route: Seq<usize>,
    start: int,
    end: int,
    best: ScoredRoute,
    count: int,
)
    requires
        visits_all(route, count),
        sound_step(model, best, count),
        0 <= start < end,
    ensures
        model.try_reversals(route, start, end, best) matches Ok(next) ==> sound_step(
            model,
            next,
            count,
        ),
    decreases route.len() - start, route.len() - end,
{
    if start + 1 >= route.len() {
    } else if end >= route.len() {
        lemma_reversals_sound(model, route, start + 1, start + 2, best, count);
    } else {
        lemma_turned_visits_all(route, start, end, count);
        lemma_consider_sound(model, turned(route, start, end), best, count);
        match model.consider(turned(route, start, end), best) {
            Err(_) => {},
            Ok(next) => {
                lemma_reversals_sound(model, route, start, end + 1, next, count);
            },
        }
    }
}

proof fn lemma_moves_sound(
    model: SearchModel,
    route: Seq<usize>,
    source: int,
    destination: int,
    best: ScoredRoute,
    count: int,
)
    requires
        visits_all(route, count),
        sound_step(model, best, count),
        0 <= source,
        0 <= destination,
    ensures
        model.try_moves(route, source, destination, best) matches Ok(next) ==> sound_step(
            model,
            next,
            count,
        ),
    decreases route.len() - source, route.len() - destination,
{
    if source >= route.len() {
    } else if destination >= route.len() {
        lemma_moves_sound(model, route, source + 1, 0, best, count);
    } else if moved(route, source, destination) == route {
        lemma_moves_sound(model, route, source, destination + 1, best, count);
    } else {
        lemma_moved_visits_all(route, source, destination, count);
        lemma_consider_sound(model, moved(route, source, destination), best, count);
        match model.consider(moved(route, source, destination), best) {
            Err(_) => {},
            Ok(next) => {
                lemma_moves_sound(model, route, source, destination + 1, next, count);
            },
        }
    }
}

/// Improving a route keeps its tracks, keeps its score true, and never makes
/// the score larger.
pub proof fn improvement_is_sound(model: SearchModel, current: ScoredRoute, count: int)
    requires
        sound_step(model, current, count),
    ensures
        model.improve(current) matches Ok(best) ==> sound_step(model, best, count) && best.score
            <= current.score,
    decreases current.score,
{
    lemma_reversals_sound(model, current.route, 0, 1, current, count);
    match model.try_reversals(current.route, 0, 1, current) {
        Err(_) => {},
        Ok(reversed) => {
            lemma_moves_sound(model, current.route, 0, 0, reversed, count);
            match model.try_moves(current.route, 0, 0, reversed) {
                Err(_) => {},
                Ok(best) => {
                    if best.score + EPSILON < current.score {
                        improvement_is_sound(model, best, count);
                    }
                },
            }
        },
    }
}

/// Whether a route is one that an improvement step looks at: `route` with a
/// stretch turned round, or with one track moved elsewhere.
pub open spec fn neighbors(route: Seq<usize>, candidate: Seq<usize>) -> bool {
    ||| exists|start: int, end: int|
        0 <= start < end < route.len() && candidate == #[trigger] turned(route, start, end)
    ||| candidate != route && exists|source: int, destination: int|
        0 <= source < route.len() && 0 <= destination < route.len() && candidate
            == #[trigger] moved(route, source, destination)
}

/// Whether a route may be taken: it keeps the windows and has this score.
pub open spec fn safely_scores(model: SearchModel, candidate: Seq<usize>, score: nat) -> bool {
    &&& repeat_safe(candidate, model.tracks, model.config)
    &&& model.metrics(candidate) matches Ok(metrics) && model.score(metrics) == score
}

/// Whether some neighbour of a route that keeps the windows scores above
/// `score`, but by no more than `EPSILON`.
pub open spec fn nearly_tied(model: SearchModel, route: Seq<usize>, score: nat) -> bool {
    exists|other: Seq<usize>, above: nat|
        neighbors(route, other) && #[trigger] safely_scores(model, other, above) && score < above
            <= score + EPSILON
}

proof fn lemma_consider_stays_low(
    model: SearchModel,
    route: Seq<usize>,
    candidate: Seq<usize>,
    best: ScoredRoute,
    score: nat,
)
    requires
        neighbors(route, candidate),
        !nearly_tied(model, route, score),
    ensures
        best.score <= score ==> (model.consider(candidate, best) matches Ok(next) ==> next.score
            <= score),
{
    violations_empty_iff_repeat_safe(candidate, model.tracks, model.config);
    if let Ok(next) = model.consider(candidate, best) {
        if next != best {
            assert(safely_scores(model, candidate, next.score));
        }
    }
}

/// Considering the reversals from (`start`, `end`) on leaves a best route that
/// scores no more than `score`, if the best one before did not or if a reversal
/// that scores so is still to come.
proof fn lemma_reversals_stay_low(
    model: SearchModel,
    current: ScoredRoute,
    start: int,
    end: int,
    best: ScoredRoute,
    at: (int, int),
    score: nat,
)
    requires
        0 <= start < end,
        !nearly_tied(model, current.route, score),
        score + EPSILON < current.score,
        best == current || (neighbors(current.route, best.route) && safely_scores(
            model,
            best.route,
            best.score,
        )),
        model.try_reversals(current.route, start, end, best) is Ok,
    ensures
        ({
            let next = model.try_reversals(current.route, start, end, best)->Ok_0;
            &&& next == current || (neighbors(current.route, next.route) && safely_scores(
                model,
                next.route,
                next.score,
            ))
            &&& best.score <= score ==> next.score <= score
            &&& 0 <= at.0 < at.1 < current.route.len() && (start < at.0 || (start == at.0 && end
                <= at.1)) && safely_scores(model, turned(current.route, at.0, at.1), score)
                ==> next.score <= score
        }),
    decreases current.route.len() - start, current.route.len() - end,
{
    let route = current.route;
    if start + 1 >= route.len() {
    } else if end >= route.len() {
        lemma_reversals_stay_low(model, current, start + 1, start + 2, best, at, score);
    } else {
        let candidate = turned(route, start, end);
        assert(neighbors(route, candidate));
        violations_empty_iff_repeat_safe(candidate, model.tracks, model.config);
        lemma_consider_stays_low(model, route, candidate, best, score);
        let next = model.consider(candidate, best)->Ok_0;
        if next != best {
            assert(safely_scores(model, candidate, next.score));
        }
        if start == at.0 && end == at.1 && safely_scores(model, candidate, score) {
            assert(next.score <= score);
        }
        lemma_reversals_stay_low(model, current, start, end + 1, next, at, score);
    }
}

/// The same of the moves from (`source`, `destination`) on.
proof fn lemma_moves_stay_low(
    model: SearchModel,
    current: ScoredRoute,
    source: int,
    destination: int,
    best: ScoredRoute,
    at: (int, int),
    score: nat,
)
    requires
        0 <= source,
        0 <= destination,
        !nearly_tied(model, current.route, score),
        score + EPSILON < current.score,
        best == current || (neighbors(current.route, best.route) && safely_scores(
            model,
            best.route,
            best.score,
        )),
        model.try_moves(current.route, source, destination, best) is Ok,
    ensures
        ({
            let next = model.try_moves(current.route, source, destination, best)->Ok_0;
            &&& best.score <= score ==> next.score <= score
            &&& 0 <= at.0 < current.route.len() && 0 <= at.1 < current.route.len() && (source < at.0
                || (source == at.0 && destination <= at.1)) && moved(current.route, at.0, at.1)
                != current.route && safely_scores(
                model,
                moved(current.route, at.0, at.1),
                score,
            ) ==> next.score <= score
        }),
    decreases current.route.len() - source, current.route.len() - destination,
{
    let route = current.route;
    if source >= route.len() {
    } else if destination >= route.len() {
        lemma_moves_stay_low(model, current, source + 1, 0, best, at, score);
    } else if moved(route, source, destination) == route {
        lemma_moves_stay_low(model, current, source, destination + 1, best, at, score);
    } else {
        let candidate = moved(route, source, destination);
        assert(neighbors(route, candidate));
        violations_empty_iff_repeat_safe(candidate, model.tracks, model.config);
        lemma_consider_stays_low(model, route, candidate, best, score);
        let next = model.consider(candidate, best)->Ok_0;
        if next != best {
            assert(safely_scores(model, candidate, next.score));
        }
        if source == at.0 && destination == at.1 && safely_scores(model, candidate, score) {
            assert(next.score <= score);
        }
        lemma_moves_stay_low(model, current, source, destination + 1, next, at, score);
    }
}

/// Where an improvement stops, no reversal or move that keeps the windows lowers
/// the score by more than `EPSILON`, unless the score it leads to is nearly tied
/// with that of another neighbour: near ties are settled by dictionary order,
/// which may give up a lower score for one within `EPSILON` of it.
pub proof fn improvement_stops_at_a_local_best(
    model: SearchModel,
    start: ScoredRoute,
    candidate: Seq<usize>,
    score: nat,
)
    requires
        model.improve(start) is Ok,
        neighbors(model.improve(start)->Ok_0.route, candidate),
        safely_scores(model, candidate, score),
        !nearly_tied(model, model.improve(start)->Ok_0.route, score),
    ensures
        model.improve(start)->Ok_0.score <= score + EPSILON,
    decreases start.score,
{
    let best = model.best_neighbor(start)->Ok_0;
    if best.score + EPSILON < start.score {
        improvement_stops_at_a_local_best(model, best, candidate, score);
    } else if score + EPSILON < start.score {
        let route = start.route;
        let reversed = model.try_reversals(route, 0, 1, start)->Ok_0;
        if exists|from: int, to: int|
            0 <= from < to < route.len() && candidate == #[trigger] turned(route, from, to) {
            let (from, to) = choose|from: int, to: int|
                0 <= from < to < route.len() && candidate == #[trigger] turned(route, from, to);
            lemma_reversals_stay_low(model, start, 0, 1, start, (from, to), score);
            assert(reversed.score <= score);
            lemma_moves_stay_low(model, start, 0, 0, reversed, (0, 0), score);
        } else {
            let (from, to) = choose|from: int, to: int|
                0 <= from < route.len() && 0 <= to < route.len() && candidate == #[trigger] moved(
                    route,
                    from,
                    to,
                );
            lemma_reversals_stay_low(model, start, 0, 1, start, (0, 0), score);
            lemma_moves_stay_low(model, start, 0, 0, reversed, (from, to), score);
        }
        assert(best.score <= score);
    }
}

proof fn lemma_consider_drifts(
    model: SearchModel,
    candidate: Seq<usize>,
    best: ScoredRoute,
)
    requires
        model.consider(candidate, best) is Ok,
    ensures
        ({
            let next = model.consider(candidate, best)->Ok_0;
            &&& next.score <= best.score + EPSILON
            &&& repeat_safe(candidate, model.tracks, model.config) ==> (model.metrics(
                candidate,
            ) matches Ok(metrics) && next.score <= model.score(metrics) + EPSILON)
        }),
{
    violations_empty_iff_repeat_safe(candidate, model.tracks, model.config);
}

/// Considering the reversals from (`start`, `end`) on raises the best score by
/// at most `EPSILON` for each, also over the score of one still to come.
proof fn lemma_reversals_drift(
    model: SearchModel,
    route: Seq<usize>,
    start: int,
    end: int,
    best: ScoredRoute,
    at: (int, int),
)
    requires
        0 <= start < end <= route.len(),
        model.try_reversals(route, start, end, best) is Ok,
    ensures
        ({
            let next = model.try_reversals(route, start, end, best)->Ok_0;
            let left = (route.len() - 1 - start) * route.len() + (route.len() - end);
            let candidate = turned(route, at.0, at.1);
            &&& next.score <= best.score + left * EPSILON
            &&& 0 <= at.0 < at.1 < route.len() && (start < at.0 || (start == at.0 && end <= at.1))
                && repeat_safe(candidate, model.tracks, model.config) ==> (model.metrics(
                candidate,
            ) matches Ok(metrics) && next.score <= model.score(metrics) + left * EPSILON)
        }),
    decreases route.len() - start, route.len() - end,
{
    let count = route.len() as int;
    assert((count - 1 - start) * count == (count - 2 - start) * count + count)
        by (nonlinear_arith);
    if start + 1 >= count {
        assert((count - 1 - start) * count >= 0) by (nonlinear_arith)
            requires
                count - 1 - start >= 0,
                count >= 0,
        ;
    } else if end >= count {
        lemma_reversals_drift(model, route, start + 1, start + 2, best, at);
    } else {
        assert((count - 1 - start) * count >= 0) by (nonlinear_arith)
            requires
                count - 1 - start >= 0,
                count >= 0,
        ;
        let candidate = turned(route, start, end);
        lemma_consider_drifts(model, candidate, best);
        let next = model.consider(candidate, best)->Ok_0;
        lemma_reversals_drift(model, route, start, end + 1, next, at);
    }
}

/// The same of the moves from (`source`, `destination`) on.
proof fn lemma_moves_drift(
    model: SearchModel,
    route: Seq<usize>,
    source: int,
    destination: int,
    best: ScoredRoute,
    at: (int, int),
)
    requires
        0 <= source <= route.len(),
        0 <= destination <= route.len(),
        source == route.len() ==> destination == 0,
        model.try_moves(route, source, destination, best) is Ok,
    ensures
        ({
            let next = model.try_moves(route, source, destination, best)->Ok_0;
            let left = (route.len() - 1 - source) * route.len() + (route.len() - destination);
            let candidate = moved(route, at.0, at.1);
            &&& next.score <= best.score + left * EPSILON
            &&& 0 <= at.0 < route.len() && 0 <= at.1 < route.len() && (source < at.0 || (source
                == at.0 && destination <= at.1)) && candidate != route && repeat_safe(
                candidate,
                model.tracks,
                model.config,
            ) ==> (model.metrics(candidate) matches Ok(metrics) && next.score <= model.score(
                metrics,
            ) + left * EPSILON)
        }),
    decreases route.len() - source, route.len() - destination,
{
    let count = route.len() as int;
    assert((count - 1 - source) * count == (count - 2 - source) * count + count)
        by (nonlinear_arith);
    if source >= count {
        assert((count - 1 - source) * count == -count) by (nonlinear_arith)
            requires
                source == count,
        ;
    } else {
        assert((count - 1 - source) * count >= 0) by (nonlinear_arith)
            requires
                count - 1 - source >= 0,
                count >= 0,
        ;
        let candidate = moved(route, source, destination);
        if destination >= count {
            lemma_moves_drift(model, route, source + 1, 0, best, at);
        } else if candidate == route {
            lemma_moves_drift(model, route, source, destination + 1, best, at);
        } else {
            lemma_consider_drifts(model, candidate, best);
            let next = model.consider(candidate, best)->Ok_0;
            lemma_moves_drift(model, route, source, destination + 1, next, at);
        }
    }
}

/// Where an improvement stops, every reversal and move that keeps the windows
/// has a score, and however many near ties there were, none lowers the score by
/// more than `EPSILON` for each of the neighbours.
pub proof fn improvement_stops_close_to_every_neighbor(
    model: SearchModel,
    start: ScoredRoute,
    candidate: Seq<usize>,
)
    requires
        model.improve(start) is Ok,
        neighbors(model.improve(start)->Ok_0.route, candidate),
        repeat_safe(candidate, model.tracks, model.config),
    ensures
        model.metrics(candidate) matches Ok(metrics) && model.improve(start)->Ok_0.score
            <= model.score(metrics) + 2 * model.improve(start)->Ok_0.route.len() * model.improve(
            start,
        )->Ok_0.route.len() * EPSILON,
    decreases start.score,
{
    let best = model.best_neighbor(start)->Ok_0;
    if best.score + EPSILON < start.score {
        improvement_stops_close_to_every_neighbor(model, best, candidate);
    } else {
        let route = start.route;
        let count = route.len() as int;
        let reversed = model.try_reversals(route, 0, 1, start)->Ok_0;
        assert((count - 1) * count == count * count - count) by (nonlinear_arith);
        assert(2 * count * count == 2 * (count * count)) by (nonlinear_arith);
        if exists|from: int, to: int|
            0 <= from < to < count && candidate == #[trigger] turned(route, from, to) {
            let (from, to) = choose|from: int, to: int|
                0 <= from < to < count && candidate == #[trigger] turned(route, from, to);
            lemma_reversals_drift(model, route, 0, 1, start, (from, to));
            lemma_moves_drift(model, route, 0, 0, reversed, (0, 0));
        } else {
            let (from, to) = choose|from: int, to: int|
                0 <= from < count && 0 <= to < count && candidate == #[trigger] moved(
                    route,
                    from,
                    to,
                );
            assert(count * count >= 1) by (nonlinear_arith)
                requires
                    count >= 1,
            ;
            lemma_moves_drift(model, route, 0, 0, reversed, (from, to));
        }
    }
}

proof fn lemma_greedy_visits_all(
    model: SearchModel,
    route: Seq<usize>,
    remaining: Seq<usize>,
    words: Seq<u64>,
    step: int,
    count: int,
)
    requires
        visits_all(route + remaining, count),
        0 <= step,
        words.len() - step == remaining.len(),
    ensures
        model.greedy_from(route, remaining, words, step) matches Ok(built) ==> visits_all(
            built,
            count,
        ),
    decreases words.len() - step,
{
    if remaining.len() == 0 {
        assert(route + remaining =~= route);
    } else {
        lemma_next_track_remains(model, route, remaining, words[step]);
        match model.next_track(route, remaining, words[step]) {
            Err(_) => {},
            Ok(track) => {
                lemma_position_of_member(remaining, track);
                crate::sequences::lemma_position_from(remaining, track, 0);
                let at = position(remaining, track);
                let all = route + remaining;
                let source = route.len() + at;
                let destination = route.len() as int;
                lemma_moved_visits_all(all, source, destination, count);
                assert(route.push(track) + remaining.remove(at) =~= moved(
                    all,
                    source,
                    destination,
                ));
                lemma_greedy_visits_all(
                    model,
                    route.push(track),
                    remaining.remove(at),
                    words,
                    step + 1,
                    count,
                );
            },
        }
    }
}

/// A random route visits every track once.
pub proof fn greedy_routes_visit_all(model: SearchModel, first: usize, words: Seq<u64>)
    requires
        first < model.tracks.len(),
        model.tracks.len() <= usize::MAX,
        words.len() == model.tracks.len() - 1,
    ensures
        model.greedy(first, words) matches Ok(route) ==> visits_all(
            route,
            model.tracks.len() as int,
        ),
{
    let count = model.tracks.len() as int;
    let all = ascending(count);
    assert(visits_all(all, count));
    lemma_moved_visits_all(all, first as int, 0, count);
    assert(seq![first] + all.remove(first as int) =~= moved(all, first as int, 0));
    lemma_greedy_visits_all(model, seq![first], all.remove(first as int), words, 0, count);
}

/// The order by intensity visits every track once.
pub proof fn intensity_order_visits_all(intensities: Seq<u64>)
    requires
        intensities.len() <= usize::MAX,
    ensures
        visits_all(by_intensity(intensities), intensities.len() as int),
{
    broadcast use vstd::seq_lib::group_to_multiset_ensures;

    let count = intensities.len() as int;
    let all = ascending(count);
    let ordered = by_intensity(intensities);
    stable_sort_keeps_items(all, calmest_first(intensities));
    assert(all.no_duplicates());
    all.lemma_multiset_has_no_duplicates();
    ordered.lemma_multiset_has_no_duplicates_conv();
    assert forall|i: int| 0 <= i < ordered.len() implies #[trigger] ordered[i] < count by {
        assert(ordered.contains(ordered[i]));
        assert(ordered.to_multiset().count(ordered[i]) > 0);
        assert(all.to_multiset().count(ordered[i]) > 0);
        assert(all.contains(ordered[i]));
    }
}

proof fn lemma_precedes_strict(model: SearchModel, left: FoundRoute, right: FoundRoute)
    ensures
        !(model.precedes(left, right) && model.precedes(right, left)),
{
    lemma_lex_less_strict(left.route, right.route, 0);
}

proof fn lemma_precedes_transitive(
    model: SearchModel,
    a: FoundRoute,
    b: FoundRoute,
    c: FoundRoute,
)
    requires
        !model.precedes(a, b),
        model.precedes(c, b),
    ensures
        !model.precedes(a, c),
{
    if model.precedes(a, c) {
        let (x, y, z) = (a.route, c.route, b.route);
        if model.score(a.metrics) == model.score(c.metrics) && model.score(c.metrics)
            == model.score(b.metrics) {
            lemma_lex_less_transitive(x, y, z, 0);
        }
    }
}

proof fn lemma_best_is_minimal(
    model: SearchModel,
    task: int,
    count: int,
    best: Option<FoundRoute>,
    failure: Option<SearchFailure>,
    seen: FoundRoute,
)
    requires
        task <= count,
        (best is Some && !model.precedes(seen, best->Some_0)) || (exists|later: int|
            task <= later < count && #[trigger] model.attempt(later) == Ok::<
                FoundRoute,
                SearchFailure,
            >(seen)),
    ensures
        model.best_from(task, count, best, failure) matches Ok(found) && !model.precedes(
            seen,
            found,
        ),
    decreases count - task,
{
    if task < count {
        match model.attempt(task) {
            Ok(found) => {
                let next = if best is None || model.precedes(found, best->Some_0) {
                    Some(found)
                } else {
                    best
                };
                if best is Some && !model.precedes(seen, best->Some_0) {
                    if model.precedes(found, best->Some_0) {
                        lemma_precedes_transitive(model, seen, best->Some_0, found);
                    }
                } else if found == seen {
                    lemma_precedes_strict(model, seen, seen);
                }
                lemma_best_is_minimal(model, task + 1, count, next, failure, seen);
            },
            Err(error) => {
                let next = if failure is None {
                    Some(error)
                } else {
                    failure
                };
                lemma_best_is_minimal(model, task + 1, count, best, next, seen);
            },
        }
    }
}

/// A search succeeds as soon as one attempt does, and no attempt finds a
/// better route than the one that comes back.
pub proof fn search_finds_the_best_attempt(model: SearchModel, task: int)
    requires
        0 <= task < model.fixed_starts() + model.config.restart_count,
        model.attempt(task) is Ok,
    ensures
        model.search() matches Ok(found) && !model.precedes(model.attempt(task)->Ok_0, found),
{
    lemma_best_is_minimal(
        model,
        0,
        model.fixed_starts() + model.config.restart_count,
        None,
        None,
        model.attempt(task)->Ok_0,
    );
}

proof fn lemma_attempts_are_repeat_safe(
    model: SearchModel,
    task: int,
    count: int,
    best: Option<FoundRoute>,
    failure: Option<SearchFailure>,
)
    requires
        best matches Some(found) ==> repeat_safe(found.route, model.tracks, model.config),
    ensures
        model.best_from(task, count, best, failure) matches Ok(found) ==> repeat_safe(
            found.route,
            model.tracks,
            model.config,
        ),
    decreases count - task,
{
    if task < count {
        match model.attempt(task) {
            Ok(found) => {
                violations_empty_iff_repeat_safe(found.route, model.tracks, model.config);
                let next = if best is None || model.precedes(found, best->Some_0) {
                    Some(found)
                } else {
                    best
                };
                lemma_attempts_are_repeat_safe(model, task + 1, count, next, failure);
            },
            Err(error) => {
                let next = if failure is None {
                    Some(error)
                } else {
                    failure
                };
                lemma_attempts_are_repeat_safe(model, task + 1, count, best, next);
            },
        }
    }
}

/// What a search finds repeats neither an artist nor an album within its window.
pub proof fn found_routes_are_repeat_safe(model: SearchModel)
    ensures
        model.search() matches Ok(found) ==> repeat_safe(found.route, model.tracks, model.config),
{
    lemma_attempts_are_repeat_safe(
        model,
        0,
        model.fixed_starts() + model.config.restart_count,
        None,
        None,
    );
}

/// Both candidates of a successful search, the plain route and the one along the
/// arc, repeat neither an artist nor an album within its window. The selected
/// route is one of the two, and no repeats are reported of it.
pub proof fn every_route_is_repeat_safe(
    scoring: Scoring,
    tracks: Seq<RouteTrack>,
    config: SearchConfig,
)
    ensures
        optimized(scoring, tracks, config) matches Ok(result) ==> {
            &&& repeat_safe(result.primary.route, tracks, config)
            &&& repeat_safe(result.arc.route, tracks, config)
            &&& repeat_safe(result.selected.route, tracks, config)
            &&& result.violations.len() == 0
            &&& result.selected == result.primary || result.selected == result.arc
        },
{
    if let Ok(result) = optimized(scoring, tracks, config) {
        found_routes_are_repeat_safe(SearchModel { scoring, tracks, config, arc: None });
        found_routes_are_repeat_safe(
            SearchModel { scoring, tracks, config, arc: Some(arc_of(tracks)) },
        );
    }
}

proof fn lemma_reversals_scored_truly(
    model: SearchModel,
    route: Seq<usize>,
    start: int,
    end: int,
    best: ScoredRoute,
)
    requires
        scored_truly(model, best),
    ensures
        model.try_reversals(route, start, end, best) matches Ok(next) ==> scored_truly(model, next),
    decreases route.len() - start, route.len() - end,
{
    if start + 1 >= route.len() {
    } else if end >= route.len() {
        lemma_reversals_scored_truly(model, route, start + 1, start + 2, best);
    } else if let Ok(next) = model.consider(turned(route, start, end), best) {
        lemma_reversals_scored_truly(model, route, start, end + 1, next);
    }
}

proof fn lemma_moves_scored_truly(
    model: SearchModel,
    route: Seq<usize>,
    source: int,
    destination: int,
    best: ScoredRoute,
)
    requires
        scored_truly(model, best),
    ensures
        model.try_moves(route, source, destination, best) matches Ok(next) ==> scored_truly(
            model,
            next,
        ),
    decreases route.len() - source, route.len() - destination,
{
    if source >= route.len() {
    } else if destination >= route.len() {
        lemma_moves_scored_truly(model, route, source + 1, 0, best);
    } else if moved(route, source, destination) == route {
        lemma_moves_scored_truly(model, route, source, destination + 1, best);
    } else if let Ok(next) = model.consider(moved(route, source, destination), best) {
        lemma_moves_scored_truly(model, route, source, destination + 1, next);
    }
}

/// Improving a route keeps its score true.
pub proof fn lemma_improve_scored_truly(model: SearchModel, current: ScoredRoute)
    requires
        scored_truly(model, current),
    ensures
        model.improve(current) matches Ok(best) ==> scored_truly(model, best),
    decreases current.score,
{
    lemma_reversals_scored_truly(model, current.route, 0, 1, current);
    if let Ok(reversed) = model.try_reversals(current.route, 0, 1, current) {
        lemma_moves_scored_truly(model, current.route, 0, 0, reversed);
        if let Ok(best) = model.try_moves(current.route, 0, 0, reversed) {
            if best.score + EPSILON < current.score {
                lemma_improve_scored_truly(model, best);
            }
        }
    }
}

/// Improving a route never raises its score.
pub proof fn lemma_improve_never_raises(model: SearchModel, current: ScoredRoute)
    ensures
        model.improve(current) matches Ok(best) ==> best.score <= current.score,
    decreases current.score,
{
    if let Ok(best) = model.best_neighbor(current) {
        if best.score + EPSILON < current.score {
            lemma_improve_never_raises(model, best);
        }
    }
}

/// Whether a neighbour that scores this much does not improve on a found route.
pub open spec fn holds_against(
    model: SearchModel,
    found: FoundRoute,
    candidate: Seq<usize>,
    score: nat,
) -> bool {
    neighbors(found.route, candidate) && safely_scores(model, candidate, score) && !nearly_tied(
        model,
        found.route,
        score,
    ) ==> model.score(found.metrics) <= score + EPSILON
}

proof fn lemma_attempt_holds_against(
    model: SearchModel,
    task: int,
    candidate: Seq<usize>,
    score: nat,
)
    ensures
        model.attempt(task) matches Ok(found) ==> holds_against(model, found, candidate, score),
{
    if let Ok(found) = model.attempt(task) {
        let route = model.start(task)->Ok_0;
        let start = ScoredRoute { route, score: model.score(model.metrics(route)->Ok_0) };
        lemma_improve_scored_truly(model, start);
        let best = model.improve(start)->Ok_0;
        assert(found.route == best.route);
        if neighbors(found.route, candidate) && safely_scores(model, candidate, score)
            && !nearly_tied(model, found.route, score) {
            improvement_stops_at_a_local_best(model, start, candidate, score);
        }
    }
}

proof fn lemma_best_holds_against(
    model: SearchModel,
    task: int,
    count: int,
    best: Option<FoundRoute>,
    failure: Option<SearchFailure>,
    candidate: Seq<usize>,
    score: nat,
)
    requires
        best matches Some(found) ==> holds_against(model, found, candidate, score),
    ensures
        model.best_from(task, count, best, failure) matches Ok(found) ==> holds_against(
            model,
            found,
            candidate,
            score,
        ),
    decreases count - task,
{
    if task < count {
        lemma_attempt_holds_against(model, task, candidate, score);
        match model.attempt(task) {
            Ok(found) => {
                let next = if best is None || model.precedes(found, best->Some_0) {
                    Some(found)
                } else {
                    best
                };
                lemma_best_holds_against(
                    model,
                    task + 1,
                    count,
                    next,
                    failure,
                    candidate,
                    score,
                );
            },
            Err(error) => {
                let next = if failure is None {
                    Some(error)
                } else {
                    failure
                };
                lemma_best_holds_against(model, task + 1, count, best, next, candidate, score);
            },
        }
    }
}

/// No reversal or move that keeps the windows lowers the score of the route that
/// a search finds by more than `EPSILON`, unless its score is nearly tied with
/// that of another neighbour.
pub proof fn found_routes_are_local_bests(
    model: SearchModel,
    candidate: Seq<usize>,
    score: nat,
)
    ensures
        model.search() matches Ok(found) ==> holds_against(model, found, candidate, score),
{
    lemma_best_holds_against(
        model,
        0,
        model.fixed_starts() + model.config.restart_count,
        None,
        None,
        candidate,
        score,
    );
}

/// The route that follows the arc is taken exactly where its objective is at
/// most eight hundredths above the plain one's and its distance from the arc at
/// least a tenth smaller. So the selected route is never worse than that.
pub proof fn arc_is_taken_only_when_it_is_close(
    scoring: Scoring,
    tracks: Seq<RouteTrack>,
    config: SearchConfig,
)
    ensures
        optimized(scoring, tracks, config) matches Ok(result) ==> {
            &&& result.selected == (if prefers_arc(result.primary.metrics, result.arc.metrics) {
                result.arc
            } else {
                result.primary
            })
            &&& result.selected.metrics.objective * 100 <= result.primary.metrics.objective * 108
            &&& result.selected.metrics.arc_error <= result.primary.metrics.arc_error
        },
{
}

} // verus!
