//! Ordering a fixed set of tracks into one route.

use crate::contextual::{
    adaptive_distance_from_seeds, context_distance, AdaptiveScorer, ContextualError, Scoring,
};
use crate::random::{
    derived_seed, derived_seed_value, draw, drawn_start, drawn_words, leaning_pick, pick,
};
use crate::route_laws::{
    greedy_routes_visit_all, improvement_is_sound, intensity_order_visits_all,
    every_route_is_repeat_safe, visits_all,
};
use crate::sequences::{
    ascending, ascending_route, copied, find_outside, find_position, first_outside, in_range,
    lex_less, lemma_position_of_member, lemma_views_push, position, precedes_lexically, same_route,
    views,
};
use crate::sorting::{sort_by, stable_sort, stable_sort_same_members};
use crate::text::{decimal, text_around, text_with_number};
use crate::units::{at_most_ratio, fraction, fraction_units, EPSILON};
use vstd::prelude::*;
use vstd::string::*;

verus! {

/// How many of the best successors a random route draws from.
pub const GREEDY_WIDTH: usize = 4;

/// A track as route search sees it. A feature is the integer that ranks with
/// its floating-point value.
#[derive(Debug)]
pub struct RouteTrack {
    pub features: [i32; 23],
    pub artist_key: String,
    pub album_key: String,
}

impl Clone for RouteTrack {
    fn clone(&self) -> (copy: Self)
        ensures
            copy == *self,
    {
        RouteTrack {
            features: self.features,
            artist_key: self.artist_key.clone(),
            album_key: self.album_key.clone(),
        }
    }
}

/// What a route search is asked for.
#[derive(Clone, Copy, Debug, PartialEq, Eq)]
pub struct SearchConfig {
    pub seed_limit: usize,
    pub learned_percent: u16,
    pub deterministic_seed: u64,
    pub restart_count: usize,
    pub artist_window: usize,
    pub album_window: usize,
}

/// The measures of a route as numbers.
pub struct RouteMetricsView {
    pub transition_sum: nat,
    pub worst_transition: nat,
    pub objective: nat,
    pub arc_error: nat,
}

/// The measures of a route.
#[derive(Clone, Copy, Debug, PartialEq, Eq)]
pub struct RouteMetrics {
    pub transition_sum: u128,
    pub worst_transition: u64,
    pub objective: u128,
    pub arc_error: u128,
}

impl View for RouteMetrics {
    type V = RouteMetricsView;

    open spec fn view(&self) -> RouteMetricsView {
        RouteMetricsView {
            transition_sum: self.transition_sum as nat,
            worst_transition: self.worst_transition as nat,
            objective: self.objective as nat,
            arc_error: self.arc_error as nat,
        }
    }
}

/// Two positions of a route that repeat an artist or an album too soon.
#[verifier::ext_equal]
pub struct RepeatViolationView {
    pub kind: Seq<char>,
    pub positions: Seq<usize>,
}

/// Two positions of a route that repeat an artist or an album too soon.
#[derive(Clone, Debug, PartialEq, Eq)]
pub struct RepeatViolation {
    pub kind: &'static str,
    pub positions: [usize; 2],
}

impl View for RepeatViolation {
    type V = RepeatViolationView;

    open spec fn view(&self) -> RepeatViolationView {
        RepeatViolationView { kind: self.kind@, positions: self.positions@ }
    }
}

/// A route that a search strategy found.
#[verifier::ext_equal]
pub struct CandidateRouteView {
    pub strategy: Seq<char>,
    pub route: Seq<usize>,
    pub metrics: RouteMetricsView,
}

/// A route that a search strategy found.
#[derive(Clone, Debug, PartialEq)]
pub struct CandidateRoute {
    pub strategy: &'static str,
    pub route: Vec<usize>,
    pub metrics: RouteMetrics,
}

impl View for CandidateRoute {
    type V = CandidateRouteView;

    open spec fn view(&self) -> CandidateRouteView {
        CandidateRouteView {
            strategy: self.strategy@,
            route: self.route@,
            metrics: self.metrics@,
        }
    }
}

/// What a route search returns.
#[verifier::ext_equal]
pub struct RouteSearchResultView {
    pub primary: CandidateRouteView,
    pub arc: CandidateRouteView,
    pub selected: CandidateRouteView,
    pub violations: Seq<RepeatViolationView>,
    pub search_tasks: int,
}

/// What a route search returns.
#[derive(Clone, Debug, PartialEq)]
pub struct RouteSearchResult {
    pub primary: CandidateRoute,
    pub arc: CandidateRoute,
    pub selected: CandidateRoute,
    pub violations: Vec<RepeatViolation>,
    pub search_tasks: usize,
}

impl View for RouteSearchResult {
    type V = RouteSearchResultView;

    open spec fn view(&self) -> RouteSearchResultView {
        RouteSearchResultView {
            primary: self.primary@,
            arc: self.arc@,
            selected: self.selected@,
            violations: views(self.violations@),
            search_tasks: self.search_tasks as int,
        }
    }
}

/// Why no route comes back.
#[verifier::ext_equal]
pub enum RouteErrorView {
    TooFewTracks,
    InvalidSeedLimit,
    InvalidLearnedPercent(u16),
    Scoring(Seq<char>),
    Infeasible,
}

/// Why no route comes back.
#[derive(Clone, Debug, PartialEq, Eq)]
pub enum RouteError {
    TooFewTracks,
    InvalidSeedLimit,
    InvalidLearnedPercent(u16),
    Scoring(String),
    Infeasible,
}

impl View for RouteError {
    type V = RouteErrorView;

    open spec fn view(&self) -> RouteErrorView {
        match self {
            RouteError::TooFewTracks => RouteErrorView::TooFewTracks,
            RouteError::InvalidSeedLimit => RouteErrorView::InvalidSeedLimit,
            RouteError::InvalidLearnedPercent(value) => {
                RouteErrorView::InvalidLearnedPercent(*value)
            },
            RouteError::Scoring(message) => RouteErrorView::Scoring(message@),
            RouteError::Infeasible => RouteErrorView::Infeasible,
        }
    }
}

impl RouteErrorView {
    /// The text of the message for this error.
    pub open spec fn text(self) -> Seq<char> {
        match self {
            RouteErrorView::TooFewTracks => "route search requires at least two tracks"@,
            RouteErrorView::InvalidSeedLimit => "adaptive seed limit must be at least one"@,
            RouteErrorView::InvalidLearnedPercent(value) => "learned matrix percentage "@ + decimal(
                value as int,
            ) + " is outside 0..=100"@,
            RouteErrorView::Scoring(message) => "adaptive route scoring failed: "@ + message + ""@,
            RouteErrorView::Infeasible => "no route satisfies the configured repeat windows"@,
        }
    }
}

impl RouteError {
    /// Says what went wrong.
    pub fn message(&self) -> (text: String)
        ensures
            text@ == self@.text(),
    {
        match self {
            RouteError::TooFewTracks => "route search requires at least two tracks".to_owned(),
            RouteError::InvalidSeedLimit => "adaptive seed limit must be at least one".to_owned(),
            RouteError::InvalidLearnedPercent(value) => text_with_number(
                "learned matrix percentage ",
                *value as u64,
                " is outside 0..=100",
            ),
            RouteError::Scoring(message) => text_around(
                "adaptive route scoring failed: ",
                message.as_str(),
                "",
            ),
            RouteError::Infeasible => "no route satisfies the configured repeat windows".to_owned(),
        }
    }
}

// Repeats.

/// Whether two tracks share a known artist.
pub open spec fn artist_clash(tracks: Seq<RouteTrack>, a: usize, b: usize) -> bool {
    tracks[b as int].artist_key@.len() > 0 && tracks[a as int].artist_key@
        == tracks[b as int].artist_key@
}

/// Whether two tracks share a known album.
pub open spec fn album_clash(tracks: Seq<RouteTrack>, a: usize, b: usize) -> bool {
    tracks[b as int].album_key@.len() > 0 && tracks[a as int].album_key@
        == tracks[b as int].album_key@
}

/// Decides whether two tracks share a known artist.
pub fn artists_clash(tracks: &[RouteTrack], a: usize, b: usize) -> (clash: bool)
    requires
        a < tracks@.len(),
        b < tracks@.len(),
    ensures
        clash == artist_clash(tracks@, a, b),
{
    !tracks[b].artist_key.as_str().is_empty() && tracks[a].artist_key == tracks[b].artist_key
}

/// Decides whether two tracks share a known album.
pub fn albums_clash(tracks: &[RouteTrack], a: usize, b: usize) -> (clash: bool)
    requires
        a < tracks@.len(),
        b < tracks@.len(),
    ensures
        clash == album_clash(tracks@, a, b),
{
    !tracks[b].album_key.as_str().is_empty() && tracks[a].album_key == tracks[b].album_key
}

/// Whether the artists at two positions repeat within the window.
pub open spec fn artist_repeats(
    route: Seq<usize>,
    tracks: Seq<RouteTrack>,
    window: usize,
    left: int,
    right: int,
) -> bool {
    right - left <= window && artist_clash(tracks, route[left], route[right])
}

/// Whether the albums at two positions repeat within the window.
pub open spec fn album_repeats(
    route: Seq<usize>,
    tracks: Seq<RouteTrack>,
    window: usize,
    left: int,
    right: int,
) -> bool {
    right - left <= window && album_clash(tracks, route[left], route[right])
}

/// The repeats between two positions, the artist first.
pub open spec fn pair_violations(
    route: Seq<usize>,
    tracks: Seq<RouteTrack>,
    config: SearchConfig,
    left: int,
    right: int,
) -> Seq<RepeatViolationView> {
    let artist = if artist_repeats(route, tracks, config.artist_window, left, right) {
        seq![
            RepeatViolationView {
                kind: "artist"@,
                positions: seq![left as usize, right as usize],
            },
        ]
    } else {
        seq![]
    };
    let album = if album_repeats(route, tracks, config.album_window, left, right) {
        seq![
            RepeatViolationView { kind: "album"@, positions: seq![left as usize, right as usize] },
        ]
    } else {
        seq![]
    };
    artist + album
}

/// The repeats between position `right` and the first `count` positions.
pub open spec fn violations_at(
    route: Seq<usize>,
    tracks: Seq<RouteTrack>,
    config: SearchConfig,
    right: int,
    count: int,
) -> Seq<RepeatViolationView>
    decreases count,
{
    if count <= 0 {
        seq![]
    } else {
        violations_at(route, tracks, config, right, count - 1) + pair_violations(
            route,
            tracks,
            config,
            count - 1,
            right,
        )
    }
}

/// The repeats among the first `count` positions.
pub open spec fn violations_upto(
    route: Seq<usize>,
    tracks: Seq<RouteTrack>,
    config: SearchConfig,
    count: int,
) -> Seq<RepeatViolationView>
    decreases count,
{
    if count <= 0 {
        seq![]
    } else {
        violations_upto(route, tracks, config, count - 1) + violations_at(
            route,
            tracks,
            config,
            count - 1,
            count - 1,
        )
    }
}

/// All repeats of a route, by their right position and then their left one.
pub open spec fn violations(
    route: Seq<usize>,
    tracks: Seq<RouteTrack>,
    config: SearchConfig,
) -> Seq<RepeatViolationView> {
    violations_upto(route, tracks, config, route.len() as int)
}

/// Lists the repeats of a route.
pub fn repeat_violations(
    route: &[usize],
    tracks: &[RouteTrack],
    config: &SearchConfig,
) -> (found: Vec<RepeatViolation>)
    requires
        in_range(route@, tracks@.len() as int),
    ensures
        views(found@) == violations(route@, tracks@, *config),
{
    let mut found: Vec<RepeatViolation> = Vec::new();
    let mut right: usize = 0;
    assert(views(found@) =~= seq![]);
    while right < route.len()
        invariant
            right <= route@.len(),
            in_range(route@, tracks@.len() as int),
            views(found@) == violations_upto(route@, tracks@, *config, right as int),
        decreases route@.len() - right,
    {
        let ghost before = views(found@);
        let mut left: usize = 0;
        assert(before + seq![] =~= before);
        while left < right
            invariant
                left <= right < route@.len(),
                in_range(route@, tracks@.len() as int),
                views(found@) == before + violations_at(
                    route@,
                    tracks@,
                    *config,
                    right as int,
                    left as int,
                ),
            decreases right - left,
        {
            let ghost earlier = views(found@);
            let distance: usize = right - left;
            let ghost start = found@;
            if config.artist_window > 0 && distance <= config.artist_window && artists_clash(
                tracks,
                route[left],
                route[right],
            ) {
                found.push(RepeatViolation { kind: "artist", positions: [left, right] });
                proof {
                    lemma_views_push(start, found@.last());
                    assert(found@ =~= start.push(found@.last()));
                    assert(found@.last()@.positions =~= seq![left, right]);
                }
            }
            let ghost middle = found@;
            if config.album_window > 0 && distance <= config.album_window && albums_clash(
                tracks,
                route[left],
                route[right],
            ) {
                found.push(RepeatViolation { kind: "album", positions: [left, right] });
                proof {
                    lemma_views_push(middle, found@.last());
                    assert(found@ =~= middle.push(found@.last()));
                    assert(found@.last()@.positions =~= seq![left, right]);
                }
            }
            proof {
                let pair = pair_violations(route@, tracks@, *config, left as int, right as int);
                assert(views(found@) =~= earlier + pair);
                assert(before + (violations_at(route@, tracks@, *config, right as int, left as int)
                    + pair) =~= earlier + pair);
            }
            left += 1;
        }
        right += 1;
    }
    found
}

/// Whether two positions repeat neither an artist nor an album within its window.
pub open spec fn pair_safe(
    route: Seq<usize>,
    tracks: Seq<RouteTrack>,
    config: SearchConfig,
    left: int,
    right: int,
) -> bool {
    &&& !artist_repeats(route, tracks, config.artist_window, left, right)
    &&& !album_repeats(route, tracks, config.album_window, left, right)
}

/// Whether no two positions repeat an artist or an album within its window.
pub open spec fn repeat_safe(
    route: Seq<usize>,
    tracks: Seq<RouteTrack>,
    config: SearchConfig,
) -> bool {
    forall|left: int, right: int|
        0 <= left < right < route.len() ==> #[trigger] pair_safe(
            route,
            tracks,
            config,
            left,
            right,
        )
}

proof fn lemma_violations_at_empty(
    route: Seq<usize>,
    tracks: Seq<RouteTrack>,
    config: SearchConfig,
    right: int,
    count: int,
)
    requires
        0 <= count,
    ensures
        (violations_at(route, tracks, config, right, count).len() == 0) == (forall|left: int|
            0 <= left < count ==> #[trigger] pair_safe(route, tracks, config, left, right)),
    decreases count,
{
    if count > 0 {
        let last = count - 1;
        lemma_violations_at_empty(route, tracks, config, right, last);
        let pair = pair_violations(route, tracks, config, last, right);
        assert((pair.len() == 0) == pair_safe(route, tracks, config, last, right));
    }
}

proof fn lemma_violations_upto_empty(
    route: Seq<usize>,
    tracks: Seq<RouteTrack>,
    config: SearchConfig,
    count: int,
)
    requires
        0 <= count <= route.len(),
    ensures
        (violations_upto(route, tracks, config, count).len() == 0) == (forall|
            left: int,
            right: int,
        |
            0 <= left < right < count ==> #[trigger] pair_safe(
                route,
                tracks,
                config,
                left,
                right,
            )),
    decreases count,
{
    if count > 0 {
        let last = count - 1;
        lemma_violations_upto_empty(route, tracks, config, last);
        lemma_violations_at_empty(route, tracks, config, last, last);
    }
}

/// A route has no violation exactly when every two of its positions are far
/// enough apart or differ in artist and album.
pub proof fn violations_empty_iff_repeat_safe(
    route: Seq<usize>,
    tracks: Seq<RouteTrack>,
    config: SearchConfig,
)
    ensures
        violations(route, tracks, config).len() == 0 <==> repeat_safe(route, tracks, config),
{
    lemma_violations_upto_empty(route, tracks, config, route.len() as int);
}

// Measures.

/// Where a window of at most `limit` items that ends at `len` begins.
pub open spec fn window_start(len: int, limit: int) -> int {
    if len > limit {
        len - limit
    } else {
        0
    }
}

/// The last `limit` tracks of a route.
pub open spec fn recent(route: Seq<usize>, limit: usize) -> Seq<usize> {
    route.subrange(window_start(route.len() as int, limit as int), route.len() as int)
}

/// The last `limit` tracks of a route.
pub fn recent_window(route: &[usize], limit: usize) -> (window: &[usize])
    ensures
        window@ == recent(route@, limit),
{
    let start: usize = if route.len() > limit { route.len() - limit } else { 0 };
    vstd::slice::slice_subrange(route, start, route.len())
}

/// What a route is measured by: the intensity of every track, and the
/// intensity that every position should have.
#[verifier::ext_equal]
pub struct ArcView {
    pub intensities: Seq<u64>,
    pub targets: Seq<u64>,
}

/// Intensities per track and targets per position.
pub struct ArcContext {
    pub intensities: Vec<u64>,
    pub targets: Vec<u64>,
}

impl View for ArcContext {
    type V = ArcView;

    open spec fn view(&self) -> ArcView {
        ArcView { intensities: self.intensities@, targets: self.targets@ }
    }
}

/// Everything that a route search looks at.
pub struct SearchModel {
    pub scoring: Scoring,
    pub tracks: Seq<RouteTrack>,
    pub config: SearchConfig,
    pub arc: Option<ArcView>,
}

/// The distance of `candidate` from the recent tracks of `prefix`.
pub open spec fn append_distance(
    scoring: Scoring,
    prefix: Seq<usize>,
    candidate: usize,
    seed_limit: usize,
    learned_percent: u16,
) -> Result<u64, ContextualError> {
    context_distance(scoring, recent(prefix, seed_limit), learned_percent, candidate)
}

/// The sum and the largest of the distances into the positions from `position`
/// on, added to what came before, or the first error.
pub open spec fn legs_from(
    scoring: Scoring,
    route: Seq<usize>,
    seed_limit: usize,
    learned_percent: u16,
    position: int,
    sum: nat,
    worst: nat,
) -> Result<(nat, nat), ContextualError>
    decreases route.len() - position,
{
    if position >= route.len() {
        Ok((sum, worst))
    } else {
        match append_distance(
            scoring,
            route.take(position),
            route[position],
            seed_limit,
            learned_percent,
        ) {
            Err(error) => Err(error),
            Ok(distance) => legs_from(
                scoring,
                route,
                seed_limit,
                learned_percent,
                position + 1,
                sum + distance as nat,
                if distance as nat > worst {
                    distance as nat
                } else {
                    worst
                },
            ),
        }
    }
}

/// How far two numbers lie apart.
pub open spec fn gap_between(a: int, b: int) -> nat {
    if a > b {
        (a - b) as nat
    } else {
        (b - a) as nat
    }
}

/// The summed distance of the first `count` positions from their targets.
pub open spec fn arc_error_upto(route: Seq<usize>, arc: ArcView, count: int) -> nat
    decreases count,
{
    if count <= 0 {
        0
    } else {
        arc_error_upto(route, arc, count - 1) + gap_between(
            arc.intensities[route[count - 1] as int] as int,
            arc.targets[count - 1] as int,
        )
    }
}

/// How far a route strays from its arc.
pub open spec fn arc_error(route: Seq<usize>, arc: Option<ArcView>) -> nat {
    match arc {
        None => 0,
        Some(arc) => arc_error_upto(
            route,
            arc,
            if route.len() < arc.targets.len() {
                route.len() as int
            } else {
                arc.targets.len() as int
            },
        ),
    }
}

/// The measures of a route, or the first scoring error.
pub open spec fn metrics_of(
    scoring: Scoring,
    route: Seq<usize>,
    seed_limit: usize,
    learned_percent: u16,
    arc: Option<ArcView>,
) -> Result<RouteMetricsView, ContextualError> {
    match legs_from(scoring, route, seed_limit, learned_percent, 1, 0, 0) {
        Err(error) => Err(error),
        Ok((sum, worst)) => Ok(
            RouteMetricsView {
                transition_sum: sum,
                worst_transition: worst,
                objective: sum + 2 * worst,
                arc_error: arc_error(route, arc),
            },
        ),
    }
}

impl SearchModel {
    /// The measures of a route under this search.
    pub open spec fn metrics(self, route: Seq<usize>) -> Result<RouteMetricsView, ContextualError> {
        metrics_of(
            self.scoring,
            route,
            self.config.seed_limit,
            self.config.learned_percent,
            self.arc,
        )
    }

    /// The number by which routes are compared: the objective, and for an
    /// arc-aware search twelve hundredths of the arc error on top.
    pub open spec fn score(self, metrics: RouteMetricsView) -> nat {
        score_of(metrics, self.arc is Some)
    }

    /// Whether the numbers of a route can be looked up.
    pub open spec fn covers(self, route: Seq<usize>) -> bool {
        in_range(route, self.tracks.len() as int)
    }
}

/// The number by which routes are compared.
pub open spec fn score_of(metrics: RouteMetricsView, arc_aware: bool) -> nat {
    if arc_aware {
        let total = metrics.objective + 3 * metrics.arc_error / 25;
        if total > u128::MAX {
            u128::MAX as nat
        } else {
            total
        }
    } else {
        metrics.objective
    }
}

/// A search in progress: the engine, the tracks, the request and the arc.
struct Search<'a, P, D> {
    scorer: &'a AdaptiveScorer<P, D>,
    tracks: &'a [RouteTrack],
    config: &'a SearchConfig,
    arc: Option<&'a ArcContext>,
}

impl<
    'a,
    P: Fn(&[usize], u16) -> Result<(), ContextualError>,
    D: Fn(&[usize], u16, &[usize], usize) -> u64,
> Search<'a, P, D> {
    spec fn model(&self) -> SearchModel {
        SearchModel {
            scoring: self.scorer.scoring(),
            tracks: self.tracks@,
            config: *self.config,
            arc: match self.arc {
                None => None,
                Some(arc) => Some(arc@),
            },
        }
    }

    spec fn valid(&self) -> bool {
        &&& self.scorer.valid()
        &&& match self.arc {
            None => true,
            Some(arc) => arc@.intensities.len() == self.tracks@.len(),
        }
    }

    fn append_distance(&self, prefix: &[usize], candidate: usize) -> (distance: Result<
        u64,
        ContextualError,
    >)
        requires
            self.valid(),
        ensures
            distance == append_distance(
                self.model().scoring,
                prefix@,
                candidate,
                self.model().config.seed_limit,
                self.model().config.learned_percent,
            ),
    {
        adaptive_distance_from_seeds(
            recent_window(prefix, self.config.seed_limit),
            candidate,
            self.scorer,
            self.config.learned_percent,
        )
    }

    fn metrics(&self, route: &[usize]) -> (metrics: Result<RouteMetrics, ContextualError>)
        requires
            self.valid(),
            self.model().covers(route@),
        ensures
            match self.model().metrics(route@) {
                Ok(measured) => metrics is Ok && metrics->Ok_0@ == measured,
                Err(error) => metrics is Err && metrics->Err_0 == error,
            },
    {
        let legs = measure_legs(
            route,
            self.scorer,
            self.config.seed_limit,
            self.config.learned_percent,
        );
        match legs {
            Err(error) => Err(error),
            Ok((transition_sum, worst_transition)) => {
                let arc_error: u128 = match self.arc {
                    None => 0,
                    Some(arc) => measure_arc_error(route, arc),
                };
                Ok(
                    RouteMetrics {
                        transition_sum,
                        worst_transition,
                        objective: transition_sum + 2 * (worst_transition as u128),
                        arc_error,
                    },
                )
            },
        }
    }

    fn score(&self, metrics: &RouteMetrics) -> (score: u128)
        ensures
            score == self.model().score(metrics@),
    {
        search_score(metrics, self.arc.is_some())
    }
}

/// Sums the distances along a route and finds the largest.
fn measure_legs<
    P: Fn(&[usize], u16) -> Result<(), ContextualError>,
    D: Fn(&[usize], u16, &[usize], usize) -> u64,
>(
    route: &[usize],
    scorer: &AdaptiveScorer<P, D>,
    seed_limit: usize,
    learned_percent: u16,
) -> (legs: Result<(u128, u64), ContextualError>)
    requires
        scorer.valid(),
    ensures
        match legs_from(scorer.scoring(), route@, seed_limit, learned_percent, 1, 0, 0) {
            Ok((sum, worst)) => legs is Ok && legs->Ok_0.0 == sum && legs->Ok_0.1 == worst,
            Err(error) => legs is Err && legs->Err_0 == error,
        },
        legs matches Ok((sum, worst)) ==> sum + 2 * worst <= u128::MAX,
{
    let mut transition_sum: u128 = 0;
    let mut worst_transition: u64 = 0;
    let mut position: usize = 1;
    while position < route.len()
        invariant
            1 <= position,
            position <= route@.len() || position == 1,
            scorer.valid(),
            transition_sum <= (position - 1) * u64::MAX,
            legs_from(scorer.scoring(), route@, seed_limit, learned_percent, 1, 0, 0) == legs_from(
                scorer.scoring(),
                route@,
                seed_limit,
                learned_percent,
                position as int,
                transition_sum as nat,
                worst_transition as nat,
            ),
        decreases route@.len() - position,
    {
        let prefix = vstd::slice::slice_subrange(route, 0, position);
        assert(prefix@ =~= route@.take(position as int));
        match adaptive_distance_from_seeds(
            recent_window(prefix, seed_limit),
            route[position],
            scorer,
            learned_percent,
        ) {
            Err(error) => {
                return Err(error);
            },
            Ok(distance) => {
                assert(position * u64::MAX == (position - 1) * u64::MAX + u64::MAX)
                    by (nonlinear_arith);
                transition_sum = transition_sum + distance as u128;
                if distance > worst_transition {
                    worst_transition = distance;
                }
                position += 1;
            },
        }
    }
    Ok((transition_sum, worst_transition))
}

/// Sums how far a route strays from its arc.
fn measure_arc_error(route: &[usize], arc: &ArcContext) -> (error: u128)
    requires
        in_range(route@, arc@.intensities.len() as int),
    ensures
        error == arc_error(route@, Some(arc@)),
{
    let mut error: u128 = 0;
    let mut at: usize = 0;
    while at < route.len() && at < arc.targets.len()
        invariant
            at <= route@.len(),
            at <= arc@.targets.len(),
            in_range(route@, arc@.intensities.len() as int),
            error == arc_error_upto(route@, arc@, at as int),
            error <= at * u64::MAX,
        decreases route@.len() - at,
    {
        let intensity: u64 = arc.intensities[route[at]];
        let target: u64 = arc.targets[at];
        let stray: u64 = if intensity > target {
            intensity - target
        } else {
            target - intensity
        };
        assert((at + 1) * u64::MAX == at * u64::MAX + u64::MAX) by (nonlinear_arith);
        assert(at * u64::MAX <= (u64::MAX - 1) * u64::MAX) by (nonlinear_arith)
            requires
                at < u64::MAX,
        ;
        error = error + stray as u128;
        at += 1;
    }
    error
}

/// Computes the number by which routes are compared.
pub fn search_score(metrics: &RouteMetrics, arc_aware: bool) -> (score: u128)
    ensures
        score == score_of(metrics@, arc_aware),
{
    if arc_aware {
        let placement: u128 = 3 * (metrics.arc_error / 25) + (3 * (metrics.arc_error % 25)) / 25;
        assert(placement == 3 * metrics.arc_error as int / 25) by {
            let whole = metrics.arc_error as int / 25;
            let rest = metrics.arc_error as int % 25;
            assert(3 * metrics.arc_error == 25 * (3 * whole) + 3 * rest);
        }
        if metrics.objective > u128::MAX - placement {
            u128::MAX
        } else {
            metrics.objective + placement
        }
    } else {
        metrics.objective
    }
}

/// Measures a sequence of tracks as it stands.
pub fn evaluate_adaptive_sequence<
    P: Fn(&[usize], u16) -> Result<(), ContextualError>,
    D: Fn(&[usize], u16, &[usize], usize) -> u64,
>(
    route: &[usize],
    tracks: &[RouteTrack],
    scorer: &AdaptiveScorer<P, D>,
    seed_limit: usize,
    learned_percent: u16,
) -> (metrics: Result<RouteMetrics, RouteError>)
    requires
        scorer.valid(),
    ensures
        match sequence_metrics(
            scorer.scoring(),
            route@,
            tracks@.len() as int,
            seed_limit,
            learned_percent,
        ) {
            Ok(measured) => metrics is Ok && metrics->Ok_0@ == measured,
            Err(error) => metrics is Err && metrics->Err_0@ == error,
        },
{
    if route.len() < 2 {
        return Err(RouteError::TooFewTracks);
    }
    if seed_limit == 0 {
        return Err(RouteError::InvalidSeedLimit);
    }
    if learned_percent > 100 {
        return Err(RouteError::InvalidLearnedPercent(learned_percent));
    }
    if let Some(index) = find_outside(route, tracks.len()) {
        let mut message = text_with_number("invalid track index ", index as u64, " for ");
        crate::text::append_decimal(&mut message, tracks.len() as u64);
        message.append(" tracks");
        return Err(RouteError::Scoring(message));
    }
    match measure_legs(route, scorer, seed_limit, learned_percent) {
        Err(error) => Err(RouteError::Scoring(error.message())),
        Ok((transition_sum, worst_transition)) => Ok(
            RouteMetrics {
                transition_sum,
                worst_transition,
                objective: transition_sum + 2 * (worst_transition as u128),
                arc_error: 0,
            },
        ),
    }
}

/// The measures of a sequence, or why there are none.
pub open spec fn sequence_metrics(
    scoring: Scoring,
    route: Seq<usize>,
    track_count: int,
    seed_limit: usize,
    learned_percent: u16,
) -> Result<RouteMetricsView, RouteErrorView> {
    if route.len() < 2 {
        Err(RouteErrorView::TooFewTracks)
    } else if seed_limit == 0 {
        Err(RouteErrorView::InvalidSeedLimit)
    } else if learned_percent > 100 {
        Err(RouteErrorView::InvalidLearnedPercent(learned_percent))
    } else if first_outside(route, track_count) < route.len() {
        Err(
            RouteErrorView::Scoring(
                "invalid track index "@ + decimal(route[first_outside(route, track_count)] as int)
                    + " for "@ + decimal(track_count) + " tracks"@,
            ),
        )
    } else {
        match metrics_of(scoring, route, seed_limit, learned_percent, None) {
            Ok(measured) => Ok(measured),
            Err(error) => Err(RouteErrorView::Scoring(error.text())),
        }
    }
}

// Improving a route.

/// A route and its score.
#[verifier::ext_equal]
pub struct ScoredRoute {
    pub route: Seq<usize>,
    pub score: nat,
}

/// `route` with the positions from `start` to `end` turned round.
pub open spec fn turned(route: Seq<usize>, start: int, end: int) -> Seq<usize> {
    Seq::new(
        route.len(),
        |i: int|
            if start <= i <= end {
                route[start + end - i]
            } else {
                route[i]
            },
    )
}

/// Where position `i` of a route comes from when one track moves from `source`
/// to `destination`.
pub open spec fn moved_from(source: int, destination: int, i: int) -> int {
    if i == destination {
        source
    } else {
        let rest = if i < destination {
            i
        } else {
            i - 1
        };
        if rest < source {
            rest
        } else {
            rest + 1
        }
    }
}

/// `route` with the track at `source` moved to `destination`.
pub open spec fn moved(route: Seq<usize>, source: int, destination: int) -> Seq<usize> {
    Seq::new(route.len(), |i: int| route[moved_from(source, destination, i)])
}

impl SearchModel {
    /// The better of a neighbour and the best route so far. A neighbour that
    /// repeats too soon is passed over; one within `EPSILON` of the best wins
    /// by dictionary order.
    pub open spec fn consider(self, candidate: Seq<usize>, best: ScoredRoute) -> Result<
        ScoredRoute,
        ContextualError,
    > {
        if violations(candidate, self.tracks, self.config).len() > 0 {
            Ok(best)
        } else {
            match self.metrics(candidate) {
                Err(error) => Err(error),
                Ok(metrics) => {
                    let score = self.score(metrics);
                    if score + EPSILON < best.score || (gap_between(score as int, best.score as int)
                        <= EPSILON && lex_less(candidate, best.route)) {
                        Ok(ScoredRoute { route: candidate, score })
                    } else {
                        Ok(best)
                    }
                },
            }
        }
    }

    /// The best route once every reversal from (`start`, `end`) on is considered.
    pub open spec fn try_reversals(
        self,
        route: Seq<usize>,
        start: int,
        end: int,
        best: ScoredRoute,
    ) -> Result<ScoredRoute, ContextualError>
        decreases route.len() - start, route.len() - end,
    {
        if start + 1 >= route.len() {
            Ok(best)
        } else if end >= route.len() {
            self.try_reversals(route, start + 1, start + 2, best)
        } else {
            match self.consider(turned(route, start, end), best) {
                Err(error) => Err(error),
                Ok(next) => self.try_reversals(route, start, end + 1, next),
            }
        }
    }

    /// The best route once every move from (`source`, `destination`) on is considered.
    pub open spec fn try_moves(
        self,
        route: Seq<usize>,
        source: int,
        destination: int,
        best: ScoredRoute,
    ) -> Result<ScoredRoute, ContextualError>
        decreases route.len() - source, route.len() - destination,
    {
        if source >= route.len() {
            Ok(best)
        } else if destination >= route.len() {
            self.try_moves(route, source + 1, 0, best)
        } else if moved(route, source, destination) == route {
            self.try_moves(route, source, destination + 1, best)
        } else {
            match self.consider(moved(route, source, destination), best) {
                Err(error) => Err(error),
                Ok(next) => self.try_moves(route, source, destination + 1, next),
            }
        }
    }

    /// The best of a route and all its neighbours.
    pub open spec fn best_neighbor(self, current: ScoredRoute) -> Result<
        ScoredRoute,
        ContextualError,
    > {
        match self.try_reversals(current.route, 0, 1, current) {
            Err(error) => Err(error),
            Ok(best) => self.try_moves(current.route, 0, 0, best),
        }
    }

    /// The route at which following best neighbours stops improving.
    pub open spec fn improve(self, current: ScoredRoute) -> Result<ScoredRoute, ContextualError>
        decreases current.score,
    {
        match self.best_neighbor(current) {
            Err(error) => Err(error),
            Ok(best) => if best.score + EPSILON < current.score {
                self.improve(best)
            } else {
                Ok(current)
            },
        }
    }
}

/// Turns round a stretch of a route.
fn turned_route(route: &[usize], start: usize, end: usize) -> (candidate: Vec<usize>)
    requires
        start < end < route@.len(),
    ensures
        candidate@ == turned(route@, start as int, end as int),
{
    let mut candidate: Vec<usize> = Vec::new();
    let mut at: usize = 0;
    while at < route.len()
        invariant
            start < end < route@.len(),
            at <= route@.len(),
            candidate@ =~= turned(route@, start as int, end as int).take(at as int),
        decreases route@.len() - at,
    {
        if start <= at && at <= end {
            candidate.push(route[end - (at - start)]);
        } else {
            candidate.push(route[at]);
        }
        at += 1;
    }
    assert(candidate@ =~= turned(route@, start as int, end as int));
    candidate
}

/// Moves one track of a route.
fn moved_route(route: &[usize], source: usize, destination: usize) -> (candidate: Vec<usize>)
    requires
        source < route@.len(),
        destination < route@.len(),
    ensures
        candidate@ == moved(route@, source as int, destination as int),
{
    let mut candidate = copied(route);
    let track: usize = candidate.remove(source);
    candidate.insert(destination, track);
    assert(candidate@ =~= moved(route@, source as int, destination as int));
    candidate
}

impl<
    'a,
    P: Fn(&[usize], u16) -> Result<(), ContextualError>,
    D: Fn(&[usize], u16, &[usize], usize) -> u64,
> Search<'a, P, D> {
    fn consider_neighbor(
        &self,
        candidate: Vec<usize>,
        best_route: &mut Vec<usize>,
        best_score: &mut u128,
    ) -> (outcome: Result<(), ContextualError>)
        requires
            self.valid(),
            self.model().covers(candidate@),
            self.model().covers(old(best_route)@),
        ensures
            match self.model().consider(
                candidate@,
                ScoredRoute { route: old(best_route)@, score: *old(best_score) as nat },
            ) {
                Ok(best) => outcome is Ok && final(best_route)@ == best.route && *final(best_score)
                    == best.score,
                Err(error) => outcome is Err && outcome->Err_0 == error,
            },
            self.model().covers(final(best_route)@),
    {
        let found = repeat_violations(candidate.as_slice(), self.tracks, self.config);
        assert(found@.len() == violations(candidate@, self.tracks@, *self.config).len());
        if found.len() > 0 {
            return Ok(());
        }
        match self.metrics(candidate.as_slice()) {
            Err(error) => Err(error),
            Ok(metrics) => {
                let score: u128 = self.score(&metrics);
                let better: bool = score < *best_score && *best_score - score > EPSILON as u128;
                let near: bool = if score < *best_score {
                    *best_score - score <= EPSILON as u128
                } else {
                    score - *best_score <= EPSILON as u128
                };
                if better || (near && precedes_lexically(
                    candidate.as_slice(),
                    best_route.as_slice(),
                )) {
                    *best_score = score;
                    *best_route = candidate;
                }
                Ok(())
            },
        }
    }

    fn improve_route(&self, start: Vec<usize>, start_score: u128) -> (improved: Result<
        Vec<usize>,
        ContextualError,
    >)
        requires
            self.valid(),
            self.model().covers(start@),
        ensures
            match self.model().improve(
                ScoredRoute { route: start@, score: start_score as nat },
            ) {
                Ok(best) => improved is Ok && improved->Ok_0@ == best.route,
                Err(error) => improved is Err && improved->Err_0 == error,
            },
            improved is Ok ==> self.model().covers(improved->Ok_0@),
    {
        let mut route = start;
        let mut score: u128 = start_score;
        let ghost goal = self.model().improve(
            ScoredRoute { route: start@, score: start_score as nat },
        );
        loop
            invariant
                self.valid(),
                self.model().covers(route@),
                goal == self.model().improve(
                    ScoredRoute { route: start@, score: start_score as nat },
                ),
                goal == self.model().improve(ScoredRoute { route: route@, score: score as nat }),
            decreases score,
        {
            let mut best_route = copied(route.as_slice());
            let mut best_score: u128 = score;
            let ghost current = ScoredRoute { route: route@, score: score as nat };
            assert(best_route@ =~= route@);
            let mut begin: usize = 0;
            while begin < route.len() && begin + 1 < route.len()
                invariant
                    self.valid(),
                    self.model().covers(route@),
                    self.model().covers(best_route@),
                    begin <= route@.len(),
                    current.route == route@,
                    goal == self.model().improve(current),
                    goal == self.model().improve(
                        ScoredRoute { route: start@, score: start_score as nat },
                    ),
                    self.model().try_reversals(route@, 0, 1, current)
                        == self.model().try_reversals(
                        route@,
                        begin as int,
                        begin + 1,
                        ScoredRoute { route: best_route@, score: best_score as nat },
                    ),
                decreases route@.len() - begin,
            {
                let mut end: usize = begin + 1;
                while end < route.len()
                    invariant
                        self.valid(),
                        self.model().covers(route@),
                        self.model().covers(best_route@),
                        begin < end <= route@.len(),
                        begin + 1 < route@.len(),
                        current.route == route@,
                        goal == self.model().improve(current),
                        goal == self.model().improve(
                            ScoredRoute { route: start@, score: start_score as nat },
                        ),
                        self.model().try_reversals(route@, 0, 1, current)
                            == self.model().try_reversals(
                            route@,
                            begin as int,
                            end as int,
                            ScoredRoute { route: best_route@, score: best_score as nat },
                        ),
                    decreases route@.len() - end,
                {
                    let candidate = turned_route(route.as_slice(), begin, end);
                    match self.consider_neighbor(candidate, &mut best_route, &mut best_score) {
                        Err(error) => {
                            return Err(error);
                        },
                        Ok(_) => {},
                    }
                    end += 1;
                }
                begin += 1;
            }
            let mut source: usize = 0;
            let ghost reversed = ScoredRoute { route: best_route@, score: best_score as nat };
            assert(self.model().try_reversals(route@, 0, 1, current) == Ok::<
                ScoredRoute,
                ContextualError,
            >(reversed));
            while source < route.len()
                invariant
                    self.valid(),
                    self.model().covers(route@),
                    self.model().covers(best_route@),
                    source <= route@.len(),
                    current.route == route@,
                    goal == self.model().improve(current),
                    goal == self.model().improve(
                        ScoredRoute { route: start@, score: start_score as nat },
                    ),
                    self.model().best_neighbor(current) == self.model().try_moves(
                        route@,
                        source as int,
                        0,
                        ScoredRoute { route: best_route@, score: best_score as nat },
                    ),
                decreases route@.len() - source,
            {
                let mut destination: usize = 0;
                while destination < route.len()
                    invariant
                        self.valid(),
                        self.model().covers(route@),
                        self.model().covers(best_route@),
                        source < route@.len(),
                        destination <= route@.len(),
                        current.route == route@,
                        goal == self.model().improve(current),
                        goal == self.model().improve(
                            ScoredRoute { route: start@, score: start_score as nat },
                        ),
                        self.model().best_neighbor(current) == self.model().try_moves(
                            route@,
                            source as int,
                            destination as int,
                            ScoredRoute { route: best_route@, score: best_score as nat },
                        ),
                    decreases route@.len() - destination,
                {
                    let candidate = moved_route(route.as_slice(), source, destination);
                    if !same_route(candidate.as_slice(), route.as_slice()) {
                        match self.consider_neighbor(candidate, &mut best_route, &mut best_score) {
                            Err(error) => {
                                return Err(error);
                            },
                            Ok(_) => {},
                        }
                    }
                    destination += 1;
                }
                source += 1;
            }
            if best_score < score && score - best_score > EPSILON as u128 {
                route = best_route;
                score = best_score;
            } else {
                return Ok(route);
            }
        }
    }
}

// Random starting routes.

/// Whether `candidate` may follow `route` without repeating too soon.
pub open spec fn may_follow(
    route: Seq<usize>,
    candidate: usize,
    tracks: Seq<RouteTrack>,
    config: SearchConfig,
) -> bool {
    &&& forall|i: int|
        window_start(route.len() as int, config.artist_window as int) <= i < route.len()
            ==> !artist_clash(tracks, #[trigger] route[i], candidate)
    &&& forall|i: int|
        window_start(route.len() as int, config.album_window as int) <= i < route.len()
            ==> !album_clash(tracks, #[trigger] route[i], candidate)
}

/// Decides whether a track may follow a route.
pub fn is_feasible_append(
    route: &[usize],
    candidate: usize,
    tracks: &[RouteTrack],
    config: &SearchConfig,
) -> (feasible: bool)
    requires
        in_range(route@, tracks@.len() as int),
        candidate < tracks@.len(),
    ensures
        feasible == may_follow(route@, candidate, tracks@, *config),
{
    let artist_start: usize = if route.len() > config.artist_window {
        route.len() - config.artist_window
    } else {
        0
    };
    let album_start: usize = if route.len() > config.album_window {
        route.len() - config.album_window
    } else {
        0
    };
    let mut at: usize = 0;
    while at < route.len()
        invariant
            at <= route@.len(),
            in_range(route@, tracks@.len() as int),
            candidate < tracks@.len(),
            artist_start == window_start(route@.len() as int, config.artist_window as int),
            album_start == window_start(route@.len() as int, config.album_window as int),
            forall|i: int|
                artist_start <= i < at ==> !artist_clash(tracks@, #[trigger] route@[i], candidate),
            forall|i: int|
                album_start <= i < at ==> !album_clash(tracks@, #[trigger] route@[i], candidate),
        decreases route@.len() - at,
    {
        if at >= artist_start && artists_clash(tracks, route[at], candidate) {
            return false;
        }
        if at >= album_start && albums_clash(tracks, route[at], candidate) {
            return false;
        }
        at += 1;
    }
    true
}

/// A candidate and its distance rank by distance and then by number.
pub open spec fn nearest_first() -> spec_fn((u64, usize), (u64, usize)) -> bool {
    |a: (u64, usize), b: (u64, usize)| a.0 < b.0 || (a.0 == b.0 && a.1 <= b.1)
}

impl SearchModel {
    /// Those of the first `count` remaining tracks that may follow `route`.
    pub open spec fn feasible_upto(
        self,
        route: Seq<usize>,
        remaining: Seq<usize>,
        count: int,
    ) -> Seq<usize>
        decreases count,
    {
        if count <= 0 {
            seq![]
        } else {
            let before = self.feasible_upto(route, remaining, count - 1);
            if may_follow(route, remaining[count - 1], self.tracks, self.config) {
                before.push(remaining[count - 1])
            } else {
                before
            }
        }
    }

    /// The tracks that a random route draws its next one from: those that may
    /// follow, or all when none may.
    pub open spec fn successors(self, route: Seq<usize>, remaining: Seq<usize>) -> Seq<usize> {
        let feasible = self.feasible_upto(route, remaining, remaining.len() as int);
        if feasible.len() == 0 {
            remaining
        } else {
            feasible
        }
    }

    /// The successors from `at` on with their distances, behind those in `done`.
    pub open spec fn distances_from(
        self,
        route: Seq<usize>,
        pool: Seq<usize>,
        at: int,
        done: Seq<(u64, usize)>,
    ) -> Result<Seq<(u64, usize)>, ContextualError>
        decreases pool.len() - at,
    {
        if at >= pool.len() {
            Ok(done)
        } else {
            match append_distance(
                self.scoring,
                route,
                pool[at],
                self.config.seed_limit,
                self.config.learned_percent,
            ) {
                Err(error) => Err(error),
                Ok(distance) => self.distances_from(
                    route,
                    pool,
                    at + 1,
                    done.push((distance, pool[at])),
                ),
            }
        }
    }

    /// The track that a random route takes next.
    pub open spec fn next_track(self, route: Seq<usize>, remaining: Seq<usize>, word: u64) -> Result<
        usize,
        ContextualError,
    > {
        match self.distances_from(route, self.successors(route, remaining), 0, seq![]) {
            Err(error) => Err(error),
            Ok(distances) => {
                let ranked = stable_sort(distances, nearest_first());
                let width = if ranked.len() < GREEDY_WIDTH {
                    ranked.len() as int
                } else {
                    GREEDY_WIDTH as int
                };
                Ok(ranked[leaning_pick(word, width)].1)
            },
        }
    }

    /// `route` continued by the remaining tracks, one for each word.
    pub open spec fn greedy_from(
        self,
        route: Seq<usize>,
        remaining: Seq<usize>,
        words: Seq<u64>,
        step: int,
    ) -> Result<Seq<usize>, ContextualError>
        decreases words.len() - step,
    {
        if remaining.len() == 0 || step >= words.len() {
            Ok(route)
        } else {
            match self.next_track(route, remaining, words[step]) {
                Err(error) => Err(error),
                Ok(track) => self.greedy_from(
                    route.push(track),
                    remaining.remove(position(remaining, track)),
                    words,
                    step + 1,
                ),
            }
        }
    }

    /// The route that starts at track `first` and goes on as `words` decide.
    pub open spec fn greedy(self, first: usize, words: Seq<u64>) -> Result<
        Seq<usize>,
        ContextualError,
    > {
        self.greedy_from(
            seq![first],
            ascending(self.tracks.len() as int).remove(first as int),
            words,
            0,
        )
    }
}

proof fn lemma_feasible_members(
    model: SearchModel,
    route: Seq<usize>,
    remaining: Seq<usize>,
    count: int,
)
    requires
        0 <= count <= remaining.len(),
    ensures
        forall|i: int|
            0 <= i < model.feasible_upto(route, remaining, count).len() ==> remaining.contains(
                #[trigger] model.feasible_upto(route, remaining, count)[i],
            ),
        model.feasible_upto(route, remaining, count).len() <= count,
    decreases count,
{
    if count > 0 {
        lemma_feasible_members(model, route, remaining, count - 1);
        assert(remaining.contains(remaining[count - 1]));
    }
}

proof fn lemma_successor_members(model: SearchModel, route: Seq<usize>, remaining: Seq<usize>)
    ensures
        forall|i: int|
            0 <= i < model.successors(route, remaining).len() ==> remaining.contains(
                #[trigger] model.successors(route, remaining)[i],
            ),
        remaining.len() > 0 ==> model.successors(route, remaining).len() > 0,
{
    lemma_feasible_members(model, route, remaining, remaining.len() as int);
}

proof fn lemma_distances_keep_tracks(
    model: SearchModel,
    route: Seq<usize>,
    pool: Seq<usize>,
    at: int,
    done: Seq<(u64, usize)>,
)
    requires
        done.len() == at,
        0 <= at <= pool.len(),
        forall|i: int| 0 <= i < at ==> (#[trigger] done[i]).1 == pool[i],
    ensures
        model.distances_from(route, pool, at, done) matches Ok(distances) ==> distances.len()
            == pool.len() && forall|i: int|
            0 <= i < pool.len() ==> (#[trigger] distances[i]).1 == pool[i],
    decreases pool.len() - at,
{
    if at < pool.len() {
        match append_distance(
            model.scoring,
            route,
            pool[at],
            model.config.seed_limit,
            model.config.learned_percent,
        ) {
            Err(_) => {},
            Ok(distance) => {
                lemma_distances_keep_tracks(
                    model,
                    route,
                    pool,
                    at + 1,
                    done.push((distance, pool[at])),
                );
            },
        }
    }
}

/// The next track of a random route is one of the remaining ones.
pub proof fn lemma_next_track_remains(
    model: SearchModel,
    route: Seq<usize>,
    remaining: Seq<usize>,
    word: u64,
)
    requires
        remaining.len() > 0,
    ensures
        model.next_track(route, remaining, word) matches Ok(track) ==> remaining.contains(track),
{
    let pool = model.successors(route, remaining);
    lemma_successor_members(model, route, remaining);
    lemma_distances_keep_tracks(model, route, pool, 0, seq![]);
    match model.distances_from(route, pool, 0, seq![]) {
        Err(_) => {},
        Ok(distances) => {
            let ranked = stable_sort(distances, nearest_first());
            stable_sort_same_members(distances, nearest_first());
            let width = if ranked.len() < GREEDY_WIDTH {
                ranked.len() as int
            } else {
                GREEDY_WIDTH as int
            };
            lemma_pick_in_range(word, width);
            let chosen = ranked[leaning_pick(word, width)];
            assert(ranked.contains(chosen));
            assert(distances.contains(chosen));
            let i = choose|i: int| 0 <= i < distances.len() && distances[i] == chosen;
            assert(distances[i].1 == pool[i]);
            assert(remaining.contains(pool[i]));
        },
    }
}

proof fn lemma_pick_in_range(word: u64, width: int)
    requires
        0 < width <= 4,
    ensures
        0 <= leaning_pick(word, width) < width,
{
    let upper = (word / 2048) as int;
    assert(0 <= upper * upper * width < 0x400_0000_0000_0000_0000_0000_0000int * width)
        by (nonlinear_arith)
        requires
            0 <= upper < 0x20_0000_0000_0000,
            0 < width <= 4,
    ;
}

impl<
    'a,
    P: Fn(&[usize], u16) -> Result<(), ContextualError>,
    D: Fn(&[usize], u16, &[usize], usize) -> u64,
> Search<'a, P, D> {
    fn successors(&self, route: &[usize], remaining: &[usize]) -> (pool: Vec<usize>)
        requires
            self.model().covers(route@),
            self.model().covers(remaining@),
        ensures
            pool@ == self.model().successors(route@, remaining@),
    {
        let mut feasible: Vec<usize> = Vec::new();
        let mut at: usize = 0;
        while at < remaining.len()
            invariant
                at <= remaining@.len(),
                self.model().covers(route@),
                self.model().covers(remaining@),
                feasible@ =~= self.model().feasible_upto(route@, remaining@, at as int),
            decreases remaining@.len() - at,
        {
            if is_feasible_append(route, remaining[at], self.tracks, self.config) {
                feasible.push(remaining[at]);
            }
            at += 1;
        }
        if feasible.len() == 0 {
            copied(remaining)
        } else {
            feasible
        }
    }

    fn next_track(&self, route: &[usize], remaining: &[usize], word: u64) -> (next: Result<
        usize,
        ContextualError,
    >)
        requires
            self.valid(),
            self.model().covers(route@),
            self.model().covers(remaining@),
            remaining@.len() > 0,
        ensures
            next == self.model().next_track(route@, remaining@, word),
            next is Ok ==> remaining@.contains(next->Ok_0),
    {
        let pool = self.successors(route, remaining);
        let mut distances: Vec<(u64, usize)> = Vec::new();
        let mut at: usize = 0;
        while at < pool.len()
            invariant
                at <= pool@.len(),
                self.valid(),
                pool@ == self.model().successors(route@, remaining@),
                self.model().distances_from(route@, pool@, 0, seq![])
                    == self.model().distances_from(route@, pool@, at as int, distances@),
            decreases pool@.len() - at,
        {
            match self.append_distance(route, pool[at]) {
                Err(error) => {
                    return Err(error);
                },
                Ok(distance) => {
                    distances.push((distance, pool[at]));
                },
            }
            at += 1;
        }
        proof {
            lemma_successor_members(self.model(), route@, remaining@);
            lemma_distances_keep_tracks(self.model(), route@, pool@, 0, seq![]);
            stable_sort_same_members(distances@, nearest_first());
            lemma_next_track_remains(self.model(), route@, remaining@, word);
        }
        let closer = |a: &(u64, usize), b: &(u64, usize)| -> (first: bool)
            ensures
                first == nearest_first()(*a, *b),
            { a.0 < b.0 || (a.0 == b.0 && a.1 <= b.1) };
        let ranked = sort_by(distances, &closer, Ghost(nearest_first()));
        let width: usize = if ranked.len() < GREEDY_WIDTH { ranked.len() } else { GREEDY_WIDTH };
        Ok(ranked[pick(word, width)].1)
    }

    fn greedy_route_from(&self, first: usize, words: &[u64]) -> (built: Result<
        Vec<usize>,
        ContextualError,
    >)
        requires
            self.valid(),
            first < self.tracks@.len(),
            words@.len() == self.tracks@.len() - 1,
        ensures
            match self.model().greedy(first, words@) {
                Ok(route) => built is Ok && built->Ok_0@ == route,
                Err(error) => built is Err && built->Err_0 == error,
            },
            built is Ok ==> visits_all(built->Ok_0@, self.tracks@.len() as int),
    {
        let count: usize = self.tracks.len();
        proof {
            greedy_routes_visit_all(self.model(), first, words@);
        }
        let mut remaining = ascending_route(count);
        let track: usize = remaining.remove(first);
        let mut route: Vec<usize> = Vec::new();
        route.push(track);
        assert(route@ =~= seq![first]);
        let mut step: usize = 0;
        while remaining.len() > 0
            invariant
                self.valid(),
                self.model().covers(route@),
                self.model().covers(remaining@),
                remaining@.len() + step == words@.len(),
                self.model().greedy(first, words@) == self.model().greedy_from(
                    route@,
                    remaining@,
                    words@,
                    step as int,
                ),
                decreases remaining@.len(),
        {
            match self.next_track(route.as_slice(), remaining.as_slice(), words[step]) {
                Err(error) => {
                    return Err(error);
                },
                Ok(next) => {
                    proof {
                        lemma_position_of_member(remaining@, next);
                    }
                    if let Some(at) = find_position(remaining.as_slice(), next) {
                        let taken: usize = remaining.remove(at);
                    }
                    route.push(next);
                },
            }
            step += 1;
        }
        Ok(route)
    }
}

/// Continues a route from track `first` as the given words decide.
pub fn greedy_route_from<
    P: Fn(&[usize], u16) -> Result<(), ContextualError>,
    D: Fn(&[usize], u16, &[usize], usize) -> u64,
>(
    tracks: &[RouteTrack],
    scorer: &AdaptiveScorer<P, D>,
    config: &SearchConfig,
    first: usize,
    words: &[u64],
) -> (built: Result<Vec<usize>, ContextualError>)
    requires
        scorer.valid(),
        first < tracks@.len(),
        words@.len() == tracks@.len() - 1,
    ensures
        match (SearchModel {
            scoring: scorer.scoring(),
            tracks: tracks@,
            config: *config,
            arc: None,
        }).greedy(first, words@) {
            Ok(route) => built is Ok && built->Ok_0@ == route,
            Err(error) => built is Err && built->Err_0 == error,
        },
{
    let search = Search { scorer, tracks, config, arc: None };
    search.greedy_route_from(first, words)
}

// Intensity.

/// Whether track `a` ranks before track `b` in one feature.
pub open spec fn feature_before(tracks: Seq<RouteTrack>, feature: int, a: int, b: int) -> bool {
    tracks[a].features[feature] < tracks[b].features[feature] || (tracks[a].features[feature]
        == tracks[b].features[feature] && a < b)
}

/// How many of the first `count` tracks rank before `track` in one feature.
pub open spec fn feature_rank(tracks: Seq<RouteTrack>, feature: int, track: int, count: int) -> nat
    decreases count,
{
    if count <= 0 {
        0
    } else {
        feature_rank(tracks, feature, track, count - 1) + (if feature_before(
            tracks,
            feature,
            count - 1,
            track,
        ) {
            1nat
        } else {
            0nat
        })
    }
}

/// The summed rank of a track over the features that make a track intense.
pub open spec fn rank_sum(tracks: Seq<RouteTrack>, track: int) -> nat {
    let count = tracks.len() as int;
    feature_rank(tracks, 0, track, count) + feature_rank(tracks, 1, track, count) + feature_rank(
        tracks,
        2,
        track,
        count,
    ) + feature_rank(tracks, 4, track, count) + feature_rank(tracks, 8, track, count)
}

/// The largest rank among `count` tracks, at least one.
pub open spec fn rank_span(count: int) -> int {
    if count > 2 {
        count - 1
    } else {
        1
    }
}

/// The mean rank of a track, between zero and one.
pub open spec fn intensity(tracks: Seq<RouteTrack>, track: int) -> int {
    fraction(rank_sum(tracks, track) as int, 5 * rank_span(tracks.len() as int))
}

/// The intensities of all tracks.
pub open spec fn intensities_of(tracks: Seq<RouteTrack>) -> Seq<u64> {
    Seq::new(tracks.len(), |track: int| intensity(tracks, track) as u64)
}

/// A rank leaves at least the track itself out.
proof fn lemma_rank_bound(tracks: Seq<RouteTrack>, feature: int, track: int, count: int)
    requires
        0 <= count <= tracks.len(),
        0 <= track < tracks.len(),
    ensures
        feature_rank(tracks, feature, track, count) <= count,
        track < count ==> feature_rank(tracks, feature, track, count) <= count - 1,
    decreases count,
{
    if count > 0 {
        lemma_rank_bound(tracks, feature, track, count - 1);
    }
}

fn rank_in_feature(tracks: &[RouteTrack], feature: usize, track: usize) -> (rank: usize)
    requires
        feature < 23,
        track < tracks@.len(),
    ensures
        rank == feature_rank(tracks@, feature as int, track as int, tracks@.len() as int),
        rank < tracks@.len(),
{
    let mut rank: usize = 0;
    let mut other: usize = 0;
    while other < tracks.len()
        invariant
            feature < 23,
            track < tracks@.len(),
            other <= tracks@.len(),
            rank <= other,
            rank == feature_rank(tracks@, feature as int, track as int, other as int),
        decreases tracks@.len() - other,
    {
        let mine: i32 = tracks[track].features[feature];
        let theirs: i32 = tracks[other].features[feature];
        if theirs < mine || (theirs == mine && other < track) {
            rank += 1;
        }
        other += 1;
    }
    proof {
        lemma_rank_bound(tracks@, feature as int, track as int, tracks@.len() as int);
    }
    rank
}

/// Computes the intensity of every track.
pub fn intensity_values(tracks: &[RouteTrack]) -> (values: Vec<u64>)
    ensures
        values@ == intensities_of(tracks@),
{
    let mut values: Vec<u64> = Vec::new();
    let span: u128 = if tracks.len() > 2 { (tracks.len() - 1) as u128 } else { 1 };
    let mut track: usize = 0;
    while track < tracks.len()
        invariant
            track <= tracks@.len(),
            span == rank_span(tracks@.len() as int),
            values@ =~= intensities_of(tracks@).take(track as int),
        decreases tracks@.len() - track,
    {
        let sum: u128 = rank_in_feature(tracks, 0, track) as u128 + rank_in_feature(
            tracks,
            1,
            track,
        ) as u128 + rank_in_feature(tracks, 2, track) as u128 + rank_in_feature(
            tracks,
            4,
            track,
        ) as u128 + rank_in_feature(tracks, 8, track) as u128;
        values.push(fraction_units(sum, 5 * span));
        track += 1;
    }
    assert(values@ =~= intensities_of(tracks@));
    values
}

/// Tracks rank by intensity and then by number.
pub open spec fn calmest_first(intensities: Seq<u64>) -> spec_fn(usize, usize) -> bool {
    |a: usize, b: usize|
        intensities[a as int] < intensities[b as int] || (intensities[a as int]
            == intensities[b as int] && a <= b)
}

/// The tracks from the calmest to the most intense.
pub open spec fn by_intensity(intensities: Seq<u64>) -> Seq<usize> {
    stable_sort(ascending(intensities.len() as int), calmest_first(intensities))
}

/// Orders the tracks from the calmest to the most intense.
pub fn intensity_order(intensities: &[u64]) -> (route: Vec<usize>)
    ensures
        route@ == by_intensity(intensities@),
        in_range(route@, intensities@.len() as int),
{
    let mut keyed: Vec<(u64, usize)> = Vec::new();
    let mut track: usize = 0;
    let ghost image = |pair: (u64, usize)| pair.1;
    while track < intensities.len()
        invariant
            track <= intensities@.len(),
            keyed@.len() == track,
            forall|i: int| 0 <= i < track ==> keyed@[i] == (intensities@[i], i as usize),
        decreases intensities@.len() - track,
    {
        keyed.push((intensities[track], track));
        track += 1;
    }
    let closer = |a: &(u64, usize), b: &(u64, usize)| -> (first: bool)
        ensures
            first == nearest_first()(*a, *b),
        { a.0 < b.0 || (a.0 == b.0 && a.1 <= b.1) };
    let ghost pairs = keyed@;
    let ranked = sort_by(keyed, &closer, Ghost(nearest_first()));
    proof {
        lemma_keyed_sort(pairs, intensities@);
        stable_sort_same_members(pairs, nearest_first());
        assert forall|i: int| 0 <= i < ranked@.len() implies (#[trigger] ranked@[i]).1
            < intensities@.len() by {
            assert(ranked@.contains(ranked@[i]));
            assert(pairs.contains(ranked@[i]));
        }
    }
    let mut route: Vec<usize> = Vec::new();
    let mut at: usize = 0;
    while at < ranked.len()
        invariant
            at <= ranked@.len(),
            route@ =~= ranked@.map_values(|pair: (u64, usize)| pair.1).take(at as int),
        decreases ranked@.len() - at,
    {
        route.push(ranked[at].1);
        at += 1;
    }
    assert(route@ =~= ranked@.map_values(|pair: (u64, usize)| pair.1));
    route
}

/// Sorting tracks along with their intensities sorts the tracks.
proof fn lemma_keyed_sort(pairs: Seq<(u64, usize)>, intensities: Seq<u64>)
    requires
        pairs.len() == intensities.len(),
        intensities.len() <= usize::MAX,
        forall|i: int| 0 <= i < pairs.len() ==> pairs[i] == (intensities[i], i as usize),
    ensures
        stable_sort(pairs, nearest_first()).map_values(|pair: (u64, usize)| pair.1)
            == by_intensity(intensities),
{
    let image = |pair: (u64, usize)| pair.1;
    let keyed_leq = |a: (u64, usize), b: (u64, usize)|
        calmest_first(intensities)(a.1, b.1);
    crate::sorting::lemma_same_ranking_same_sort(pairs, nearest_first(), keyed_leq);
    crate::sorting::lemma_sort_image(pairs, keyed_leq, image, calmest_first(intensities));
    assert(pairs.map_values(image) =~= ascending(intensities.len() as int));
}

// The arc.

/// The largest power of two that is at most `value`.
pub open spec fn top_power(value: int) -> int
    decreases value,
{
    if value <= 1 {
        1
    } else {
        2 * top_power(value / 2)
    }
}

/// Seven tenths of `span`, rounded to the nearest whole number. A half rounds
/// up, except in the upper eighth of a binade: there the binary double nearest
/// to seven tenths leaves the product short of the half.
pub open spec fn seven_tenths(span: int) -> int {
    let whole = 7 * span / 10;
    if 7 * span % 10 == 5 && 4 * whole + 2 > 7 * top_power(whole) {
        whole
    } else {
        (7 * span + 5) / 10
    }
}

/// The position at which the arc of a route of `size` tracks peaks.
pub open spec fn arc_peak(size: int) -> int {
    let peak = seven_tenths(
        if size > 0 {
            size - 1
        } else {
            0
        },
    );
    if peak > 1 {
        peak
    } else {
        1
    }
}

/// The intensity that a position should have: rising from a quarter to 0.85 at
/// the peak, then falling towards 0.35.
pub open spec fn arc_target(size: int, position: int) -> int {
    let peak = arc_peak(size);
    if position <= peak {
        250_000_000_000 + (600_000_000_000 * position) / peak
    } else {
        850_000_000_000 - (500_000_000_000 * (position - peak)) / (if size - 1 - peak > 1 {
            size - 1 - peak
        } else {
            1
        })
    }
}

/// The targets of all positions.
pub open spec fn arc_targets_of(size: int) -> Seq<u64> {
    Seq::new(size as nat, |position: int| arc_target(size, position) as u64)
}

fn top_power_of(value: u128) -> (power: u128)
    requires
        value <= 0xffff_ffff_ffff_ffff_ffff,
    ensures
        power == top_power(value as int),
        power <= value || power == 1,
    decreases value,
{
    if value <= 1 {
        1
    } else {
        2 * top_power_of(value / 2)
    }
}

fn peak_position(size: usize) -> (peak: usize)
    requires
        0 < size,
    ensures
        peak == arc_peak(size as int),
        peak >= 1,
{
    let span: u128 = (size - 1) as u128;
    let whole: u128 = 7 * span / 10;
    let peak: u128 = if 7 * span % 10 == 5 && 4 * whole + 2 > 7 * top_power_of(whole) {
        whole
    } else {
        (7 * span + 5) / 10
    };
    if peak > 1 {
        peak as usize
    } else {
        1
    }
}

/// Computes the targets of all positions.
pub fn arc_targets(size: usize) -> (targets: Vec<u64>)
    ensures
        targets@ == arc_targets_of(size as int),
{
    let mut targets: Vec<u64> = Vec::new();
    if size == 0 {
        assert(targets@ =~= arc_targets_of(0));
        return targets;
    }
    let peak: usize = peak_position(size);
    let fall: usize = if size - 1 > peak && size - 1 - peak > 1 { size - 1 - peak } else { 1 };
    let mut position: usize = 0;
    while position < size
        invariant
            position <= size,
            peak == arc_peak(size as int),
            peak >= 1,
            fall == (if size - 1 - peak > 1 {
                size - 1 - peak
            } else {
                1
            }),
            targets@ =~= arc_targets_of(size as int).take(position as int),
        decreases size - position,
    {
        let target: u64 = if position <= peak {
            let rise: u128 = (600_000_000_000 * (position as u128)) / (peak as u128);
            assert(rise <= 600_000_000_000) by (nonlinear_arith)
                requires
                    rise == (600_000_000_000 * (position as int)) / (peak as int),
                    position <= peak,
                    1 <= peak,
            ;
            250_000_000_000 + rise as u64
        } else {
            let drop: u128 = (500_000_000_000 * ((position - peak) as u128)) / (fall as u128);
            assert(drop <= 500_000_000_000) by (nonlinear_arith)
                requires
                    drop == (500_000_000_000 * (position - peak)) / (fall as int),
                    0 <= position - peak <= fall,
                    1 <= fall,
            ;
            850_000_000_000 - drop as u64
        };
        targets.push(target);
        position += 1;
    }
    assert(targets@ =~= arc_targets_of(size as int));
    targets
}

// The search.

/// Why one attempt found no route.
#[derive(Clone, Copy, Debug, PartialEq, Eq, Structural)]
pub enum SearchFailure {
    Scoring(ContextualError),
    Infeasible,
}

impl SearchFailure {
    /// The error that a caller gets.
    pub open spec fn error(self) -> RouteErrorView {
        match self {
            SearchFailure::Scoring(error) => RouteErrorView::Scoring(error.text()),
            SearchFailure::Infeasible => RouteErrorView::Infeasible,
        }
    }

    fn into_error(self) -> (error: RouteError)
        ensures
            error@ == self.error(),
    {
        match self {
            SearchFailure::Scoring(error) => RouteError::Scoring(error.message()),
            SearchFailure::Infeasible => RouteError::Infeasible,
        }
    }
}

/// A route that an attempt found, with its measures.
#[verifier::ext_equal]
pub struct FoundRoute {
    pub route: Seq<usize>,
    pub metrics: RouteMetricsView,
}

impl SearchModel {
    /// How many attempts start from a fixed route.
    pub open spec fn fixed_starts(self) -> int {
        if self.arc is Some {
            3
        } else {
            2
        }
    }

    /// The random route of one restart.
    pub open spec fn restart(self, restart: int) -> Result<Seq<usize>, ContextualError> {
        let count = self.tracks.len();
        let seed = derived_seed_value(self.config.deterministic_seed, restart as u64);
        self.greedy(
            drawn_start(seed, count as u64) as usize,
            drawn_words(seed, count as u64, (count - 1) as usize),
        )
    }

    /// The route that an attempt starts from: the given order, its reverse, for
    /// an arc the order by intensity, and from there on random routes.
    pub open spec fn start(self, task: int) -> Result<Seq<usize>, ContextualError> {
        let count = self.tracks.len() as int;
        if task == 0 {
            Ok(ascending(count))
        } else if task == 1 {
            Ok(ascending(count).reverse())
        } else if task == 2 && self.arc is Some {
            Ok(by_intensity(self.arc->Some_0.intensities))
        } else {
            self.restart(task - self.fixed_starts())
        }
    }

    /// What comes of a starting route once it is improved.
    pub open spec fn finish(self, start: Seq<usize>) -> Result<FoundRoute, SearchFailure> {
        match self.metrics(start) {
            Err(error) => Err(SearchFailure::Scoring(error)),
            Ok(metrics) => match self.improve(
                ScoredRoute { route: start, score: self.score(metrics) },
            ) {
                Err(error) => Err(SearchFailure::Scoring(error)),
                Ok(best) => if violations(best.route, self.tracks, self.config).len() > 0 {
                    Err(SearchFailure::Infeasible)
                } else {
                    match self.metrics(best.route) {
                        Err(error) => Err(SearchFailure::Scoring(error)),
                        Ok(metrics) => Ok(FoundRoute { route: best.route, metrics }),
                    }
                },
            },
        }
    }

    /// What one attempt finds.
    pub open spec fn attempt(self, task: int) -> Result<FoundRoute, SearchFailure> {
        match self.start(task) {
            Err(error) => Err(SearchFailure::Scoring(error)),
            Ok(start) => self.finish(start),
        }
    }

    /// Whether one found route is better than another.
    pub open spec fn precedes(self, left: FoundRoute, right: FoundRoute) -> bool {
        self.score(left.metrics) < self.score(right.metrics) || (self.score(left.metrics)
            == self.score(right.metrics) && lex_less(left.route, right.route))
    }

    /// The best route of the attempts from `task` on and the best one before
    /// them; without any, the first failure.
    pub open spec fn best_from(
        self,
        task: int,
        count: int,
        best: Option<FoundRoute>,
        failure: Option<SearchFailure>,
    ) -> Result<FoundRoute, SearchFailure>
        decreases count - task,
    {
        if task >= count {
            match best {
                Some(found) => Ok(found),
                None => match failure {
                    Some(failure) => Err(failure),
                    None => Err(SearchFailure::Infeasible),
                },
            }
        } else {
            match self.attempt(task) {
                Ok(found) => self.best_from(
                    task + 1,
                    count,
                    if best is None || self.precedes(found, best->Some_0) {
                        Some(found)
                    } else {
                        best
                    },
                    failure,
                ),
                Err(error) => self.best_from(
                    task + 1,
                    count,
                    best,
                    if failure is None {
                        Some(error)
                    } else {
                        failure
                    },
                ),
            }
        }
    }

    /// The best route over all attempts.
    pub open spec fn search(self) -> Result<FoundRoute, SearchFailure> {
        self.best_from(0, self.fixed_starts() + self.config.restart_count, None, None)
    }
}

/// The arc that a set of tracks should follow.
pub open spec fn arc_of(tracks: Seq<RouteTrack>) -> ArcView {
    ArcView { intensities: intensities_of(tracks), targets: arc_targets_of(tracks.len() as int) }
}

/// Whether the arc-aware route is good enough to be taken: at most eight
/// hundredths above the plain objective, and at least a tenth closer to the arc.
pub open spec fn prefers_arc(primary: RouteMetricsView, arc: RouteMetricsView) -> bool {
    arc.objective * 100 <= primary.objective * 108 && arc.arc_error * 10 <= primary.arc_error * 9
}

/// The outcome of a route search.
pub open spec fn optimized(
    scoring: Scoring,
    tracks: Seq<RouteTrack>,
    config: SearchConfig,
) -> Result<RouteSearchResultView, RouteErrorView> {
    let plain = SearchModel { scoring, tracks, config, arc: None };
    let arced = SearchModel { scoring, tracks, config, arc: Some(arc_of(tracks)) };
    if tracks.len() < 2 {
        Err(RouteErrorView::TooFewTracks)
    } else if config.seed_limit == 0 {
        Err(RouteErrorView::InvalidSeedLimit)
    } else if config.learned_percent > 100 {
        Err(RouteErrorView::InvalidLearnedPercent(config.learned_percent))
    } else {
        match plain.search() {
            Err(failure) => Err(failure.error()),
            Ok(best) => match arced.metrics(best.route) {
                Err(error) => Err(RouteErrorView::Scoring(error.text())),
                Ok(metrics) => match arced.search() {
                    Err(failure) => Err(failure.error()),
                    Ok(found) => {
                        let primary = CandidateRouteView {
                            strategy: "adaptive"@,
                            route: best.route,
                            metrics,
                        };
                        let arc = CandidateRouteView {
                            strategy: "adaptive-arc"@,
                            route: found.route,
                            metrics: found.metrics,
                        };
                        let selected = if prefers_arc(metrics, found.metrics) {
                            arc
                        } else {
                            primary
                        };
                        let repeats = violations(selected.route, tracks, config);
                        if repeats.len() > 0 {
                            Err(RouteErrorView::Infeasible)
                        } else {
                            Ok(
                                RouteSearchResultView {
                                    primary,
                                    arc,
                                    selected,
                                    violations: repeats,
                                    search_tasks: config.restart_count * 2 + 5,
                                },
                            )
                        }
                    },
                },
            },
        }
    }
}

/// A found route with its measures.
struct Found {
    route: Vec<usize>,
    metrics: RouteMetrics,
}

impl View for Found {
    type V = FoundRoute;

    closed spec fn view(&self) -> FoundRoute {
        FoundRoute { route: self.route@, metrics: self.metrics@ }
    }
}

fn reversed_route(count: usize) -> (route: Vec<usize>)
    ensures
        route@ == ascending(count as int).reverse(),
{
    let mut route: Vec<usize> = Vec::new();
    let mut left: usize = count;
    while left > 0
        invariant
            left <= count,
            route@ =~= ascending(count as int).reverse().take(count - left),
        decreases left,
    {
        left -= 1;
        route.push(left);
    }
    assert(route@ =~= ascending(count as int).reverse());
    route
}

impl<
    'a,
    P: Fn(&[usize], u16) -> Result<(), ContextualError>,
    D: Fn(&[usize], u16, &[usize], usize) -> u64,
> Search<'a, P, D> {
    fn greedy_route(&self, seed: u64) -> (built: Result<Vec<usize>, ContextualError>)
        requires
            self.valid(),
            0 < self.tracks@.len(),
        ensures
            match self.model().greedy(
                drawn_start(seed, self.tracks@.len() as u64) as usize,
                drawn_words(seed, self.tracks@.len() as u64, (self.tracks@.len() - 1) as usize),
            ) {
                Ok(route) => built is Ok && built->Ok_0@ == route,
                Err(error) => built is Err && built->Err_0 == error,
            },
            built is Ok ==> visits_all(built->Ok_0@, self.tracks@.len() as int),
    {
        let count: usize = self.tracks.len();
        let (first, words) = draw(seed, count as u64, count - 1);
        self.greedy_route_from(first as usize, words.as_slice())
    }

    fn start_route(&self, task: usize) -> (built: Result<Vec<usize>, ContextualError>)
        requires
            self.valid(),
            0 < self.tracks@.len(),
        ensures
            match self.model().start(task as int) {
                Ok(route) => built is Ok && built->Ok_0@ == route,
                Err(error) => built is Err && built->Err_0 == error,
            },
            built is Ok ==> visits_all(built->Ok_0@, self.tracks@.len() as int),
    {
        let count: usize = self.tracks.len();
        proof {
            if self.model().arc is Some {
                intensity_order_visits_all(self.model().arc->Some_0.intensities);
            }
        }
        if task == 0 {
            return Ok(ascending_route(count));
        }
        if task == 1 {
            return Ok(reversed_route(count));
        }
        match self.arc {
            Some(arc) => {
                if task == 2 {
                    return Ok(intensity_order(arc.intensities.as_slice()));
                }
                self.greedy_route(derived_seed(self.config.deterministic_seed, (task - 3) as u64))
            },
            None => self.greedy_route(
                derived_seed(self.config.deterministic_seed, (task - 2) as u64),
            ),
        }
    }

    fn attempt(&self, task: usize) -> (found: Result<Found, SearchFailure>)
        requires
            self.valid(),
            0 < self.tracks@.len(),
        ensures
            match self.model().attempt(task as int) {
                Ok(route) => found is Ok && found->Ok_0@ == route,
                Err(error) => found is Err && found->Err_0 == error,
            },
            found is Ok ==> visits_all(found->Ok_0@.route, self.tracks@.len() as int),
    {
        let start = match self.start_route(task) {
            Err(error) => {
                return Err(SearchFailure::Scoring(error));
            },
            Ok(start) => start,
        };
        let score: u128 = match self.metrics(start.as_slice()) {
            Err(error) => {
                return Err(SearchFailure::Scoring(error));
            },
            Ok(metrics) => self.score(&metrics),
        };
        proof {
            improvement_is_sound(
                self.model(),
                ScoredRoute { route: start@, score: score as nat },
                self.tracks@.len() as int,
            );
        }
        let route = match self.improve_route(start, score) {
            Err(error) => {
                return Err(SearchFailure::Scoring(error));
            },
            Ok(route) => route,
        };
        let repeats = repeat_violations(route.as_slice(), self.tracks, self.config);
        assert(repeats@.len() == violations(route@, self.tracks@, *self.config).len());
        if repeats.len() > 0 {
            return Err(SearchFailure::Infeasible);
        }
        match self.metrics(route.as_slice()) {
            Err(error) => Err(SearchFailure::Scoring(error)),
            Ok(metrics) => Ok(Found { route, metrics }),
        }
    }

    fn search_candidate(&self) -> (found: Result<Found, SearchFailure>)
        requires
            self.valid(),
            0 < self.tracks@.len(),
            self.config.restart_count <= usize::MAX - 3,
        ensures
            match self.model().search() {
                Ok(route) => found is Ok && found->Ok_0@ == route,
                Err(error) => found is Err && found->Err_0 == error,
            },
            found is Ok ==> visits_all(found->Ok_0@.route, self.tracks@.len() as int),
    {
        let fixed: usize = if self.arc.is_some() { 3 } else { 2 };
        let count: usize = fixed + self.config.restart_count;
        let mut best: Option<Found> = None;
        let mut failure: Option<SearchFailure> = None;
        let mut task: usize = 0;
        while task < count
            invariant
                self.valid(),
                0 < self.tracks@.len(),
                task <= count,
                count == self.model().fixed_starts() + self.config.restart_count,
                best is Some ==> visits_all(
                    best->Some_0@.route,
                    self.tracks@.len() as int,
                ),
                self.model().search() == self.model().best_from(
                    task as int,
                    count as int,
                    match best {
                        Some(found) => Some(found@),
                        None => None,
                    },
                    failure,
                ),
            decreases count - task,
        {
            match self.attempt(task) {
                Ok(found) => {
                    let better: bool = match &best {
                        None => true,
                        Some(current) => {
                            let left: u128 = self.score(&found.metrics);
                            let right: u128 = self.score(&current.metrics);
                            left < right || (left == right && precedes_lexically(
                                found.route.as_slice(),
                                current.route.as_slice(),
                            ))
                        },
                    };
                    if better {
                        best = Some(found);
                    }
                },
                Err(error) => {
                    if failure.is_none() {
                        failure = Some(error);
                    }
                },
            }
            task += 1;
        }
        match best {
            Some(found) => Ok(found),
            None => match failure {
                Some(failure) => Err(failure),
                None => Err(SearchFailure::Infeasible),
            },
        }
    }
}

fn copied_candidate(candidate: &CandidateRoute) -> (copy: CandidateRoute)
    ensures
        copy@ == candidate@,
{
    CandidateRoute {
        strategy: candidate.strategy,
        route: copied(candidate.route.as_slice()),
        metrics: candidate.metrics,
    }
}

/// Orders a set of tracks: once for smooth transitions, once with an arc of
/// intensity in mind, and picks one of the two.
pub fn optimize_adaptive_route<
    P: Fn(&[usize], u16) -> Result<(), ContextualError>,
    D: Fn(&[usize], u16, &[usize], usize) -> u64,
>(tracks: &[RouteTrack], scorer: &AdaptiveScorer<P, D>, config: &SearchConfig) -> (result: Result<
    RouteSearchResult,
    RouteError,
>)
    requires
        scorer.valid(),
        config.restart_count * 2 + 5 <= usize::MAX,
    ensures
        match optimized(scorer.scoring(), tracks@, *config) {
            Ok(outcome) => result is Ok && result->Ok_0@ == outcome,
            Err(error) => result is Err && result->Err_0@ == error,
        },
        result matches Ok(found) ==> {
            &&& visits_all(found.primary.route@, tracks@.len() as int)
            &&& visits_all(found.arc.route@, tracks@.len() as int)
            &&& visits_all(found.selected.route@, tracks@.len() as int)
            &&& repeat_safe(found.primary.route@, tracks@, *config)
            &&& repeat_safe(found.arc.route@, tracks@, *config)
            &&& repeat_safe(found.selected.route@, tracks@, *config)
        },
{
    proof {
        every_route_is_repeat_safe(scorer.scoring(), tracks@, *config);
    }
    if tracks.len() < 2 {
        return Err(RouteError::TooFewTracks);
    }
    if config.seed_limit == 0 {
        return Err(RouteError::InvalidSeedLimit);
    }
    if config.learned_percent > 100 {
        return Err(RouteError::InvalidLearnedPercent(config.learned_percent));
    }
    let context = ArcContext {
        intensities: intensity_values(tracks),
        targets: arc_targets(tracks.len()),
    };
    let plain = Search { scorer, tracks, config, arc: None };
    let arced = Search { scorer, tracks, config, arc: Some(&context) };
    assert(context@ == arc_of(tracks@));
    let best = match plain.search_candidate() {
        Err(failure) => {
            return Err(failure.into_error());
        },
        Ok(found) => found,
    };
    let metrics = match arced.metrics(best.route.as_slice()) {
        Err(error) => {
            return Err(RouteError::Scoring(error.message()));
        },
        Ok(metrics) => metrics,
    };
    let primary = CandidateRoute { strategy: "adaptive", route: best.route, metrics };
    let arc = match arced.search_candidate() {
        Err(failure) => {
            return Err(failure.into_error());
        },
        Ok(found) => CandidateRoute {
            strategy: "adaptive-arc",
            route: found.route,
            metrics: found.metrics,
        },
    };
    let selected = if at_most_ratio(arc.metrics.objective, primary.metrics.objective, 108, 100)
        && at_most_ratio(arc.metrics.arc_error, primary.metrics.arc_error, 9, 10) {
        copied_candidate(&arc)
    } else {
        copied_candidate(&primary)
    };
    let violations = repeat_violations(selected.route.as_slice(), tracks, config);
    assert(violations@.len() == crate::route::violations(selected.route@, tracks@, *config).len());
    if violations.len() > 0 {
        return Err(RouteError::Infeasible);
    }
    Ok(
        RouteSearchResult {
            primary,
            arc,
            selected,
            violations,
            search_tasks: config.restart_count * 2 + 5,
        },
    )
}

} // verus!
