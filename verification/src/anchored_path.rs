//! Shared bounded path search between two immutable track anchors.
//!
//! This module deliberately does not know whether a path belongs to a live
//! destination action, one playlist gap, or one leg of a multi-gap plan. The
//! caller owns those outer decisions and supplies frozen context, membership
//! exclusions, candidate evidence, repeat policy, and one adjacent distance
//! function.

use crate::bridge::{repeat_windows_safe_at, windows_safe_at};
use crate::route::{album_clash, albums_clash, artist_clash, artists_clash, gap_between, RouteTrack};
use crate::sequences::{
    copied, find_outside, first_outside, holds, in_range, lemma_lex_less_strict,
    lemma_lex_less_transitive, lemma_views_add, lemma_views_push, lex_less, precedes_lexically,
    same_route, views,
};
use crate::sorting::{
    dedup, dedup_views, first_few, is_ranking, sort_views, stable_sort, truncate_views,
};
use crate::text::{decimal, text_with_number};
use crate::variation::{pool_length, variation_key, variation_key_of, varied_pool_length};
use vstd::prelude::*;

verus! {

/// A track that a path may lead through.
#[derive(Clone, Copy, Debug, PartialEq, Eq)]
pub struct AnchoredPathCandidate {
    pub track: usize,
    pub semantic_support: u64,
}

/// The bounds of a path search.
#[derive(Clone, Copy, Debug, PartialEq, Eq)]
pub struct AnchoredPathSearchConfig {
    pub max_intermediates: usize,
    pub candidate_limit: usize,
    pub beam_width: usize,
    /// Number of complete alternatives retained for each intermediate count.
    /// Destination callers request one; multi-gap planners may ask for more so
    /// they can resolve cross-gap repeat and membership conflicts.
    pub alternatives_per_count: usize,
    pub variation_percent: u8,
    pub generation_seed: u64,
    pub artist_window: usize,
    pub album_window: usize,
    pub track_window: usize,
}

/// What a path search is asked for.
#[derive(Clone, Copy)]
pub struct AnchoredPathRequest<'a> {
    /// Route context ending at `left_anchor`. It is returned in every option.
    pub route_prefix: &'a [usize],
    /// Listening history used only for repeat checks, never returned as route
    /// members. Existing duplicates in this immutable history are tolerated.
    pub immutable_history: &'a [usize],
    /// Tracks already owned by the outer plan and therefore unavailable as
    /// generated intermediates.
    pub unavailable_tracks: &'a [usize],
    pub left_anchor: usize,
    pub right_anchor: usize,
    pub candidates: &'a [AnchoredPathCandidate],
    pub tracks: &'a [RouteTrack],
    pub config: AnchoredPathSearchConfig,
}

/// How much a search looked at.
#[derive(Clone, Copy, Debug, PartialEq, Eq)]
pub struct AnchoredPathSearchStats {
    pub evaluated_states: usize,
    pub retained_states: usize,
    pub structural_upper_bound: usize,
}

/// One complete path.
#[verifier::ext_equal]
pub struct AnchoredPathOptionView {
    pub intermediates: Seq<usize>,
    pub route: Seq<usize>,
    pub transition_sum: nat,
    pub worst_transition: nat,
    pub stats: AnchoredPathSearchStats,
}

/// One complete path.
#[derive(Clone, Debug, PartialEq)]
pub struct AnchoredPathOption {
    pub intermediates: Vec<usize>,
    pub route: Vec<usize>,
    pub transition_sum: u128,
    pub worst_transition: u64,
    pub stats: AnchoredPathSearchStats,
}

impl View for AnchoredPathOption {
    type V = AnchoredPathOptionView;

    open spec fn view(&self) -> AnchoredPathOptionView {
        AnchoredPathOptionView {
            intermediates: self.intermediates@,
            route: self.route@,
            transition_sum: self.transition_sum as nat,
            worst_transition: self.worst_transition as nat,
            stats: self.stats,
        }
    }
}

/// Why a request cannot be searched.
#[derive(Clone, Copy, Debug, PartialEq, Eq)]
pub enum AnchoredPathError {
    InvalidConfig(&'static str),
    InvalidRoute(&'static str),
    InvalidTrackIndex(usize),
}

impl AnchoredPathError {
    /// The text of the message for this error.
    pub open spec fn text(self) -> Seq<char> {
        match self {
            AnchoredPathError::InvalidConfig(message) => message@,
            AnchoredPathError::InvalidRoute(message) => message@,
            AnchoredPathError::InvalidTrackIndex(track) => {
                "anchored path references unknown track index "@ + decimal(track as int) + ""@
            },
        }
    }

    /// Says what went wrong.
    pub fn message(&self) -> (text: String)
        ensures
            text@ == self.text(),
    {
        match self {
            AnchoredPathError::InvalidConfig(message) => (*message).to_owned(),
            AnchoredPathError::InvalidRoute(message) => (*message).to_owned(),
            AnchoredPathError::InvalidTrackIndex(track) => text_with_number(
                "anchored path references unknown track index ",
                *track as u64,
                "",
            ),
        }
    }
}

// Distances between neighbours.

/// `distance` can be called on every two tracks and always answers the same.
pub open spec fn is_adjacency<F: Fn(usize, usize) -> u64>(distance: F) -> bool {
    &&& forall|a: usize, b: usize| #[trigger] distance.requires((a, b))
    &&& forall|a: usize, b: usize, x: u64, y: u64| #[trigger]
        distance.ensures((a, b), x) && #[trigger] distance.ensures((a, b), y) ==> x == y
}

/// `distance` as mathematics.
pub open spec fn adjacency<F: Fn(usize, usize) -> u64>(distance: F) -> spec_fn(
    usize,
    usize,
) -> u64 {
    |a: usize, b: usize| choose|x: u64| #[trigger] distance.ensures((a, b), x)
}

/// Asks for the distance between two neighbours.
pub fn adjacent<F: Fn(usize, usize) -> u64>(distance: &F, a: usize, b: usize) -> (apart: u64)
    requires
        is_adjacency(*distance),
    ensures
        apart == adjacency(*distance)(a, b),
{
    distance(a, b)
}

// The model.

/// A path under construction.
#[verifier::ext_equal]
pub struct PathView {
    pub intermediates: Seq<usize>,
    pub transition_sum: nat,
    pub worst_transition: nat,
    pub lower_sum: nat,
    pub lower_worst: nat,
    pub semantic_support: nat,
}

/// The larger of two numbers.
pub open spec fn larger(a: nat, b: nat) -> nat {
    if a > b {
        a
    } else {
        b
    }
}

/// The sum of two counts, or the largest count.
pub open spec fn capped_sum(a: int, b: int) -> int {
    if a + b > usize::MAX {
        usize::MAX as int
    } else {
        a + b
    }
}

/// Whether the intermediates of `a` come no later than those of `b`.
pub open spec fn lex_at_most(a: Seq<usize>, b: Seq<usize>) -> bool {
    !lex_less(b, a)
}

/// Whether a partial path ranks no later than another: by the smallest worst
/// transition it can end with, the smallest sum, the support and its tracks.
pub open spec fn partial_at_least(a: PathView, b: PathView) -> bool {
    if a.lower_worst != b.lower_worst {
        a.lower_worst < b.lower_worst
    } else if a.lower_sum != b.lower_sum {
        a.lower_sum < b.lower_sum
    } else if a.semantic_support != b.semantic_support {
        a.semantic_support > b.semantic_support
    } else {
        lex_at_most(a.intermediates, b.intermediates)
    }
}

/// Whether a complete path ranks no later than another.
pub open spec fn complete_at_least(a: PathView, b: PathView) -> bool {
    if a.worst_transition != b.worst_transition {
        a.worst_transition < b.worst_transition
    } else if a.transition_sum != b.transition_sum {
        a.transition_sum < b.transition_sum
    } else if a.semantic_support != b.semantic_support {
        a.semantic_support > b.semantic_support
    } else {
        lex_at_most(a.intermediates, b.intermediates)
    }
}

/// The ranking of partial paths.
pub open spec fn partial_first() -> spec_fn(PathView, PathView) -> bool {
    |a: PathView, b: PathView| partial_at_least(a, b)
}

/// The ranking of complete paths.
pub open spec fn complete_first() -> spec_fn(PathView, PathView) -> bool {
    |a: PathView, b: PathView| complete_at_least(a, b)
}

/// Whether two paths lead through the same tracks.
pub open spec fn same_path() -> spec_fn(PathView, PathView) -> bool {
    |a: PathView, b: PathView| a.intermediates == b.intermediates
}

/// The ranking of complete paths after shuffling.
pub open spec fn shuffled_first(seed: u64, requested: usize, right: usize) -> spec_fn(
    PathView,
    PathView,
) -> bool {
    |a: PathView, b: PathView|
        {
            let x = variation_key_of(seed, a.intermediates, requested, right);
            let y = variation_key_of(seed, b.intermediates, requested, right);
            if x != y {
                x < y
            } else {
                complete_at_least(a, b)
            }
        }
}

proof fn lemma_lex_at_most(a: Seq<usize>, b: Seq<usize>, c: Seq<usize>)
    ensures
        lex_at_most(a, b) || lex_at_most(b, a),
        lex_at_most(a, b) && lex_at_most(b, c) ==> lex_at_most(a, c),
{
    lemma_lex_less_strict(a, b, 0);
    if lex_at_most(a, b) && lex_at_most(b, c) && lex_less(c, a) {
        lemma_lex_less_strict(a, b, 0);
        lemma_lex_less_strict(b, c, 0);
        if lex_less(a, b) && lex_less(b, c) {
            lemma_lex_less_transitive(a, b, c, 0);
            lemma_lex_less_strict(a, c, 0);
        }
    }
}

/// The rankings rank.
pub proof fn lemma_path_rankings(seed: u64, requested: usize, right: usize)
    ensures
        is_ranking(partial_first()),
        is_ranking(complete_first()),
        is_ranking(shuffled_first(seed, requested, right)),
{
    assert forall|a: PathView, b: PathView| #[trigger] partial_first()(a, b) || partial_first()(
        b,
        a,
    ) by {
        lemma_lex_at_most(a.intermediates, b.intermediates, a.intermediates);
    }
    assert forall|a: PathView, b: PathView, c: PathView|
        #![trigger partial_first()(a, b), partial_first()(b, c)]
        partial_first()(a, b) && partial_first()(b, c) implies partial_first()(a, c) by {
        lemma_lex_at_most(a.intermediates, b.intermediates, c.intermediates);
    }
    assert forall|a: PathView, b: PathView| #[trigger] complete_first()(a, b) || complete_first()(
        b,
        a,
    ) by {
        lemma_lex_at_most(a.intermediates, b.intermediates, a.intermediates);
    }
    assert forall|a: PathView, b: PathView, c: PathView|
        #![trigger complete_first()(a, b), complete_first()(b, c)]
        complete_first()(a, b) && complete_first()(b, c) implies complete_first()(a, c) by {
        lemma_lex_at_most(a.intermediates, b.intermediates, c.intermediates);
    }
    let shuffled = shuffled_first(seed, requested, right);
    assert forall|a: PathView, b: PathView| #[trigger] shuffled(a, b) || shuffled(b, a) by {
        assert(complete_first()(a, b) || complete_first()(b, a));
    }
    assert forall|a: PathView, b: PathView, c: PathView|
        #![trigger shuffled(a, b), shuffled(b, c)]
        shuffled(a, b) && shuffled(b, c) implies shuffled(a, c) by {
        assert(complete_first()(a, b) && complete_first()(b, c) ==> complete_first()(a, c));
    }
}

/// The place of a track among candidates ordered by track, from `at` on.
pub open spec fn place_from(list: Seq<AnchoredPathCandidate>, track: usize, at: int) -> int
    decreases list.len() - at,
{
    if at >= list.len() {
        list.len() as int
    } else if list[at].track >= track {
        at
    } else {
        place_from(list, track, at + 1)
    }
}

/// `list` with a candidate put in its place, in place of one for the same track.
pub open spec fn placed(
    list: Seq<AnchoredPathCandidate>,
    candidate: AnchoredPathCandidate,
) -> Seq<AnchoredPathCandidate> {
    let at = place_from(list, candidate.track, 0);
    if at < list.len() && list[at].track == candidate.track {
        list.update(at, candidate)
    } else {
        list.insert(at, candidate)
    }
}

/// Everything that a path search looks at.
pub struct PathModel {
    pub prefix: Seq<usize>,
    pub history: Seq<usize>,
    pub unavailable: Seq<usize>,
    pub left: usize,
    pub right: usize,
    pub candidates: Seq<AnchoredPathCandidate>,
    pub tracks: Seq<RouteTrack>,
    pub config: AnchoredPathSearchConfig,
    pub distance: spec_fn(usize, usize) -> u64,
}

/// A frontier of partial paths and what it took to get there.
#[verifier::ext_equal]
pub struct Growth {
    pub frontier: Seq<PathView>,
    pub evaluated: int,
    pub retained: int,
}

/// Whether the `count` positions from `first` on repeat no artist, album or
/// track too soon.
pub open spec fn generated_safe(
    route: Seq<usize>,
    first: int,
    count: int,
    tracks: Seq<RouteTrack>,
    config: AnchoredPathSearchConfig,
) -> bool {
    forall|position: int|
        first <= position < first + count ==> #[trigger] generated_safe_at(
            route,
            position,
            tracks,
            config,
        )
}

/// Whether one position repeats no artist, album or track too soon.
pub open spec fn generated_safe_at(
    route: Seq<usize>,
    position: int,
    tracks: Seq<RouteTrack>,
    config: AnchoredPathSearchConfig,
) -> bool {
    &&& windows_safe_at(route, tracks, position, config.artist_window, config.album_window)
    &&& forall|other: int|
        0 <= other < route.len() && other != position ==> gap_between(other, position)
            > config.track_window || #[trigger] route[other] != route[position]
}

impl PathModel {
    /// Those of the first `count` candidates that are available, one for each
    /// track and ordered by track.
    pub open spec fn usable_upto(self, count: int) -> Seq<AnchoredPathCandidate>
        decreases count,
    {
        if count <= 0 {
            seq![]
        } else {
            let before = self.usable_upto(count - 1);
            if self.unavailable.contains(self.candidates[count - 1].track) {
                before
            } else {
                placed(before, self.candidates[count - 1])
            }
        }
    }

    /// The available candidates.
    pub open spec fn usable(self) -> Seq<AnchoredPathCandidate> {
        self.usable_upto(self.candidates.len() as int)
    }

    /// What a generated track may not repeat.
    pub open spec fn repeat_prefix(self) -> Seq<usize> {
        self.history + self.prefix
    }

    /// Whether a track this far from the right anchor repeats it too soon.
    pub open spec fn conflicts(self, track: usize, distance: int) -> bool {
        (distance <= self.config.artist_window && artist_clash(self.tracks, self.right, track)) || (
        distance <= self.config.album_window && album_clash(self.tracks, self.right, track))
    }

    /// Whether a path may be continued by a track.
    pub open spec fn fits(self, path: PathView, track: usize, distance: int) -> bool {
        let partial = (self.repeat_prefix() + path.intermediates).push(track);
        &&& !path.intermediates.contains(track)
        &&& !self.conflicts(track, distance)
        &&& generated_safe(partial, partial.len() - 1, 1, self.tracks, self.config)
    }

    /// Where a path stands.
    pub open spec fn head(self, path: PathView) -> usize {
        if path.intermediates.len() > 0 {
            path.intermediates.last()
        } else {
            self.left
        }
    }

    /// A path continued by a candidate with `remaining` edges left to walk.
    pub open spec fn continued(
        self,
        path: PathView,
        candidate: AnchoredPathCandidate,
        remaining: int,
    ) -> PathView {
        let edge = (self.distance)(self.head(path), candidate.track) as nat;
        let rest = (self.distance)(candidate.track, self.right) as nat;
        let transition_sum = path.transition_sum + edge;
        let worst_transition = larger(path.worst_transition, edge);
        PathView {
            intermediates: path.intermediates.push(candidate.track),
            transition_sum,
            worst_transition,
            lower_sum: transition_sum + rest,
            lower_worst: larger(worst_transition, (rest as int / remaining) as nat),
            semantic_support: path.semantic_support + candidate.semantic_support as nat,
        }
    }

    /// The continuations of a path by the first `count` usable candidates.
    pub open spec fn variants_upto(self, path: PathView, remaining: int, count: int) -> Seq<PathView>
        decreases count,
    {
        if count <= 0 {
            seq![]
        } else {
            let before = self.variants_upto(path, remaining, count - 1);
            let candidate = self.usable()[count - 1];
            if self.fits(path, candidate.track, remaining) {
                before.push(self.continued(path, candidate, remaining))
            } else {
                before
            }
        }
    }

    /// The best continuations of a path.
    pub open spec fn variants(self, path: PathView, remaining: int) -> Seq<PathView> {
        first_few(
            stable_sort(
                self.variants_upto(path, remaining, self.usable().len() as int),
                partial_first(),
            ),
            self.config.candidate_limit as int,
        )
    }

    /// The best continuations of the first `count` paths.
    pub open spec fn expanded_upto(
        self,
        frontier: Seq<PathView>,
        remaining: int,
        count: int,
    ) -> Seq<PathView>
        decreases count,
    {
        if count <= 0 {
            seq![]
        } else {
            self.expanded_upto(frontier, remaining, count - 1) + self.variants(
                frontier[count - 1],
                remaining,
            )
        }
    }

    /// The paths that a layer of the search keeps.
    pub open spec fn pruned(self, expanded: Seq<PathView>) -> Seq<PathView> {
        first_few(
            dedup(stable_sort(expanded, partial_first()), same_path()),
            self.config.beam_width as int,
        )
    }

    /// The frontier once it has grown from `layer` to `requested` tracks.
    pub open spec fn grown(self, requested: int, layer: int, growth: Growth) -> Growth
        decreases requested - layer,
    {
        if layer >= requested || growth.frontier.len() == 0 {
            growth
        } else {
            let expanded = self.expanded_upto(
                growth.frontier,
                requested - layer,
                growth.frontier.len() as int,
            );
            let next = self.pruned(expanded);
            self.grown(
                requested,
                layer + 1,
                Growth {
                    frontier: next,
                    evaluated: capped_sum(growth.evaluated, expanded.len() as int),
                    retained: capped_sum(growth.retained, next.len() as int),
                },
            )
        }
    }

    /// The distance between the anchors.
    pub open spec fn direct(self) -> nat {
        (self.distance)(self.left, self.right) as nat
    }

    /// The path that a search for `requested` tracks starts from.
    pub open spec fn seed_path(self, requested: int) -> PathView {
        PathView {
            intermediates: seq![],
            transition_sum: 0,
            worst_transition: 0,
            lower_sum: self.direct(),
            lower_worst: (self.direct() as int / (requested + 1)) as nat,
            semantic_support: 0,
        }
    }

    /// The frontier of paths through `requested` tracks.
    pub open spec fn frontier(self, requested: int) -> Growth {
        self.grown(
            requested,
            0,
            Growth { frontier: seq![self.seed_path(requested)], evaluated: 1, retained: 1 },
        )
    }

    /// Whether a path repeats nothing too soon once the right anchor is in place.
    pub open spec fn closes(self, path: PathView, requested: int) -> bool {
        path.intermediates.len() > 0 && generated_safe(
            (self.repeat_prefix() + path.intermediates).push(self.right),
            self.repeat_prefix().len() as int,
            requested,
            self.tracks,
            self.config,
        )
    }

    /// A path led on to the right anchor.
    pub open spec fn closed(self, path: PathView) -> PathView {
        let edge = (self.distance)(self.head(path), self.right) as nat;
        let transition_sum = path.transition_sum + edge;
        let worst_transition = larger(path.worst_transition, edge);
        PathView {
            intermediates: path.intermediates,
            transition_sum,
            worst_transition,
            lower_sum: transition_sum,
            lower_worst: worst_transition,
            semantic_support: path.semantic_support,
        }
    }

    /// Those of the first `count` paths that close, closed.
    pub open spec fn completed_upto(
        self,
        frontier: Seq<PathView>,
        requested: int,
        count: int,
    ) -> Seq<PathView>
        decreases count,
    {
        if count <= 0 {
            seq![]
        } else {
            let before = self.completed_upto(frontier, requested, count - 1);
            if self.closes(frontier[count - 1], requested) {
                before.push(self.closed(frontier[count - 1]))
            } else {
                before
            }
        }
    }

    /// The complete paths through `requested` tracks, the best first.
    pub open spec fn complete(self, requested: int) -> Seq<PathView> {
        let frontier = self.frontier(requested).frontier;
        stable_sort(
            self.completed_upto(frontier, requested, frontier.len() as int),
            complete_first(),
        )
    }

    /// The paths from `at` on whose worst transition lies within two hundredths
    /// of the best one's and whose sum lies within five hundredths, up to the
    /// first that misses the former, behind those in `done`.
    pub open spec fn band_from(
        self,
        complete: Seq<PathView>,
        at: int,
        done: Seq<PathView>,
    ) -> Seq<PathView>
        decreases complete.len() - at,
    {
        if at >= complete.len() || !near_worst(complete[at], complete[0]) {
            done
        } else if near_sum(complete[at], complete[0]) {
            self.band_from(complete, at + 1, done.push(complete[at]))
        } else {
            self.band_from(complete, at + 1, done)
        }
    }

    /// How many paths of a quality band take part in the selection.
    pub open spec fn pool(self, band: int) -> int {
        let varied = pool_length(band, self.config.variation_percent, 1);
        let wanted = if varied > self.config.alternatives_per_count {
            varied
        } else {
            self.config.alternatives_per_count as int
        };
        if wanted < band {
            wanted
        } else {
            band
        }
    }

    /// The paths through `requested` tracks that are offered.
    pub open spec fn selected(self, requested: usize) -> Seq<PathView> {
        let band = self.band_from(self.complete(requested as int), 0, seq![]);
        let pool = first_few(band, self.pool(band.len() as int));
        let ordered = if self.config.variation_percent > 0 {
            stable_sort(
                pool,
                shuffled_first(self.config.generation_seed, requested, self.right),
            )
        } else {
            pool
        };
        first_few(ordered, self.config.alternatives_per_count as int)
    }

    /// How many intermediates there can be at all.
    pub open spec fn structural_upper_bound(self) -> int {
        if self.config.max_intermediates < self.usable().len() {
            self.config.max_intermediates as int
        } else {
            self.usable().len() as int
        }
    }

    /// A path as an option.
    pub open spec fn option(self, path: PathView, evaluated: int, retained: int) -> AnchoredPathOptionView {
        AnchoredPathOptionView {
            intermediates: path.intermediates,
            route: (self.prefix + path.intermediates).push(self.right),
            transition_sum: path.transition_sum,
            worst_transition: path.worst_transition,
            stats: AnchoredPathSearchStats {
                evaluated_states: evaluated as usize,
                retained_states: retained as usize,
                structural_upper_bound: self.structural_upper_bound() as usize,
            },
        }
    }

    /// The options through `requested` tracks.
    pub open spec fn options_at(self, requested: usize) -> Seq<AnchoredPathOptionView> {
        let selected = self.selected(requested);
        let growth = self.frontier(requested as int);
        Seq::new(
            selected.len(),
            |i: int| self.option(selected[i], growth.evaluated, growth.retained),
        )
    }

    /// The direct transition as an option.
    pub open spec fn direct_option(self) -> AnchoredPathOptionView {
        self.option(
            PathView {
                intermediates: seq![],
                transition_sum: self.direct(),
                worst_transition: self.direct(),
                lower_sum: self.direct(),
                lower_worst: self.direct(),
                semantic_support: 0,
            },
            1,
            1,
        )
    }

    /// The options through at most `count` tracks.
    pub open spec fn options_upto(self, count: int) -> Seq<AnchoredPathOptionView>
        decreases count,
    {
        if count <= 0 {
            seq![self.direct_option()]
        } else {
            self.options_upto(count - 1) + self.options_at(count as usize)
        }
    }

    /// The tracks of the candidates.
    pub open spec fn candidate_tracks(self) -> Seq<usize> {
        Seq::new(self.candidates.len(), |i: int| self.candidates[i].track)
    }

    /// Why a request is refused, if it is.
    pub open spec fn refusal(self) -> Option<AnchoredPathError> {
        let count = self.tracks.len() as int;
        if self.prefix.len() == 0 || self.prefix.last() != self.left {
            Some(
                AnchoredPathError::InvalidRoute(
                    "anchored path route prefix must end at its left anchor",
                ),
            )
        } else if self.left == self.right {
            Some(
                AnchoredPathError::InvalidRoute(
                    "anchored path requires distinct left and right anchors",
                ),
            )
        } else if self.config.candidate_limit == 0 || self.config.beam_width == 0 {
            Some(
                AnchoredPathError::InvalidConfig(
                    "anchored path candidate and beam limits must be at least one",
                ),
            )
        } else if self.config.alternatives_per_count == 0 {
            Some(
                AnchoredPathError::InvalidConfig(
                    "anchored path alternatives per count must be at least one",
                ),
            )
        } else if self.config.variation_percent > 100 {
            Some(
                AnchoredPathError::InvalidConfig(
                    "anchored path variation percent must not exceed 100",
                ),
            )
        } else if first_outside(self.prefix, count) < self.prefix.len() {
            Some(unknown_track(self.prefix, count))
        } else if first_outside(self.history, count) < self.history.len() {
            Some(unknown_track(self.history, count))
        } else if first_outside(self.unavailable, count) < self.unavailable.len() {
            Some(unknown_track(self.unavailable, count))
        } else if self.left >= count {
            Some(AnchoredPathError::InvalidTrackIndex(self.left))
        } else if self.right >= count {
            Some(AnchoredPathError::InvalidTrackIndex(self.right))
        } else if first_outside(self.candidate_tracks(), count) < self.candidates.len() {
            Some(unknown_track(self.candidate_tracks(), count))
        } else {
            None
        }
    }

    /// The outcome of a path search.
    pub open spec fn search(self) -> Result<Seq<AnchoredPathOptionView>, AnchoredPathError> {
        match self.refusal() {
            Some(error) => Err(error),
            None => Ok(self.options_upto(self.config.max_intermediates as int)),
        }
    }
}

/// The error for the first number that names no track.
pub open spec fn unknown_track(tracks: Seq<usize>, count: int) -> AnchoredPathError {
    AnchoredPathError::InvalidTrackIndex(tracks[first_outside(tracks, count)])
}

/// Whether a path's worst transition comes close to the best one's.
pub open spec fn near_worst(path: PathView, best: PathView) -> bool {
    path.worst_transition <= best.worst_transition + larger(best.worst_transition * 2 / 100, 1_000)
}

/// Whether a path's sum comes close to the best one's.
pub open spec fn near_sum(path: PathView, best: PathView) -> bool {
    path.transition_sum <= best.transition_sum + larger(best.transition_sum * 5 / 100, 1_000)
}

// The search.

struct PathState {
    intermediates: Vec<usize>,
    transition_sum: u128,
    worst_transition: u64,
    lower_sum: u128,
    lower_worst: u64,
    semantic_support: u128,
}

impl View for PathState {
    type V = PathView;

    closed spec fn view(&self) -> PathView {
        PathView {
            intermediates: self.intermediates@,
            transition_sum: self.transition_sum as nat,
            worst_transition: self.worst_transition as nat,
            lower_sum: self.lower_sum as nat,
            lower_worst: self.lower_worst as nat,
            semantic_support: self.semantic_support as nat,
        }
    }
}

/// The sums of a path stay within what its length allows.
spec fn bounded(path: PathView) -> bool {
    &&& path.transition_sum <= path.intermediates.len() * u64::MAX
    &&& path.semantic_support <= path.intermediates.len() * u64::MAX
}

spec fn all_bounded(paths: Seq<PathView>, len: int, track_count: int) -> bool {
    forall|i: int|
        0 <= i < paths.len() ==> bounded(#[trigger] paths[i]) && paths[i].intermediates.len() == len
            && in_range(paths[i].intermediates, track_count)
}

proof fn lemma_bounded_sort(
    paths: Seq<PathView>,
    leq: spec_fn(PathView, PathView) -> bool,
    len: int,
    track_count: int,
)
    requires
        all_bounded(paths, len, track_count),
    ensures
        all_bounded(stable_sort(paths, leq), len, track_count),
        stable_sort(paths, leq).len() == paths.len(),
{
    crate::sorting::stable_sort_same_members(paths, leq);
    let sorted = stable_sort(paths, leq);
    assert forall|i: int| 0 <= i < sorted.len() implies bounded(#[trigger] sorted[i])
        && sorted[i].intermediates.len() == len && in_range(
        sorted[i].intermediates,
        track_count,
    ) by {
        assert(sorted.contains(sorted[i]));
        assert(paths.contains(sorted[i]));
    }
}

proof fn lemma_bounded_dedup(paths: Seq<PathView>, len: int, track_count: int)
    requires
        all_bounded(paths, len, track_count),
    ensures
        all_bounded(dedup(paths, same_path()), len, track_count),
{
    crate::sorting::lemma_dedup_members(paths, same_path(), 0, seq![]);
    let kept = dedup(paths, same_path());
    assert forall|i: int| 0 <= i < kept.len() implies bounded(#[trigger] kept[i])
        && kept[i].intermediates.len() == len && in_range(kept[i].intermediates, track_count) by {
        assert(paths.contains(kept[i]));
    }
}

impl PathState {
    fn partial_at_least(&self, other: &PathState) -> (first: bool)
        ensures
            first == partial_at_least(self@, other@),
    {
        if self.lower_worst != other.lower_worst {
            self.lower_worst < other.lower_worst
        } else if self.lower_sum != other.lower_sum {
            self.lower_sum < other.lower_sum
        } else if self.semantic_support != other.semantic_support {
            self.semantic_support > other.semantic_support
        } else {
            !precedes_lexically(other.intermediates.as_slice(), self.intermediates.as_slice())
        }
    }

    fn complete_at_least(&self, other: &PathState) -> (first: bool)
        ensures
            first == complete_at_least(self@, other@),
    {
        if self.worst_transition != other.worst_transition {
            self.worst_transition < other.worst_transition
        } else if self.transition_sum != other.transition_sum {
            self.transition_sum < other.transition_sum
        } else if self.semantic_support != other.semantic_support {
            self.semantic_support > other.semantic_support
        } else {
            !precedes_lexically(other.intermediates.as_slice(), self.intermediates.as_slice())
        }
    }

    fn copy(&self) -> (copy: PathState)
        ensures
            copy@ == self@,
    {
        PathState {
            intermediates: copied(self.intermediates.as_slice()),
            transition_sum: self.transition_sum,
            worst_transition: self.worst_transition,
            lower_sum: self.lower_sum,
            lower_worst: self.lower_worst,
            semantic_support: self.semantic_support,
        }
    }
}

/// `first`, then `second`, then one more track.
fn joined(first: &[usize], second: &[usize], last: usize) -> (all: Vec<usize>)
    ensures
        all@ == (first@ + second@).push(last),
{
    let mut all = copied(first);
    all.extend_from_slice(second);
    assert(all@ =~= first@ + second@);
    all.push(last);
    all
}

/// Decides whether generated positions repeat nothing too soon.
pub fn generated_positions_repeat_safe(
    route: &[usize],
    first_generated: usize,
    generated_count: usize,
    tracks: &[RouteTrack],
    config: &AnchoredPathSearchConfig,
) -> (safe: bool)
    requires
        in_range(route@, tracks@.len() as int),
        first_generated + generated_count <= route.len(),
    ensures
        safe == generated_safe(
            route@,
            first_generated as int,
            generated_count as int,
            tracks@,
            *config,
        ),
{
    let end: usize = first_generated + generated_count;
    let mut position: usize = first_generated;
    while position < end
        invariant
            in_range(route@, tracks@.len() as int),
            end == first_generated + generated_count,
            first_generated <= position <= end <= route@.len(),
            forall|i: int|
                first_generated <= i < position ==> #[trigger] generated_safe_at(
                    route@,
                    i,
                    tracks@,
                    *config,
                ),
        decreases end - position,
    {
        if !repeat_windows_safe_at(
            route,
            tracks,
            position,
            config.artist_window,
            config.album_window,
        ) {
            assert(!generated_safe_at(route@, position as int, tracks@, *config));
            return false;
        }
        let mut other: usize = 0;
        while other < route.len()
            invariant
                in_range(route@, tracks@.len() as int),
                other <= route@.len(),
                position < route@.len(),
                first_generated <= position < first_generated + generated_count,
                forall|i: int|
                    0 <= i < other && i != position ==> gap_between(i, position as int)
                        > config.track_window || #[trigger] route@[i] != route@[position as int],
            decreases route@.len() - other,
        {
            let apart: usize = if other > position { other - position } else { position - other };
            if other != position && apart <= config.track_window && route[other]
                == route[position] {
                assert(!generated_safe_at(route@, position as int, tracks@, *config));
                return false;
            }
            other += 1;
        }
        position += 1;
    }
    true
}

fn placed_candidate(list: &mut Vec<AnchoredPathCandidate>, candidate: AnchoredPathCandidate)
    ensures
        final(list)@ == placed(old(list)@, candidate),
{
    let mut at: usize = 0;
    while at < list.len() && list[at].track < candidate.track
        invariant
            at <= list@.len(),
            list@ == old(list)@,
            place_from(list@, candidate.track, 0) == place_from(list@, candidate.track, at as int),
        decreases list@.len() - at,
    {
        at += 1;
    }
    if at < list.len() && list[at].track == candidate.track {
        list.set(at, candidate);
    } else {
        list.insert(at, candidate);
    }
}

struct PathSearch<'a, F> {
    request: AnchoredPathRequest<'a>,
    distance: &'a F,
    usable: Vec<AnchoredPathCandidate>,
    repeat_prefix: Vec<usize>,
}

/// What a request means under a distance function.
pub open spec fn request_model<F: Fn(usize, usize) -> u64>(
    request: AnchoredPathRequest<'_>,
    distance: F,
) -> PathModel {
    PathModel {
        prefix: request.route_prefix@,
        history: request.immutable_history@,
        unavailable: request.unavailable_tracks@,
        left: request.left_anchor,
        right: request.right_anchor,
        candidates: request.candidates@,
        tracks: request.tracks@,
        config: request.config,
        distance: adjacency(distance),
    }
}

impl<'a, F: Fn(usize, usize) -> u64> PathSearch<'a, F> {
    spec fn model(&self) -> PathModel {
        request_model(self.request, *self.distance)
    }

    spec fn valid(&self) -> bool {
        let count = self.request.tracks@.len() as int;
        &&& is_adjacency(*self.distance)
        &&& self.model().refusal() is None
        &&& self.usable@ == self.model().usable()
        &&& self.repeat_prefix@ == self.model().repeat_prefix()
        &&& in_range(self.repeat_prefix@, count)
        &&& self.request.left_anchor < count
        &&& self.request.right_anchor < count
        &&& forall|i: int| 0 <= i < self.usable@.len() ==> (#[trigger] self.usable@[i]).track < count
        &&& self.repeat_prefix@.len() + self.request.tracks@.len() < usize::MAX
    }

    fn conflicts(&self, track: usize, distance: usize) -> (conflict: bool)
        requires
            self.valid(),
            track < self.request.tracks@.len(),
        ensures
            conflict == self.model().conflicts(track, distance as int),
    {
        (distance <= self.request.config.artist_window && artists_clash(
            self.request.tracks,
            self.request.right_anchor,
            track,
        )) || (distance <= self.request.config.album_window && albums_clash(
            self.request.tracks,
            self.request.right_anchor,
            track,
        ))
    }

    fn variants(&self, path: &PathState, remaining: usize) -> (variants: Vec<PathState>)
        requires
            self.valid(),
            bounded(path@),
            0 < remaining,
            path@.intermediates.len() + remaining < usize::MAX,
            in_range(path@.intermediates, self.request.tracks@.len() as int),
        ensures
            views(variants@) == self.model().variants(path@, remaining as int),
            all_bounded(
                views(variants@),
                path@.intermediates.len() as int + 1,
                self.request.tracks@.len() as int,
            ),
    {
        let ghost track_count = self.request.tracks@.len() as int;
        let head: usize = if path.intermediates.len() > 0 {
            path.intermediates[path.intermediates.len() - 1]
        } else {
            self.request.left_anchor
        };
        let mut variants: Vec<PathState> = Vec::new();
        let mut at: usize = 0;
        assert(views(variants@) =~= seq![]);
        while at < self.usable.len()
            invariant
                self.valid(),
                bounded(path@),
                0 < remaining,
                path@.intermediates.len() + remaining < usize::MAX,
                track_count == self.request.tracks@.len() as int,
                in_range(path@.intermediates, track_count),
                at <= self.usable@.len(),
                head == self.model().head(path@),
                views(variants@) == self.model().variants_upto(
                    path@,
                    remaining as int,
                    at as int,
                ),
                all_bounded(views(variants@), path@.intermediates.len() as int + 1, track_count),
            decreases self.usable@.len() - at,
        {
            let candidate = self.usable[at];
            let track: usize = candidate.track;
            if !holds(path.intermediates.as_slice(), track) && !self.conflicts(track, remaining) {
                let partial = joined(
                    self.repeat_prefix.as_slice(),
                    path.intermediates.as_slice(),
                    track,
                );
                assert(in_range(partial@, track_count));
                if generated_positions_repeat_safe(
                    partial.as_slice(),
                    partial.len() - 1,
                    1,
                    self.request.tracks,
                    &self.request.config,
                ) {
                    let edge: u64 = adjacent(self.distance, head, track);
                    let rest: u64 = adjacent(self.distance, track, self.request.right_anchor);
                    let ghost len = path@.intermediates.len();
                    assert((len + 1) * u64::MAX == len * u64::MAX + u64::MAX) by (nonlinear_arith);
                    assert((len + 1) * u64::MAX <= (usize::MAX as int) * u64::MAX)
                        by (nonlinear_arith)
                        requires
                            len + 1 <= usize::MAX,
                    ;
                    let transition_sum: u128 = path.transition_sum + edge as u128;
                    let worst_transition: u64 = if path.worst_transition > edge {
                        path.worst_transition
                    } else {
                        edge
                    };
                    let share: u64 = (rest as u128 / remaining as u128) as u64;
                    let mut intermediates = copied(path.intermediates.as_slice());
                    intermediates.push(track);
                    let next = PathState {
                        intermediates,
                        transition_sum,
                        worst_transition,
                        lower_sum: transition_sum + rest as u128,
                        lower_worst: if worst_transition > share {
                            worst_transition
                        } else {
                            share
                        },
                        semantic_support: path.semantic_support + candidate.semantic_support as u128,
                    };
                    proof {
                        assert(next@ == self.model().continued(path@, candidate, remaining as int));
                        lemma_views_push(variants@, next);
                    }
                    variants.push(next);
                }
            }
            at += 1;
        }
        proof {
            lemma_path_rankings(0, 0, 0);
            lemma_bounded_sort(
                views(variants@),
                partial_first(),
                path@.intermediates.len() as int + 1,
                track_count,
            );
        }
        let leq = |a: &PathState, b: &PathState| -> (first: bool)
            ensures
                first == partial_first()(a@, b@),
            { a.partial_at_least(b) };
        let mut sorted = sort_views(variants, &leq, Ghost(partial_first()));
        truncate_views(&mut sorted, self.request.config.candidate_limit);
        sorted
    }

    fn next_frontier(&self, frontier: &Vec<PathState>, remaining: usize) -> (next: (
        Vec<PathState>,
        usize,
    ))
        requires
            self.valid(),
            0 < remaining,
            frontier@.len() > 0,
            all_bounded(
                views(frontier@),
                frontier@[0]@.intermediates.len() as int,
                self.request.tracks@.len() as int,
            ),
            frontier@[0]@.intermediates.len() + remaining < usize::MAX,
        ensures
            views(next.0@) == self.model().pruned(
                self.model().expanded_upto(
                    views(frontier@),
                    remaining as int,
                    frontier@.len() as int,
                ),
            ),
            next.1 == self.model().expanded_upto(
                views(frontier@),
                remaining as int,
                frontier@.len() as int,
            ).len(),
            all_bounded(
                views(next.0@),
                frontier@[0]@.intermediates.len() as int + 1,
                self.request.tracks@.len() as int,
            ),
    {
        let ghost len = frontier@[0]@.intermediates.len() as int;
        let ghost track_count = self.request.tracks@.len() as int;
        let mut expanded: Vec<PathState> = Vec::new();
        let mut at: usize = 0;
        assert(views(expanded@) =~= seq![]);
        while at < frontier.len()
            invariant
                self.valid(),
                0 < remaining,
                at <= frontier@.len(),
                track_count == self.request.tracks@.len() as int,
                len + remaining < usize::MAX,
                all_bounded(views(frontier@), len, track_count),
                all_bounded(views(expanded@), len + 1, track_count),
                views(expanded@) == self.model().expanded_upto(
                    views(frontier@),
                    remaining as int,
                    at as int,
                ),
            decreases frontier@.len() - at,
        {
            proof {
                assert(views(frontier@)[at as int] == frontier@[at as int]@);
            }
            let mut variants = self.variants(&frontier[at], remaining);
            proof {
                lemma_views_add(expanded@, variants@);
            }
            expanded.append(&mut variants);
            at += 1;
        }
        let count: usize = expanded.len();
        proof {
            lemma_path_rankings(0, 0, 0);
            lemma_bounded_sort(views(expanded@), partial_first(), len + 1, track_count);
            lemma_bounded_dedup(
                stable_sort(views(expanded@), partial_first()),
                len + 1,
                track_count,
            );
        }
        let leq = |a: &PathState, b: &PathState| -> (first: bool)
            ensures
                first == partial_first()(a@, b@),
            { a.partial_at_least(b) };
        let same = |a: &PathState, b: &PathState| -> (equal: bool)
            ensures
                equal == same_path()(a@, b@),
            { same_route(a.intermediates.as_slice(), b.intermediates.as_slice()) };
        let sorted = sort_views(expanded, &leq, Ghost(partial_first()));
        let mut kept = dedup_views(sorted, &same, Ghost(same_path()));
        truncate_views(&mut kept, self.request.config.beam_width);
        (kept, count)
    }

    fn frontier(&self, requested: usize) -> (grown: (Vec<PathState>, usize, usize))
        requires
            self.valid(),
            0 < requested < usize::MAX,
        ensures
            ({
                let growth = self.model().frontier(requested as int);
                &&& views(grown.0@) == growth.frontier
                &&& grown.1 == growth.evaluated
                &&& grown.2 == growth.retained
            }),
            all_bounded(views(grown.0@), requested as int, self.request.tracks@.len() as int),
    {
        let ghost track_count = self.request.tracks@.len() as int;
        let direct: u64 = adjacent(
            self.distance,
            self.request.left_anchor,
            self.request.right_anchor,
        );
        let mut frontier: Vec<PathState> = Vec::new();
        let start = PathState {
            intermediates: Vec::new(),
            transition_sum: 0,
            worst_transition: 0,
            lower_sum: direct as u128,
            lower_worst: (direct as u128 / (requested as u128 + 1)) as u64,
            semantic_support: 0,
        };
        proof {
            assert(start@ =~= self.model().seed_path(requested as int));
        }
        frontier.push(start);
        assert(views(frontier@) =~= seq![self.model().seed_path(requested as int)]);
        let mut evaluated: usize = 1;
        let mut retained: usize = 1;
        let mut layer: usize = 0;
        while layer < requested && frontier.len() > 0
            invariant
                self.valid(),
                requested < usize::MAX,
                layer <= requested,
                track_count == self.request.tracks@.len() as int,
                all_bounded(views(frontier@), layer as int, track_count),
                self.model().frontier(requested as int) == self.model().grown(
                    requested as int,
                    layer as int,
                    Growth {
                        frontier: views(frontier@),
                        evaluated: evaluated as int,
                        retained: retained as int,
                    },
                ),
            decreases requested - layer,
        {
            proof {
                assert(views(frontier@)[0] == frontier@[0]@);
            }
            let (next, expanded) = self.next_frontier(&frontier, requested - layer);
            evaluated = evaluated.saturating_add(expanded);
            retained = retained.saturating_add(next.len());
            frontier = next;
            layer += 1;
        }
        proof {
            if frontier@.len() == 0 {
                assert(all_bounded(views(frontier@), requested as int, track_count));
            }
        }
        (frontier, evaluated, retained)
    }

    fn completed(&self, frontier: &Vec<PathState>, requested: usize) -> (complete: Vec<PathState>)
        requires
            self.valid(),
            0 < requested < usize::MAX,
            all_bounded(
                views(frontier@),
                requested as int,
                self.request.tracks@.len() as int,
            ),
        ensures
            views(complete@) == stable_sort(
                self.model().completed_upto(
                    views(frontier@),
                    requested as int,
                    frontier@.len() as int,
                ),
                complete_first(),
            ),
    {
        let ghost track_count = self.request.tracks@.len() as int;
        let mut complete: Vec<PathState> = Vec::new();
        let mut at: usize = 0;
        assert(views(complete@) =~= seq![]);
        while at < frontier.len()
            invariant
                self.valid(),
                0 < requested < usize::MAX,
                track_count == self.request.tracks@.len() as int,
                at <= frontier@.len(),
                all_bounded(views(frontier@), requested as int, track_count),
                views(complete@) == self.model().completed_upto(
                    views(frontier@),
                    requested as int,
                    at as int,
                ),
            decreases frontier@.len() - at,
        {
            let path = &frontier[at];
            proof {
                assert(views(frontier@)[at as int] == path@);
            }
            let route = joined(
                self.repeat_prefix.as_slice(),
                path.intermediates.as_slice(),
                self.request.right_anchor,
            );
            assert(in_range(route@, track_count));
            if generated_positions_repeat_safe(
                route.as_slice(),
                self.repeat_prefix.len(),
                requested,
                self.request.tracks,
                &self.request.config,
            ) {
                let head: usize = path.intermediates[path.intermediates.len() - 1];
                let edge: u64 = adjacent(self.distance, head, self.request.right_anchor);
                let ghost len = path@.intermediates.len();
                assert(len * u64::MAX <= (usize::MAX - 1) * u64::MAX) by (nonlinear_arith)
                    requires
                        len <= usize::MAX - 1,
                ;
                let transition_sum: u128 = path.transition_sum + edge as u128;
                let worst_transition: u64 = if path.worst_transition > edge {
                    path.worst_transition
                } else {
                    edge
                };
                let closed = PathState {
                    intermediates: copied(path.intermediates.as_slice()),
                    transition_sum,
                    worst_transition,
                    lower_sum: transition_sum,
                    lower_worst: worst_transition,
                    semantic_support: path.semantic_support,
                };
                proof {
                    assert(closed@ == self.model().closed(path@));
                    lemma_views_push(complete@, closed);
                }
                complete.push(closed);
            }
            at += 1;
        }
        proof {
            lemma_path_rankings(0, 0, 0);
        }
        let leq = |a: &PathState, b: &PathState| -> (first: bool)
            ensures
                first == complete_first()(a@, b@),
            { a.complete_at_least(b) };
        sort_views(complete, &leq, Ghost(complete_first()))
    }

    fn band(&self, complete: &Vec<PathState>) -> (band: Vec<PathState>)
        ensures
            views(band@) == self.model().band_from(views(complete@), 0, seq![]),
    {
        let mut band: Vec<PathState> = Vec::new();
        assert(views(band@) =~= seq![]);
        if complete.len() == 0 {
            return band;
        }
        let best_worst: u128 = complete[0].worst_transition as u128;
        let best_sum: u128 = complete[0].transition_sum;
        let worst_slack: u128 = if best_worst * 2 / 100 > 1_000 { best_worst * 2 / 100 } else { 1_000 };
        let sum_slack: u128 = if best_sum / 20 > 1_000 { best_sum / 20 } else { 1_000 };
        assert(best_sum as int * 5 / 100 == best_sum as int / 20);
        let mut at: usize = 0;
        while at < complete.len()
            invariant
                at <= complete@.len(),
                0 < complete@.len(),
                best_worst == complete@[0]@.worst_transition,
                best_sum == complete@[0]@.transition_sum,
                worst_slack == larger((best_worst * 2 / 100) as nat, 1_000),
                sum_slack == larger((best_sum as int * 5 / 100) as nat, 1_000),
                worst_slack <= u64::MAX,
                best_worst <= u64::MAX,
                self.model().band_from(views(complete@), 0, seq![]) == self.model().band_from(
                    views(complete@),
                    at as int,
                    views(band@),
                ),
            decreases complete@.len() - at,
        {
            let path = &complete[at];
            proof {
                assert(views(complete@)[at as int] == path@);
                assert(views(complete@)[0] == complete@[0]@);
            }
            if path.worst_transition as u128 > best_worst + worst_slack {
                return band;
            }
            if path.transition_sum <= best_sum || path.transition_sum - best_sum <= sum_slack {
                let kept = path.copy();
                proof {
                    lemma_views_push(band@, kept);
                }
                band.push(kept);
            }
            at += 1;
        }
        band
    }

    fn selected(&self, frontier: &Vec<PathState>, requested: usize) -> (selected: Vec<PathState>)
        requires
            self.valid(),
            0 < requested < usize::MAX,
            views(frontier@) == self.model().frontier(requested as int).frontier,
            all_bounded(
                views(frontier@),
                requested as int,
                self.request.tracks@.len() as int,
            ),
        ensures
            views(selected@) == self.model().selected(requested),
    {
        let complete = self.completed(frontier, requested);
        let mut band = self.band(&complete);
        let varied: usize = varied_pool_length(
            band.len(),
            self.request.config.variation_percent,
            1,
        );
        let wanted: usize = if varied > self.request.config.alternatives_per_count {
            varied
        } else {
            self.request.config.alternatives_per_count
        };
        let pool: usize = if wanted < band.len() { wanted } else { band.len() };
        truncate_views(&mut band, pool);
        if self.request.config.variation_percent > 0 {
            let seed: u64 = self.request.config.generation_seed;
            let right: usize = self.request.right_anchor;
            proof {
                lemma_path_rankings(seed, requested, right);
            }
            let leq = |a: &PathState, b: &PathState| -> (first: bool)
                ensures
                    first == shuffled_first(seed, requested, right)(a@, b@),
                {
                    let x: u64 = variation_key(seed, a.intermediates.as_slice(), requested, right);
                    let y: u64 = variation_key(seed, b.intermediates.as_slice(), requested, right);
                    if x != y {
                        x < y
                    } else {
                        a.complete_at_least(b)
                    }
                };
            band = sort_views(band, &leq, Ghost(shuffled_first(seed, requested, right)));
        }
        truncate_views(&mut band, self.request.config.alternatives_per_count);
        band
    }

    fn append_options(&self, requested: usize, options: &mut Vec<AnchoredPathOption>)
        requires
            self.valid(),
            0 < requested < usize::MAX,
        ensures
            views(final(options)@) == views(old(options)@) + self.model().options_at(requested),
    {
        let (frontier, evaluated_states, retained_states) = self.frontier(requested);
        let selected = self.selected(&frontier, requested);
        let structural_upper_bound: usize = if self.request.config.max_intermediates
            < self.usable.len() {
            self.request.config.max_intermediates
        } else {
            self.usable.len()
        };
        let ghost before = views(options@);
        let ghost wanted = self.model().options_at(requested);
        let mut at: usize = 0;
        assert(before + wanted.take(0) =~= before);
        while at < selected.len()
            invariant
                self.valid(),
                at <= selected@.len(),
                wanted == self.model().options_at(requested),
                wanted.len() == selected@.len(),
                views(selected@) == self.model().selected(requested),
                evaluated_states == self.model().frontier(requested as int).evaluated,
                retained_states == self.model().frontier(requested as int).retained,
                structural_upper_bound == self.model().structural_upper_bound(),
                views(options@) =~= before + wanted.take(at as int),
            decreases selected@.len() - at,
        {
            let path = &selected[at];
            proof {
                assert(views(selected@)[at as int] == path@);
            }
            let option = AnchoredPathOption {
                intermediates: copied(path.intermediates.as_slice()),
                route: joined(
                    self.request.route_prefix,
                    path.intermediates.as_slice(),
                    self.request.right_anchor,
                ),
                transition_sum: path.transition_sum,
                worst_transition: path.worst_transition,
                stats: AnchoredPathSearchStats {
                    evaluated_states,
                    retained_states,
                    structural_upper_bound,
                },
            };
            proof {
                assert(option@ =~= wanted[at as int]);
                lemma_views_push(options@, option);
                assert(wanted.take(at + 1) =~= wanted.take(at as int).push(wanted[at as int]));
            }
            options.push(option);
            at += 1;
        }
        assert(wanted.take(selected@.len() as int) =~= wanted);
    }
}

/// Finds complete paths from the left anchor to the right anchor for every
/// feasible intermediate count from zero through the configured maximum.
///
/// The search is pure: it never mutates outer state. Callers may retain one
/// option per count or ask for several alternatives and choose a globally
/// compatible combination.
pub fn search_anchored_paths<F: Fn(usize, usize) -> u64>(
    request: AnchoredPathRequest<'_>,
    adjacent_distance: F,
) -> (options: Result<Vec<AnchoredPathOption>, AnchoredPathError>)
    requires
        is_adjacency(adjacent_distance),
        request.config.max_intermediates < usize::MAX,
        request.immutable_history@.len() + request.route_prefix@.len() + request.tracks@.len()
            < usize::MAX,
    ensures
        match request_model(request, adjacent_distance).search() {
            Ok(found) => options is Ok && views(options->Ok_0@) == found,
            Err(error) => options is Err && options->Err_0 == error,
        },
{
    match validate_request(&request, Ghost(adjacency(adjacent_distance))) {
        Err(error) => {
            return Err(error);
        },
        Ok(_) => {},
    }
    let ghost model = request_model(request, adjacent_distance);
    let ghost track_count = request.tracks@.len() as int;
    let mut usable: Vec<AnchoredPathCandidate> = Vec::new();
    let mut at: usize = 0;
    while at < request.candidates.len()
        invariant
            at <= request.candidates@.len(),
            model == request_model(request, adjacent_distance),
            model.refusal() is None,
            in_range(model.candidate_tracks(), track_count),
            usable@ =~= model.usable_upto(at as int),
            forall|i: int| 0 <= i < usable@.len() ==> (#[trigger] usable@[i]).track < track_count,
        decreases request.candidates@.len() - at,
    {
        let candidate = request.candidates[at];
        assert(model.candidate_tracks()[at as int] == candidate.track);
        if !holds(request.unavailable_tracks, candidate.track) {
            let ghost before = usable@;
            placed_candidate(&mut usable, candidate);
            proof {
                lemma_placed_members(before, candidate);
                assert forall|i: int| 0 <= i < usable@.len() implies (#[trigger] usable@[i]).track
                    < track_count by {}
            }
        }
        at += 1;
    }
    let mut repeat_prefix = copied(request.immutable_history);
    repeat_prefix.extend_from_slice(request.route_prefix);
    assert(repeat_prefix@ =~= model.repeat_prefix());
    let search = PathSearch { request, distance: &adjacent_distance, usable, repeat_prefix };
    let direct: u64 = adjacent(&adjacent_distance, request.left_anchor, request.right_anchor);
    let structural_upper_bound: usize = if request.config.max_intermediates < search.usable.len() {
        request.config.max_intermediates
    } else {
        search.usable.len()
    };
    let nothing: Vec<usize> = Vec::new();
    let first = AnchoredPathOption {
        route: joined(request.route_prefix, nothing.as_slice(), request.right_anchor),
        intermediates: nothing,
        transition_sum: direct as u128,
        worst_transition: direct,
        stats: AnchoredPathSearchStats {
            evaluated_states: 1,
            retained_states: 1,
            structural_upper_bound,
        },
    };
    assert(first@ =~= model.direct_option());
    let mut options: Vec<AnchoredPathOption> = Vec::new();
    options.push(first);
    assert(views(options@) =~= seq![model.direct_option()]);
    let mut requested: usize = 0;
    while requested < request.config.max_intermediates
        invariant
            requested <= request.config.max_intermediates < usize::MAX,
            search.valid(),
            search.model() == model,
            views(options@) == model.options_upto(requested as int),
        decreases request.config.max_intermediates - requested,
    {
        requested += 1;
        search.append_options(requested, &mut options);
    }
    Ok(options)
}

proof fn lemma_placed_members(list: Seq<AnchoredPathCandidate>, candidate: AnchoredPathCandidate)
    ensures
        forall|i: int|
            0 <= i < placed(list, candidate).len() ==> (#[trigger] placed(list, candidate)[i])
                == candidate || list.contains(placed(list, candidate)[i]),
{
    let at = place_from(list, candidate.track, 0);
    lemma_place_in_range(list, candidate.track, 0);
    let next = placed(list, candidate);
    assert forall|i: int| 0 <= i < next.len() implies (#[trigger] next[i]) == candidate
        || list.contains(next[i]) by {
        if at < list.len() && list[at].track == candidate.track {
            if i != at {
                assert(next[i] == list[i]);
            }
        } else if i < at {
            assert(next[i] == list[i]);
        } else if i > at {
            assert(next[i] == list[i - 1]);
        }
    }
}

pub proof fn lemma_place_in_range(list: Seq<AnchoredPathCandidate>, track: usize, at: int)
    requires
        0 <= at <= list.len(),
    ensures
        at <= place_from(list, track, at) <= list.len(),
        place_from(list, track, at) < list.len() ==> list[place_from(list, track, at)].track
            >= track,
        forall|i: int| at <= i < place_from(list, track, at) ==> (#[trigger] list[i]).track < track,
    decreases list.len() - at,
{
    if at < list.len() && list[at].track < track {
        lemma_place_in_range(list, track, at + 1);
    }
}

fn validate_tracks(tracks: &[usize], track_count: usize) -> (valid: Result<(), AnchoredPathError>)
    ensures
        valid is Ok == in_range(tracks@, track_count as int),
        valid is Ok == (first_outside(tracks@, track_count as int) == tracks@.len()),
        valid is Err ==> valid->Err_0 == unknown_track(tracks@, track_count as int)
            && first_outside(tracks@, track_count as int) < tracks@.len(),
{
    match find_outside(tracks, track_count) {
        Some(track) => Err(AnchoredPathError::InvalidTrackIndex(track)),
        None => Ok(()),
    }
}

fn validate_request(
    request: &AnchoredPathRequest<'_>,
    Ghost(distance): Ghost<spec_fn(usize, usize) -> u64>,
) -> (valid: Result<(), AnchoredPathError>)
    ensures
        ({
            let model = PathModel {
                prefix: request.route_prefix@,
                history: request.immutable_history@,
                unavailable: request.unavailable_tracks@,
                left: request.left_anchor,
                right: request.right_anchor,
                candidates: request.candidates@,
                tracks: request.tracks@,
                config: request.config,
                distance,
            };
            &&& match model.refusal() {
                Some(error) => valid is Err && valid->Err_0 == error,
                None => valid is Ok,
            }
            &&& valid is Ok ==> in_range(model.prefix, model.tracks.len() as int) && in_range(
                model.history,
                model.tracks.len() as int,
            ) && in_range(model.candidate_tracks(), model.tracks.len() as int)
        }),
{
    let count: usize = request.tracks.len();
    let prefix = request.route_prefix;
    if prefix.len() == 0 || prefix[prefix.len() - 1] != request.left_anchor {
        return Err(
            AnchoredPathError::InvalidRoute(
                "anchored path route prefix must end at its left anchor",
            ),
        );
    }
    if request.left_anchor == request.right_anchor {
        return Err(
            AnchoredPathError::InvalidRoute(
                "anchored path requires distinct left and right anchors",
            ),
        );
    }
    if request.config.candidate_limit == 0 || request.config.beam_width == 0 {
        return Err(
            AnchoredPathError::InvalidConfig(
                "anchored path candidate and beam limits must be at least one",
            ),
        );
    }
    if request.config.alternatives_per_count == 0 {
        return Err(
            AnchoredPathError::InvalidConfig(
                "anchored path alternatives per count must be at least one",
            ),
        );
    }
    if request.config.variation_percent > 100 {
        return Err(
            AnchoredPathError::InvalidConfig("anchored path variation percent must not exceed 100"),
        );
    }
    match validate_tracks(prefix, count) {
        Err(error) => {
            return Err(error);
        },
        Ok(_) => {},
    }
    match validate_tracks(request.immutable_history, count) {
        Err(error) => {
            return Err(error);
        },
        Ok(_) => {},
    }
    match validate_tracks(request.unavailable_tracks, count) {
        Err(error) => {
            return Err(error);
        },
        Ok(_) => {},
    }
    if request.left_anchor >= count {
        return Err(AnchoredPathError::InvalidTrackIndex(request.left_anchor));
    }
    if request.right_anchor >= count {
        return Err(AnchoredPathError::InvalidTrackIndex(request.right_anchor));
    }
    let mut tracks: Vec<usize> = Vec::new();
    let mut at: usize = 0;
    while at < request.candidates.len()
        invariant
            at <= request.candidates@.len(),
            tracks@ =~= Seq::new(at as nat, |i: int| request.candidates@[i].track),
        decreases request.candidates@.len() - at,
    {
        tracks.push(request.candidates[at].track);
        at += 1;
    }
    validate_tracks(tracks.as_slice(), count)
}

} // verus!
