//! What holds of every option of a path search.

use crate::anchored_path::{
    complete_at_least, complete_first, generated_safe, generated_safe_at, larger,
    lemma_path_rankings, lemma_place_in_range, near_sum, near_worst, partial_first, place_from,
    placed, same_path, shuffled_first, AnchoredPathCandidate, AnchoredPathOptionView,
    AnchoredPathSearchConfig, Growth, PathModel, PathView,
};
use crate::bridge::{position_safe, windows_safe_at};
use crate::route::{gap_between, RouteTrack};
use crate::sorting::{
    all_hold, dedup, dedup_from, first_few, keeping_the_first_drops_the_last, lemma_all_hold,
    sifting_drops_the_last, stable_sort, stable_sort_is_sorted, stable_sort_same_members,
};
use vstd::prelude::*;

verus! {

impl PathModel {
    /// The track before position `at` of a path, the left anchor before the first.
    pub open spec fn before(self, intermediates: Seq<usize>, at: int) -> usize {
        if at <= 0 {
            self.left
        } else {
            intermediates[at - 1]
        }
    }

    /// The summed distances into the first `count` tracks of a path.
    pub open spec fn walk_sum(self, intermediates: Seq<usize>, count: int) -> nat
        decreases count,
    {
        if count <= 0 {
            0
        } else {
            self.walk_sum(intermediates, count - 1) + (self.distance)(
                self.before(intermediates, count - 1),
                intermediates[count - 1],
            ) as nat
        }
    }

    /// The largest distance into the first `count` tracks of a path.
    pub open spec fn walk_worst(self, intermediates: Seq<usize>, count: int) -> nat
        decreases count,
    {
        if count <= 0 {
            0
        } else {
            larger(
                self.walk_worst(intermediates, count - 1),
                (self.distance)(
                    self.before(intermediates, count - 1),
                    intermediates[count - 1],
                ) as nat,
            )
        }
    }

    /// Whether a track is a candidate and available.
    pub open spec fn available(self, track: usize) -> bool {
        !self.unavailable.contains(track) && exists|i: int|
            0 <= i < self.candidates.len() && (#[trigger] self.candidates[i]).track == track
    }

    /// Whether a path leads through distinct available tracks and carries the
    /// sum and the largest of its distances.
    pub open spec fn sound(self, path: PathView, len: int) -> bool {
        &&& path.intermediates.len() == len
        &&& path.intermediates.no_duplicates()
        &&& forall|i: int|
            0 <= i < path.intermediates.len() ==> self.available(#[trigger] path.intermediates[i])
        &&& path.transition_sum == self.walk_sum(path.intermediates, len)
        &&& path.worst_transition == self.walk_worst(path.intermediates, len)
    }

    /// What holds of a complete path: it is sound up to the right anchor and
    /// repeats nothing too soon.
    pub open spec fn sound_to_anchor(self, path: PathView, len: int) -> bool {
        let walk = path.intermediates.push(self.right);
        &&& path.intermediates.len() == len
        &&& path.intermediates.no_duplicates()
        &&& forall|i: int|
            0 <= i < path.intermediates.len() ==> self.available(#[trigger] path.intermediates[i])
        &&& path.transition_sum == self.walk_sum(walk, len + 1)
        &&& path.worst_transition == self.walk_worst(walk, len + 1)
        &&& generated_safe(
            (self.repeat_prefix() + path.intermediates).push(self.right),
            self.repeat_prefix().len() as int,
            len,
            self.tracks,
            self.config,
        )
    }
}

proof fn lemma_usable_available(model: PathModel, count: int)
    requires
        0 <= count <= model.candidates.len(),
    ensures
        forall|i: int|
            0 <= i < model.usable_upto(count).len() ==> model.available(
                (#[trigger] model.usable_upto(count)[i]).track,
            ),
    decreases count,
{
    if count > 0 {
        lemma_usable_available(model, count - 1);
        let before = model.usable_upto(count - 1);
        let candidate = model.candidates[count - 1];
        if !model.unavailable.contains(candidate.track) {
            let at = place_from(before, candidate.track, 0);
            lemma_place_in_range(before, candidate.track, 0);
            let next = placed(before, candidate);
            assert(model.available(candidate.track));
            assert forall|i: int| 0 <= i < next.len() implies model.available(
                (#[trigger] next[i]).track,
            ) by {
                if at < before.len() && before[at].track == candidate.track {
                    if i != at {
                        assert(next[i] == before[i]);
                    }
                } else if i < at {
                    assert(next[i] == before[i]);
                } else if i > at {
                    assert(next[i] == before[i - 1]);
                }
            }
        }
    }
}

proof fn lemma_walk_prefix(model: PathModel, left: Seq<usize>, right: Seq<usize>, count: int)
    requires
        0 <= count <= left.len(),
        count <= right.len(),
        forall|i: int| 0 <= i < count ==> left[i] == right[i],
    ensures
        model.walk_sum(left, count) == model.walk_sum(right, count),
        model.walk_worst(left, count) == model.walk_worst(right, count),
    decreases count,
{
    if count > 0 {
        lemma_walk_prefix(model, left, right, count - 1);
    }
}

proof fn lemma_continued_sound(
    model: PathModel,
    path: PathView,
    candidate: AnchoredPathCandidate,
    remaining: int,
    len: int,
)
    requires
        model.sound(path, len),
        model.available(candidate.track),
        !path.intermediates.contains(candidate.track),
    ensures
        model.sound(model.continued(path, candidate, remaining), len + 1),
{
    let next = model.continued(path, candidate, remaining);
    lemma_walk_prefix(model, path.intermediates, next.intermediates, len);
    assert forall|i: int| 0 <= i < next.intermediates.len() implies model.available(
        #[trigger] next.intermediates[i],
    ) by {
        if i < len {
            assert(next.intermediates[i] == path.intermediates[i]);
        }
    }
    if len > 0 {
        assert(model.before(next.intermediates, len) == path.intermediates.last());
    }
}

proof fn lemma_variants_sound(
    model: PathModel,
    path: PathView,
    remaining: int,
    count: int,
    len: int,
)
    requires
        model.sound(path, len),
        0 <= count <= model.usable().len(),
    ensures
        all_hold(
            model.variants_upto(path, remaining, count),
            |next: PathView| model.sound(next, len + 1),
        ),
    decreases count,
{
    if count > 0 {
        lemma_variants_sound(model, path, remaining, count - 1, len);
        lemma_usable_available(model, model.candidates.len() as int);
        let candidate = model.usable()[count - 1];
        if model.fits(path, candidate.track, remaining) {
            lemma_continued_sound(model, path, candidate, remaining, len);
        }
    }
}

proof fn lemma_expanded_sound(
    model: PathModel,
    frontier: Seq<PathView>,
    remaining: int,
    count: int,
    len: int,
)
    requires
        all_hold(frontier, |path: PathView| model.sound(path, len)),
        0 <= count <= frontier.len(),
    ensures
        all_hold(
            model.expanded_upto(frontier, remaining, count),
            |next: PathView| model.sound(next, len + 1),
        ),
    decreases count,
{
    if count > 0 {
        lemma_expanded_sound(model, frontier, remaining, count - 1, len);
        let path = frontier[count - 1];
        lemma_variants_sound(model, path, remaining, model.usable().len() as int, len);
        let all = model.variants_upto(path, remaining, model.usable().len() as int);
        let property = |next: PathView| model.sound(next, len + 1);
        lemma_all_hold(all, property, partial_first(), same_path(), 0);
        lemma_all_hold(
            stable_sort(all, partial_first()),
            property,
            partial_first(),
            same_path(),
            model.config.candidate_limit as int,
        );
    }
}

proof fn lemma_grown_sound(model: PathModel, requested: int, layer: int, growth: Growth)
    requires
        0 <= layer <= requested,
        all_hold(growth.frontier, |path: PathView| model.sound(path, layer)),
    ensures
        all_hold(
            model.grown(requested, layer, growth).frontier,
            |path: PathView| model.sound(path, requested),
        ),
    decreases requested - layer,
{
    if layer < requested && growth.frontier.len() > 0 {
        let remaining = requested - layer;
        let expanded = model.expanded_upto(
            growth.frontier,
            remaining,
            growth.frontier.len() as int,
        );
        lemma_expanded_sound(
            model,
            growth.frontier,
            remaining,
            growth.frontier.len() as int,
            layer,
        );
        let property = |next: PathView| model.sound(next, layer + 1);
        lemma_all_hold(expanded, property, partial_first(), same_path(), 0);
        let sorted = stable_sort(expanded, partial_first());
        lemma_all_hold(sorted, property, partial_first(), same_path(), 0);
        lemma_all_hold(
            dedup(sorted, same_path()),
            property,
            partial_first(),
            same_path(),
            model.config.beam_width as int,
        );
        let next = model.pruned(expanded);
        lemma_grown_sound(
            model,
            requested,
            layer + 1,
            Growth {
                frontier: next,
                evaluated: crate::anchored_path::capped_sum(
                    growth.evaluated,
                    expanded.len() as int,
                ),
                retained: crate::anchored_path::capped_sum(growth.retained, next.len() as int),
            },
        );
    }
}

proof fn lemma_completed_sound(
    model: PathModel,
    frontier: Seq<PathView>,
    requested: int,
    count: int,
)
    requires
        0 < requested,
        all_hold(frontier, |path: PathView| model.sound(path, requested)),
        0 <= count <= frontier.len(),
    ensures
        all_hold(
            model.completed_upto(frontier, requested, count),
            |path: PathView| model.sound_to_anchor(path, requested),
        ),
    decreases count,
{
    if count > 0 {
        lemma_completed_sound(model, frontier, requested, count - 1);
        let path = frontier[count - 1];
        assert(model.sound(path, requested));
        let walk = path.intermediates.push(model.right);
        lemma_walk_prefix(model, path.intermediates, walk, requested);
        assert(model.before(walk, requested) == path.intermediates.last());
    }
}

proof fn lemma_band_members(model: PathModel, complete: Seq<PathView>, at: int, done: Seq<PathView>, property: spec_fn(PathView) -> bool)
    requires
        all_hold(complete, property),
        all_hold(done, property),
        0 <= at <= complete.len(),
    ensures
        all_hold(model.band_from(complete, at, done), property),
    decreases complete.len() - at,
{
    if at < complete.len() {
        lemma_band_members(model, complete, at + 1, done.push(complete[at]), property);
        lemma_band_members(model, complete, at + 1, done, property);
    }
}

/// The paths selected for a count lead through that many distinct available
/// tracks, carry their true sum and largest distance, and repeat nothing too
/// soon; there are no more of them than alternatives were asked for.
pub proof fn selected_paths_are_sound(model: PathModel, requested: usize)
    requires
        0 < requested,
    ensures
        all_hold(
            model.selected(requested),
            |path: PathView| model.sound_to_anchor(path, requested as int),
        ),
        model.selected(requested).len() <= model.config.alternatives_per_count,
{
    let count = requested as int;
    let seed = model.seed_path(count);
    assert(model.sound(seed, 0));
    lemma_grown_sound(
        model,
        count,
        0,
        Growth { frontier: seq![seed], evaluated: 1, retained: 1 },
    );
    let frontier = model.frontier(count).frontier;
    lemma_completed_sound(model, frontier, count, frontier.len() as int);
    let property = |path: PathView| model.sound_to_anchor(path, count);
    let completed = model.completed_upto(frontier, count, frontier.len() as int);
    lemma_all_hold(completed, property, complete_first(), same_path(), 0);
    lemma_band_members(model, model.complete(count), 0, seq![], property);
    let band = model.band_from(model.complete(count), 0, seq![]);
    let pool_size = model.pool(band.len() as int);
    let limit = if pool_size < 0 {
        0
    } else {
        pool_size
    };
    lemma_pool_nonnegative(model, band.len() as int);
    let shuffled = shuffled_first(model.config.generation_seed, requested, model.right);
    lemma_all_hold(band, property, complete_first(), same_path(), limit);
    let pool = first_few(band, pool_size);
    lemma_all_hold(pool, property, shuffled, same_path(), 0);
    let ordered = if model.config.variation_percent > 0 {
        stable_sort(pool, shuffled)
    } else {
        pool
    };
    lemma_all_hold(
        ordered,
        property,
        shuffled,
        same_path(),
        model.config.alternatives_per_count as int,
    );
}

proof fn lemma_band_near(
    model: PathModel,
    complete: Seq<PathView>,
    at: int,
    done: Seq<PathView>,
)
    requires
        0 <= at <= complete.len(),
        all_hold(done, near(complete[0])),
    ensures
        all_hold(model.band_from(complete, at, done), near(complete[0])),
        done.is_prefix_of(model.band_from(complete, at, done)),
    decreases complete.len() - at,
{
    if at < complete.len() {
        if near_worst(complete[at], complete[0]) && near_sum(complete[at], complete[0]) {
            let next = done.push(complete[at]);
            assert(all_hold(next, near(complete[0])));
            lemma_band_near(model, complete, at + 1, next);
            assert(next.take(done.len() as int) =~= done);
        } else {
            lemma_band_near(model, complete, at + 1, done);
        }
    }
}

/// What holds of a path that comes close to another.
pub open spec fn near(best: PathView) -> spec_fn(PathView) -> bool {
    |path: PathView| near_worst(path, best) && near_sum(path, best)
}

/// The paths selected for a count come close to the best one of that count, in
/// their largest distance and in their sum. Without variation the first of them
/// is the best one.
pub proof fn selected_paths_come_close_to_the_best(model: PathModel, requested: usize)
    requires
        0 < requested,
        0 < model.config.alternatives_per_count,
        model.complete(requested as int).len() > 0,
    ensures
        all_hold(model.selected(requested), near(model.complete(requested as int)[0])),
        model.selected(requested).len() > 0,
        model.config.variation_percent == 0 ==> model.selected(requested)[0] == model.complete(
            requested as int,
        )[0],
{
    let complete = model.complete(requested as int);
    let property = near(complete[0]);
    let band = model.band_from(complete, 0, seq![]);
    let first = seq![complete[0]];
    assert(model.band_from(complete, 0, seq![]) == model.band_from(complete, 1, first)) by {
        assert(Seq::<PathView>::empty().push(complete[0]) =~= first);
    }
    lemma_band_near(model, complete, 1, first);
    assert(band[0] == first[0]);
    let pool_size = model.pool(band.len() as int);
    lemma_pool_nonnegative(model, band.len() as int);
    let shuffled = shuffled_first(model.config.generation_seed, requested, model.right);
    lemma_all_hold(band, property, complete_first(), same_path(), pool_size);
    let pool = first_few(band, pool_size);
    lemma_all_hold(pool, property, shuffled, same_path(), 0);
    let ordered = if model.config.variation_percent > 0 {
        stable_sort(pool, shuffled)
    } else {
        pool
    };
    lemma_all_hold(
        ordered,
        property,
        complete_first(),
        same_path(),
        model.config.alternatives_per_count as int,
    );
}

proof fn lemma_pool_nonnegative(model: PathModel, band: int)
    requires
        0 <= band,
    ensures
        0 <= model.pool(band),
{
}

/// What an option promises.
pub open spec fn keeps_promises(model: PathModel, option: AnchoredPathOptionView) -> bool {
    let walk = option.intermediates.push(model.right);
    let len = option.intermediates.len() as int;
    &&& option.route == (model.prefix + option.intermediates).push(model.right)
    &&& len <= model.config.max_intermediates
    &&& option.intermediates.no_duplicates()
    &&& forall|i: int| 0 <= i < len ==> model.available(#[trigger] option.intermediates[i])
    &&& option.transition_sum == model.walk_sum(walk, len + 1)
    &&& option.worst_transition == model.walk_worst(walk, len + 1)
    &&& generated_safe(
        (model.repeat_prefix() + option.intermediates).push(model.right),
        model.repeat_prefix().len() as int,
        len,
        model.tracks,
        model.config,
    )
}

proof fn lemma_options_keep_promises(model: PathModel, count: int)
    requires
        0 <= count <= model.config.max_intermediates,
    ensures
        forall|i: int|
            0 <= i < model.options_upto(count).len() ==> keeps_promises(
                model,
                #[trigger] model.options_upto(count)[i],
            ),
        model.options_upto(count).len() > 0,
        model.options_upto(count)[0] == model.direct_option(),
    decreases count,
{
    if count == 0 {
        let direct = model.direct_option();
        let walk = direct.intermediates.push(model.right);
        assert(model.walk_sum(walk, 0) == 0);
        assert(model.walk_worst(walk, 0) == 0);
        assert(model.walk_sum(walk, 1) == model.direct());
        assert(model.walk_worst(walk, 1) == model.direct());
    } else {
        lemma_options_keep_promises(model, count - 1);
        selected_paths_are_sound(model, count as usize);
        let before = model.options_upto(count - 1);
        let more = model.options_at(count as usize);
        let selected = model.selected(count as usize);
        assert forall|i: int| 0 <= i < model.options_upto(count).len() implies keeps_promises(
            model,
            #[trigger] model.options_upto(count)[i],
        ) by {
            if i < before.len() {
                assert(model.options_upto(count)[i] == before[i]);
            } else {
                let path = selected[i - before.len()];
                assert(model.options_upto(count)[i] == more[i - before.len()]);
                assert(model.sound_to_anchor(path, count));
            }
        }
    }
}

/// Every option of a search keeps the prefix and both anchors, leads through
/// distinct available tracks within the bound, carries its true distances and
/// repeats nothing too soon. The first option is the direct transition.
pub proof fn every_option_keeps_its_promises(model: PathModel)
    ensures
        model.search() matches Ok(options) ==> {
            &&& options.len() > 0
            &&& options[0] == model.direct_option()
            &&& forall|i: int|
                0 <= i < options.len() ==> keeps_promises(model, #[trigger] options[i])
        },
{
    lemma_options_keep_promises(model, model.config.max_intermediates as int);
}

impl PathModel {
    /// Where the usable candidate for a track stands.
    pub open spec fn usable_at(self, track: usize) -> int {
        choose|i: int| 0 <= i < self.usable().len() && (#[trigger] self.usable()[i]).track == track
    }

    /// The summed support of the first `count` tracks of a path.
    pub open spec fn support_sum(self, intermediates: Seq<usize>, count: int) -> nat
        decreases count,
    {
        if count <= 0 {
            0
        } else {
            self.support_sum(intermediates, count - 1) + self.usable()[self.usable_at(
                intermediates[count - 1],
            )].semantic_support as nat
        }
    }

    /// Whether a path through these tracks is one that a search may offer: they
    /// are distinct and available and repeat nothing too soon between the route
    /// before them and the right anchor.
    pub open spec fn fitting(self, intermediates: Seq<usize>) -> bool {
        &&& intermediates.no_duplicates()
        &&& forall|i: int|
            0 <= i < intermediates.len() ==> self.available(#[trigger] intermediates[i])
        &&& generated_safe(
            (self.repeat_prefix() + intermediates).push(self.right),
            self.repeat_prefix().len() as int,
            intermediates.len() as int,
            self.tracks,
            self.config,
        )
    }

    /// The complete path through these tracks.
    pub open spec fn path_through(self, intermediates: Seq<usize>) -> PathView {
        let walk = intermediates.push(self.right);
        let len = intermediates.len() as int;
        PathView {
            intermediates,
            transition_sum: self.walk_sum(walk, len + 1),
            worst_transition: self.walk_worst(walk, len + 1),
            lower_sum: self.walk_sum(walk, len + 1),
            lower_worst: self.walk_worst(walk, len + 1),
            semantic_support: self.support_sum(intermediates, len),
        }
    }

    /// Whether a frontier grows from `layer` to `requested` tracks without
    /// either limit dropping a path: no path has more continuations than
    /// candidates are kept, no layer more paths than the beam is wide.
    pub open spec fn unpruned(self, requested: int, layer: int, frontier: Seq<PathView>) -> bool
        decreases requested - layer,
    {
        layer < requested && frontier.len() > 0 ==> {
            let remaining = requested - layer;
            let expanded = self.expanded_upto(frontier, remaining, frontier.len() as int);
            &&& forall|i: int|
                0 <= i < frontier.len() ==> self.variants_upto(
                    #[trigger] frontier[i],
                    remaining,
                    self.usable().len() as int,
                ).len() <= self.config.candidate_limit
            &&& dedup(stable_sort(expanded, partial_first()), same_path()).len()
                <= self.config.beam_width
            &&& self.unpruned(requested, layer + 1, self.pruned(expanded))
        }
    }

    /// What holds of every path of a frontier, its support included.
    pub open spec fn accounted(self, len: int) -> spec_fn(PathView) -> bool {
        |path: PathView|
            self.sound(path, len) && path.semantic_support == self.support_sum(
                path.intermediates,
                len,
            )
    }
}

/// Whether some path of a list leads through these tracks.
pub open spec fn leads_through(paths: Seq<PathView>, intermediates: Seq<usize>) -> bool {
    exists|i: int| 0 <= i < paths.len() && (#[trigger] paths[i]).intermediates == intermediates
}

proof fn lemma_usable_ascends(model: PathModel, count: int)
    requires
        0 <= count <= model.candidates.len(),
    ensures
        forall|i: int, j: int|
            0 <= i < j < model.usable_upto(count).len() ==> (#[trigger] model.usable_upto(
                count,
            )[i]).track < (#[trigger] model.usable_upto(count)[j]).track,
        forall|k: int|
            0 <= k < count && !model.unavailable.contains(model.candidates[k].track)
                ==> exists|i: int|
                0 <= i < model.usable_upto(count).len() && (#[trigger] model.usable_upto(
                    count,
                )[i]).track == (#[trigger] model.candidates[k]).track,
    decreases count,
{
    if count > 0 {
        lemma_usable_ascends(model, count - 1);
        let before = model.usable_upto(count - 1);
        let candidate = model.candidates[count - 1];
        let next = model.usable_upto(count);
        if !model.unavailable.contains(candidate.track) {
            let at = place_from(before, candidate.track, 0);
            lemma_place_in_range(before, candidate.track, 0);
            let replaces = at < before.len() && before[at].track == candidate.track;
            assert(next == placed(before, candidate));
            assert(next[at] == candidate);
            assert forall|i: int, j: int| 0 <= i < j < next.len() implies (#[trigger] next[i]).track
                < (#[trigger] next[j]).track by {
                if replaces {
                    assert(next[i].track == before[i].track && next[j].track == before[j].track);
                } else if j < at {
                    assert(next[i] == before[i] && next[j] == before[j]);
                } else if j == at {
                    assert(next[i] == before[i]);
                } else if i < at {
                    assert(next[i] == before[i] && next[j] == before[j - 1]);
                } else if i == at {
                    assert(next[j] == before[j - 1]);
                    assert(before[at].track > candidate.track);
                } else {
                    assert(next[i] == before[i - 1] && next[j] == before[j - 1]);
                }
            }
            assert forall|k: int|
                0 <= k < count && !model.unavailable.contains(
                    (#[trigger] model.candidates[k]).track,
                ) implies exists|i: int|
                0 <= i < next.len() && (#[trigger] next[i]).track == model.candidates[k].track by {
                if k < count - 1 {
                    let i = choose|i: int|
                        0 <= i < before.len() && (#[trigger] before[i]).track
                            == model.candidates[k].track;
                    if replaces || i < at {
                        assert(next[i].track == before[i].track);
                    } else {
                        assert(next[i + 1] == before[i]);
                    }
                }
            }
        } else {
            assert forall|k: int|
                0 <= k < count && !model.unavailable.contains(
                    (#[trigger] model.candidates[k]).track,
                ) implies exists|i: int|
                0 <= i < next.len() && (#[trigger] next[i]).track == model.candidates[k].track by {
                assert(k < count - 1);
            }
        }
    }
}

/// An available track has exactly one usable candidate.
proof fn lemma_usable_at(model: PathModel, track: usize)
    requires
        model.available(track),
    ensures
        0 <= model.usable_at(track) < model.usable().len(),
        model.usable()[model.usable_at(track)].track == track,
        forall|i: int|
            0 <= i < model.usable().len() && (#[trigger] model.usable()[i]).track == track ==> i
                == model.usable_at(track),
{
    lemma_usable_ascends(model, model.candidates.len() as int);
    let k = choose|k: int|
        0 <= k < model.candidates.len() && (#[trigger] model.candidates[k]).track == track;
    assert(!model.unavailable.contains(model.candidates[k].track));
}

proof fn lemma_support_prefix(model: PathModel, left: Seq<usize>, right: Seq<usize>, count: int)
    requires
        0 <= count <= left.len(),
        count <= right.len(),
        forall|i: int| 0 <= i < count ==> left[i] == right[i],
    ensures
        model.support_sum(left, count) == model.support_sum(right, count),
    decreases count,
{
    if count > 0 {
        lemma_support_prefix(model, left, right, count - 1);
    }
}

proof fn lemma_variants_accounted(
    model: PathModel,
    path: PathView,
    remaining: int,
    count: int,
    len: int,
)
    requires
        model.accounted(len)(path),
        0 <= count <= model.usable().len(),
    ensures
        all_hold(model.variants_upto(path, remaining, count), model.accounted(len + 1)),
        forall|i: int|
            0 <= i < count && model.fits(path, (#[trigger] model.usable()[i]).track, remaining)
                ==> leads_through(
                model.variants_upto(path, remaining, count),
                path.intermediates.push(model.usable()[i].track),
            ),
    decreases count,
{
    if count > 0 {
        lemma_variants_accounted(model, path, remaining, count - 1, len);
        let before = model.variants_upto(path, remaining, count - 1);
        let after = model.variants_upto(path, remaining, count);
        lemma_usable_available(model, model.candidates.len() as int);
        let candidate = model.usable()[count - 1];
        if model.fits(path, candidate.track, remaining) {
            let next = model.continued(path, candidate, remaining);
            lemma_continued_sound(model, path, candidate, remaining, len);
            lemma_usable_at(model, candidate.track);
            lemma_support_prefix(model, path.intermediates, next.intermediates, len);
            assert(model.accounted(len + 1)(next));
            assert(after.last() == next);
            assert forall|i: int| 0 <= i < after.len() implies model.accounted(len + 1)(
                #[trigger] after[i],
            ) by {
                if i < before.len() {
                    assert(after[i] == before[i]);
                }
            }
        }
        assert forall|i: int|
            0 <= i < count && model.fits(
                path,
                (#[trigger] model.usable()[i]).track,
                remaining,
            ) implies leads_through(after, path.intermediates.push(model.usable()[i].track)) by {
            let tracks = path.intermediates.push(model.usable()[i].track);
            if i < count - 1 {
                let k = choose|k: int|
                    0 <= k < before.len() && (#[trigger] before[k]).intermediates == tracks;
                assert(after[k] == before[k]);
            } else {
                assert(after[after.len() - 1].intermediates == tracks);
            }
        }
    }
}

proof fn lemma_sort_leads(paths: Seq<PathView>, tracks: Seq<usize>, leq: spec_fn(PathView, PathView) -> bool)
    requires
        leads_through(paths, tracks),
    ensures
        leads_through(stable_sort(paths, leq), tracks),
{
    stable_sort_same_members(paths, leq);
    let i = choose|i: int| 0 <= i < paths.len() && (#[trigger] paths[i]).intermediates == tracks;
    assert(paths.contains(paths[i]));
    let sorted = stable_sort(paths, leq);
    let k = choose|k: int| 0 <= k < sorted.len() && sorted[k] == paths[i];
    assert(sorted[k].intermediates == tracks);
}

proof fn lemma_dedup_leads(
    paths: Seq<PathView>,
    at: int,
    kept: Seq<PathView>,
    tracks: Seq<usize>,
)
    requires
        0 <= at <= paths.len(),
        leads_through(kept, tracks) || exists|i: int|
            at <= i < paths.len() && (#[trigger] paths[i]).intermediates == tracks,
    ensures
        leads_through(dedup_from(paths, same_path(), at, kept), tracks),
    decreases paths.len() - at,
{
    if at < paths.len() {
        if kept.len() > 0 && same_path()(paths[at], kept.last()) {
            if paths[at].intermediates == tracks {
                assert(kept[kept.len() - 1].intermediates == tracks);
            }
            lemma_dedup_leads(paths, at + 1, kept, tracks);
        } else {
            let next = kept.push(paths[at]);
            if leads_through(kept, tracks) {
                let i = choose|i: int|
                    0 <= i < kept.len() && (#[trigger] kept[i]).intermediates == tracks;
                assert(next[i].intermediates == tracks);
            } else if paths[at].intermediates == tracks {
                assert(next[kept.len() as int].intermediates == tracks);
            }
            lemma_dedup_leads(paths, at + 1, next, tracks);
        }
    }
}

proof fn lemma_expanded_leads(
    model: PathModel,
    frontier: Seq<PathView>,
    remaining: int,
    count: int,
    len: int,
    tracks: Seq<usize>,
)
    requires
        0 <= count <= frontier.len(),
        all_hold(frontier, model.accounted(len)),
        forall|i: int|
            0 <= i < frontier.len() ==> model.variants_upto(
                #[trigger] frontier[i],
                remaining,
                model.usable().len() as int,
            ).len() <= model.config.candidate_limit,
    ensures
        all_hold(model.expanded_upto(frontier, remaining, count), model.accounted(len + 1)),
        forall|i: int|
            0 <= i < count && leads_through(
                model.variants_upto(
                    #[trigger] frontier[i],
                    remaining,
                    model.usable().len() as int,
                ),
                tracks,
            ) ==> leads_through(model.expanded_upto(frontier, remaining, count), tracks),
    decreases count,
{
    if count > 0 {
        lemma_expanded_leads(model, frontier, remaining, count - 1, len, tracks);
        let path = frontier[count - 1];
        let all = model.variants_upto(path, remaining, model.usable().len() as int);
        let sorted = stable_sort(all, partial_first());
        lemma_variants_accounted(model, path, remaining, model.usable().len() as int, len);
        lemma_all_hold(all, model.accounted(len + 1), partial_first(), same_path(), 0);
        stable_sort_same_members(all, partial_first());
        assert(model.variants(path, remaining) == sorted);
        let before = model.expanded_upto(frontier, remaining, count - 1);
        let after = model.expanded_upto(frontier, remaining, count);
        assert(after == before + sorted);
        assert forall|i: int|
            0 <= i < count && leads_through(
                model.variants_upto(
                    #[trigger] frontier[i],
                    remaining,
                    model.usable().len() as int,
                ),
                tracks,
            ) implies leads_through(after, tracks) by {
            if i < count - 1 {
                let k = choose|k: int|
                    0 <= k < before.len() && (#[trigger] before[k]).intermediates == tracks;
                assert(after[k] == before[k]);
            } else {
                lemma_sort_leads(all, tracks, partial_first());
                let k = choose|k: int|
                    0 <= k < sorted.len() && (#[trigger] sorted[k]).intermediates == tracks;
                assert(after[before.len() + k] == sorted[k]);
            }
        }
    }
}

/// A track of a fitting path may continue the path up to it.
proof fn lemma_fitting_fits(
    model: PathModel,
    tracks: Seq<usize>,
    layer: int,
    path: PathView,
)
    requires
        model.fitting(tracks),
        0 <= layer < tracks.len(),
        path.intermediates == tracks.take(layer),
    ensures
        model.fits(path, tracks[layer], tracks.len() - layer),
{
    let prefix = model.repeat_prefix();
    let full = (prefix + tracks).push(model.right);
    let partial = (prefix + path.intermediates).push(tracks[layer]);
    let position = prefix.len() + layer;
    let end = prefix.len() + tracks.len();
    assert(generated_safe_at(full, position, model.tracks, model.config));
    assert(full[position] == tracks[layer]);
    assert(full[end as int] == model.right);
    assert(position_safe(
        full,
        model.tracks,
        position,
        model.config.artist_window,
        model.config.album_window,
        end as int,
    ));
    assert(!path.intermediates.contains(tracks[layer])) by {
        if path.intermediates.contains(tracks[layer]) {
            let i = choose|i: int|
                0 <= i < path.intermediates.len() && path.intermediates[i] == tracks[layer];
            assert(tracks[i] == tracks[layer]);
        }
    }
    assert forall|other: int| 0 <= other < partial.len() implies partial[other] == full[other] by {}
    assert(windows_safe_at(
        partial,
        model.tracks,
        position,
        model.config.artist_window,
        model.config.album_window,
    )) by {
        assert forall|other: int| 0 <= other < partial.len() && other != position implies position_safe(
            partial,
            model.tracks,
            position,
            model.config.artist_window,
            model.config.album_window,
            other,
        ) by {
            assert(position_safe(
                full,
                model.tracks,
                position,
                model.config.artist_window,
                model.config.album_window,
                other,
            ));
        }
    }
    assert(generated_safe_at(partial, position, model.tracks, model.config)) by {
        assert forall|other: int| 0 <= other < partial.len() && other != position implies gap_between(
            other,
            position,
        ) > model.config.track_window || #[trigger] partial[other] != partial[position] by {
            assert(full[other] == partial[other]);
        }
    }
}

proof fn lemma_grown_leads(
    model: PathModel,
    tracks: Seq<usize>,
    layer: int,
    growth: Growth,
)
    requires
        model.fitting(tracks),
        0 <= layer <= tracks.len(),
        all_hold(growth.frontier, model.accounted(layer)),
        leads_through(growth.frontier, tracks.take(layer)),
        model.unpruned(tracks.len() as int, layer, growth.frontier),
    ensures
        all_hold(
            model.grown(tracks.len() as int, layer, growth).frontier,
            model.accounted(tracks.len() as int),
        ),
        leads_through(model.grown(tracks.len() as int, layer, growth).frontier, tracks),
    decreases tracks.len() - layer,
{
    let requested = tracks.len() as int;
    let frontier = growth.frontier;
    if layer >= requested {
        assert(tracks.take(layer) =~= tracks);
    } else {
        let remaining = requested - layer;
        let expanded = model.expanded_upto(frontier, remaining, frontier.len() as int);
        let onward = tracks.take(layer + 1);
        let at = choose|i: int|
            0 <= i < frontier.len() && (#[trigger] frontier[i]).intermediates == tracks.take(layer);
        let path = frontier[at];
        lemma_fitting_fits(model, tracks, layer, path);
        assert(model.available(tracks[layer]));
        lemma_usable_at(model, tracks[layer]);
        assert(model.accounted(layer)(path));
        lemma_variants_accounted(model, path, remaining, model.usable().len() as int, layer);
        let place = model.usable_at(tracks[layer]);
        assert(model.fits(path, model.usable()[place].track, remaining));
        assert(path.intermediates.push(tracks[layer]) =~= onward);
        lemma_expanded_leads(
            model,
            frontier,
            remaining,
            frontier.len() as int,
            layer,
            onward,
        );
        assert(leads_through(
            model.variants_upto(frontier[at], remaining, model.usable().len() as int),
            onward,
        ));
        lemma_sort_leads(expanded, onward, partial_first());
        let sorted = stable_sort(expanded, partial_first());
        assert(exists|i: int|
            0 <= i < sorted.len() && (#[trigger] sorted[i]).intermediates == onward);
        lemma_dedup_leads(sorted, 0, seq![], onward);
        let property = model.accounted(layer + 1);
        lemma_all_hold(expanded, property, partial_first(), same_path(), 0);
        lemma_all_hold(sorted, property, partial_first(), same_path(), 0);
        let next = model.pruned(expanded);
        assert(next == dedup(sorted, same_path()));
        lemma_grown_leads(
            model,
            tracks,
            layer + 1,
            Growth {
                frontier: next,
                evaluated: crate::anchored_path::capped_sum(
                    growth.evaluated,
                    expanded.len() as int,
                ),
                retained: crate::anchored_path::capped_sum(growth.retained, next.len() as int),
            },
        );
    }
}

proof fn lemma_completed_contains(
    model: PathModel,
    frontier: Seq<PathView>,
    tracks: Seq<usize>,
    count: int,
)
    requires
        model.fitting(tracks),
        0 < tracks.len(),
        0 <= count <= frontier.len(),
        all_hold(frontier, model.accounted(tracks.len() as int)),
    ensures
        forall|i: int|
            0 <= i < count && (#[trigger] frontier[i]).intermediates == tracks
                ==> model.completed_upto(frontier, tracks.len() as int, count).contains(
                model.path_through(tracks),
            ),
    decreases count,
{
    if count > 0 {
        let requested = tracks.len() as int;
        lemma_completed_contains(model, frontier, tracks, count - 1);
        let path = frontier[count - 1];
        let before = model.completed_upto(frontier, requested, count - 1);
        let after = model.completed_upto(frontier, requested, count);
        assert forall|i: int|
            0 <= i < count && (#[trigger] frontier[i]).intermediates == tracks implies after.contains(
            model.path_through(tracks),
        ) by {
            if i < count - 1 {
                let k = choose|k: int|
                    0 <= k < before.len() && before[k] == model.path_through(tracks);
                assert(after[k] == before[k]);
            } else {
                assert(model.accounted(requested)(path));
                let walk = tracks.push(model.right);
                lemma_walk_prefix(model, tracks, walk, requested);
                assert(model.before(walk, requested) == tracks.last());
                assert(model.closes(path, requested));
                assert(model.closed(path) =~= model.path_through(tracks));
                assert(after.last() == model.path_through(tracks));
            }
        }
    }
}

/// Whether an option is the first of a list that leads through `count` tracks.
pub open spec fn first_through(
    options: Seq<AnchoredPathOptionView>,
    count: int,
    option: AnchoredPathOptionView,
) -> bool {
    exists|at: int|
        0 <= at < options.len() && (#[trigger] options[at]) == option
            && option.intermediates.len() == count && forall|i: int|
            0 <= i < at ==> (#[trigger] options[i]).intermediates.len() != count
}

proof fn lemma_first_option_through(model: PathModel, requested: usize, count: int)
    requires
        0 < requested,
        0 <= count <= usize::MAX,
        model.options_at(requested).len() > 0,
    ensures
        forall|i: int|
            0 <= i < model.options_upto(count).len() ==> (#[trigger] model.options_upto(
                count,
            )[i]).intermediates.len() <= count,
        requested <= count ==> first_through(
            model.options_upto(count),
            requested as int,
            model.options_at(requested)[0],
        ),
    decreases count,
{
    if count > 0 {
        lemma_first_option_through(model, requested, count - 1);
        selected_paths_are_sound(model, count as usize);
        let before = model.options_upto(count - 1);
        let more = model.options_at(count as usize);
        let selected = model.selected(count as usize);
        let after = model.options_upto(count);
        assert forall|i: int| 0 <= i < more.len() implies (#[trigger] more[i]).intermediates.len()
            == count by {
            assert(model.sound_to_anchor(selected[i], count));
        }
        assert forall|i: int| 0 <= i < after.len() implies (
        #[trigger] after[i]).intermediates.len() <= count by {
            if i < before.len() {
                assert(after[i] == before[i]);
            } else {
                assert(after[i] == more[i - before.len()]);
            }
        }
        if requested == count {
            let at = before.len() as int;
            assert(after[at] == more[0]);
            assert forall|i: int| 0 <= i < at implies (#[trigger] after[i]).intermediates.len()
                != count by {
                assert(after[i] == before[i]);
            }
        } else if requested < count {
            let first = model.options_at(requested)[0];
            let at = choose|at: int|
                0 <= at < before.len() && (#[trigger] before[at]) == first
                    && first.intermediates.len() == requested && forall|i: int|
                    0 <= i < at ==> (#[trigger] before[i]).intermediates.len() != requested;
            assert(after[at] == before[at]);
            assert forall|i: int| 0 <= i < at implies (#[trigger] after[i]).intermediates.len()
                != requested by {
                assert(after[i] == before[i]);
            }
        }
    }
}

/// Where neither limit drops a path, the search through a count of tracks is
/// exhaustive: every fitting path through that many tracks is among the complete
/// ones, and none ranks before the first of them, by its largest distance, then
/// its sum, its support and its tracks. Without variation that first one is the
/// first option for the count.
pub proof fn unpruned_search_finds_the_best_path(model: PathModel, tracks: Seq<usize>)
    requires
        0 < tracks.len() <= usize::MAX,
        model.fitting(tracks),
        model.unpruned(
            tracks.len() as int,
            0,
            seq![model.seed_path(tracks.len() as int)],
        ),
        0 < model.config.alternatives_per_count,
    ensures
        ({
            let complete = model.complete(tracks.len() as int);
            let options = model.options_at(tracks.len() as usize);
            &&& complete.contains(model.path_through(tracks))
            &&& complete_at_least(complete[0], model.path_through(tracks))
            &&& options.len() > 0
            &&& model.search() matches Ok(found) ==> (tracks.len()
                <= model.config.max_intermediates ==> first_through(
                found,
                tracks.len() as int,
                options[0],
            ))
            &&& model.config.variation_percent == 0 ==> {
                &&& options[0].intermediates == complete[0].intermediates
                &&& options[0].worst_transition == complete[0].worst_transition
                &&& options[0].transition_sum == complete[0].transition_sum
                &&& options[0].worst_transition <= model.path_through(tracks).worst_transition
                &&& options[0].worst_transition == model.path_through(tracks).worst_transition
                    ==> options[0].transition_sum <= model.path_through(tracks).transition_sum
            }
        }),
{
    let requested = tracks.len() as int;
    let seed = model.seed_path(requested);
    let start = Growth { frontier: seq![seed], evaluated: 1, retained: 1 };
    assert(model.sound(seed, 0));
    assert(model.accounted(0)(seed));
    assert(start.frontier[0].intermediates =~= tracks.take(0));
    lemma_grown_leads(model, tracks, 0, start);
    let frontier = model.frontier(requested).frontier;
    let i = choose|i: int|
        0 <= i < frontier.len() && (#[trigger] frontier[i]).intermediates == tracks;
    lemma_completed_contains(model, frontier, tracks, frontier.len() as int);
    let completed = model.completed_upto(frontier, requested, frontier.len() as int);
    assert(frontier[i].intermediates == tracks);
    assert(completed.contains(model.path_through(tracks)));
    stable_sort_same_members(completed, complete_first());
    lemma_path_rankings(0, 0, 0);
    stable_sort_is_sorted(completed, complete_first());
    let complete = model.complete(requested);
    let k = choose|k: int| 0 <= k < complete.len() && complete[k] == model.path_through(tracks);
    assert(complete_first()(complete[0], complete[0]) || complete_first()(complete[0], complete[0]));
    assert(complete_first()(complete[0], complete[k]));
    selected_paths_come_close_to_the_best(model, requested as usize);
    lemma_first_option_through(
        model,
        requested as usize,
        model.config.max_intermediates as int,
    );
}

// What pruning keeps.

/// Whether a path promises at least as much as another: its worst transition
/// can end no larger, and where the bounds on it are equal, its sum can end no
/// larger.
pub open spec fn promises_no_less(kept: PathView, dropped: PathView) -> bool {
    &&& kept.lower_worst <= dropped.lower_worst
    &&& kept.lower_worst == dropped.lower_worst ==> kept.lower_sum <= dropped.lower_sum
}

/// The continuations of a path that are not followed promise no more than any
/// that is: neither their bound on the worst transition nor, where that is
/// equal, their bound on the sum is smaller. As many are followed as the limit
/// allows.
pub proof fn expansion_keeps_the_most_promising(model: PathModel, path: PathView, remaining: int)
    ensures
        ({
            let all = model.variants_upto(path, remaining, model.usable().len() as int);
            let kept = model.variants(path, remaining);
            &&& forall|dropped: PathView, i: int|
                #![trigger all.contains(dropped), kept[i]]
                all.contains(dropped) && !kept.contains(dropped) && 0 <= i < kept.len()
                    ==> promises_no_less(kept[i], dropped)
            &&& forall|i: int| 0 <= i < kept.len() ==> all.contains(#[trigger] kept[i])
            &&& kept.len() <= model.config.candidate_limit
            &&& kept.len() < all.len() ==> kept.len() == model.config.candidate_limit
        }),
{
    let all = model.variants_upto(path, remaining, model.usable().len() as int);
    lemma_path_rankings(0, 0, 0);
    keeping_the_first_drops_the_last(
        all,
        partial_first(),
        model.config.candidate_limit as int,
    );
    let kept = model.variants(path, remaining);
    assert forall|dropped: PathView, i: int|
        #![trigger all.contains(dropped), kept[i]]
        all.contains(dropped) && !kept.contains(dropped) && 0 <= i
            < kept.len() implies promises_no_less(kept[i], dropped) by {
        assert(partial_first()(kept[i], dropped));
    }
}

/// What the beam drops promises no more than any path that it keeps, unless a
/// kept path leads through the same tracks.
pub proof fn the_beam_keeps_the_most_promising(
    model: PathModel,
    expanded: Seq<PathView>,
    dropped: PathView,
)
    requires
        expanded.contains(dropped),
    ensures
        ({
            let kept = model.pruned(expanded);
            ||| leads_through(kept, dropped.intermediates)
            ||| kept.len() == model.config.beam_width && forall|i: int|
                0 <= i < kept.len() ==> promises_no_less(#[trigger] kept[i], dropped)
        }),
{
    lemma_path_rankings(0, 0, 0);
    assert forall|x: PathView| #[trigger] same_path()(x, x) by {}
    sifting_drops_the_last(
        expanded,
        partial_first(),
        same_path(),
        model.config.beam_width as int,
        dropped,
    );
    let kept = model.pruned(expanded);
    if exists|i: int|
        0 <= i < kept.len() && same_path()(dropped, #[trigger] kept[i]) && partial_first()(
            kept[i],
            dropped,
        ) {
        let i = choose|i: int|
            0 <= i < kept.len() && same_path()(dropped, #[trigger] kept[i]) && partial_first()(
                kept[i],
                dropped,
            );
        assert(kept[i].intermediates == dropped.intermediates);
    } else {
        assert forall|i: int| 0 <= i < kept.len() implies promises_no_less(
            #[trigger] kept[i],
            dropped,
        ) by {
            assert(partial_first()(kept[i], dropped));
        }
    }
}

/// Whether no way round is shorter than the direct way.
pub open spec fn no_short_cuts(distance: spec_fn(usize, usize) -> u64) -> bool {
    forall|a: usize, b: usize, c: usize|
        #![trigger distance(a, b), distance(b, c)]
        distance(a, c) <= distance(a, b) + distance(b, c)
}

proof fn lemma_walk_grows(model: PathModel, walk: Seq<usize>, from: int, to: int)
    requires
        0 <= from <= to <= walk.len(),
    ensures
        model.walk_worst(walk, from) <= model.walk_worst(walk, to),
        model.walk_sum(walk, from) <= model.walk_sum(walk, to),
    decreases to - from,
{
    if from < to {
        lemma_walk_grows(model, walk, from, to - 1);
    }
}

proof fn lemma_walk_spans(model: PathModel, walk: Seq<usize>, from: int, to: int)
    requires
        no_short_cuts(model.distance),
        0 < from < to <= walk.len(),
    ensures
        model.walk_sum(walk, from) + (model.distance)(walk[from - 1], walk[to - 1])
            <= model.walk_sum(walk, to),
        (model.distance)(walk[from - 1], walk[to - 1]) <= (to - from) * model.walk_worst(walk, to),
    decreases to - from,
{
    let last = (model.distance)(walk[to - 2], walk[to - 1]) as int;
    let worst = model.walk_worst(walk, to) as int;
    assert(model.before(walk, to - 1) == walk[to - 2]);
    if from + 1 == to {
        assert((to - from) * worst == worst) by (nonlinear_arith)
            requires
                to - from == 1,
        ;
    } else {
        lemma_walk_spans(model, walk, from, to - 1);
        let before = (model.distance)(walk[from - 1], walk[to - 2]) as int;
        let direct = (model.distance)(walk[from - 1], walk[to - 1]) as int;
        assert(direct <= before + last);
        let earlier = model.walk_worst(walk, to - 1) as int;
        assert((to - 1 - from) * earlier <= (to - 1 - from) * worst) by (nonlinear_arith)
            requires
                earlier <= worst,
                to - 1 - from >= 0,
        ;
        assert((to - from) * worst == (to - 1 - from) * worst + worst) by (nonlinear_arith);
    }
}

/// What a continuation promises is true: however it goes on to the right anchor
/// by as many edges as remain, its worst transition and its sum end no smaller
/// than their bounds, where no way round is shorter than the direct way. With
/// one edge left the bounds are what it ends with.
pub proof fn bounds_are_never_undercut(
    model: PathModel,
    path: PathView,
    candidate: AnchoredPathCandidate,
    ahead: Seq<usize>,
)
    requires
        model.sound(path, path.intermediates.len() as int),
    ensures
        ({
            let next = model.continued(path, candidate, ahead.len() as int + 1);
            let walk = (next.intermediates + ahead).push(model.right);
            &&& no_short_cuts(model.distance) || ahead.len() == 0 ==> next.lower_worst
                <= model.walk_worst(walk, walk.len() as int) && next.lower_sum <= model.walk_sum(
                walk,
                walk.len() as int,
            )
            &&& ahead.len() == 0 ==> next.lower_worst == model.walk_worst(walk, walk.len() as int)
                && next.lower_sum == model.walk_sum(walk, walk.len() as int)
        }),
{
    let len = path.intermediates.len() as int;
    let remaining = ahead.len() as int + 1;
    let next = model.continued(path, candidate, remaining);
    let walk = (next.intermediates + ahead).push(model.right);
    let end = walk.len() as int;
    lemma_walk_prefix(model, path.intermediates, walk, len);
    if len > 0 {
        assert(model.before(walk, len) == path.intermediates.last());
    }
    assert(walk[len] == candidate.track);
    assert(model.walk_sum(walk, len + 1) == next.transition_sum);
    assert(model.walk_worst(walk, len + 1) == next.worst_transition);
    let rest = (model.distance)(candidate.track, model.right) as int;
    assert(walk[end - 1] == model.right);
    assert(end == len + 1 + remaining);
    if ahead.len() == 0 {
        assert(model.before(walk, len + 1) == candidate.track);
        assert(rest / remaining == rest) by (nonlinear_arith)
            requires
                remaining == 1,
        ;
    } else if no_short_cuts(model.distance) {
        lemma_walk_grows(model, walk, len + 1, end);
        lemma_walk_spans(model, walk, len + 1, end);
        let worst = model.walk_worst(walk, end) as int;
        assert(rest / remaining <= worst) by (nonlinear_arith)
            requires
                rest <= remaining * worst,
                remaining > 0,
        ;
    }
}

/// A path through one track as a continuation of nothing.
spec fn one_track(model: PathModel, track: usize) -> PathView {
    model.continued(model.seed_path(1), model.usable()[model.usable_at(track)], 1)
}

proof fn lemma_one_track_ranked(model: PathModel, track: usize, kept: PathView)
    requires
        model.fitting(seq![track]),
        model.variants_upto(model.seed_path(1), 1, model.usable().len() as int).contains(kept),
    ensures
        ({
            let all = model.variants_upto(model.seed_path(1), 1, model.usable().len() as int);
            &&& all.contains(one_track(model, track))
            &&& kept.intermediates.len() == 1
            &&& model.available(kept.intermediates[0])
            &&& model.fits(model.seed_path(1), kept.intermediates[0], 1)
            &&& kept.lower_worst == model.closed(kept).worst_transition
            &&& kept.lower_sum == model.closed(kept).transition_sum
        }),
{
    let seed = model.seed_path(1);
    let count = model.usable().len() as int;
    assert(seed.intermediates =~= seq![track].take(0));
    lemma_fitting_fits(model, seq![track], 0, seed);
    assert(seq![track][0] == track);
    assert(model.available(track));
    lemma_usable_at(model, track);
    assert(model.sound(seed, 0));
    lemma_variants_made(model, seed, 1, count);
    let all = model.variants_upto(seed, 1, count);
    assert(model.fits(seed, model.usable()[model.usable_at(track)].track, 1));
    let i = choose|i: int| 0 <= i < all.len() && all[i] == kept;
    lemma_usable_available(model, model.candidates.len() as int);
    assert(is_made(model, seed, 1, count, all[i]));
    let k = choose|k: int|
        0 <= k < count && all[i] == model.continued(seed, #[trigger] model.usable()[k], 1)
            && model.fits(seed, model.usable()[k].track, 1);
    assert(kept.intermediates[0] == model.usable()[k].track);
    let rest = (model.distance)(model.usable()[k].track, model.right) as int;
    assert(rest / 1 == rest);
}

/// Whether a path is made by continuing another by one of the first `count`
/// usable candidates that fits.
spec fn is_made(model: PathModel, path: PathView, remaining: int, count: int, next: PathView) -> bool {
    exists|k: int|
        0 <= k < count && next == model.continued(path, #[trigger] model.usable()[k], remaining)
            && model.fits(path, model.usable()[k].track, remaining)
}

proof fn lemma_variants_made(model: PathModel, path: PathView, remaining: int, count: int)
    requires
        0 <= count <= model.usable().len(),
    ensures
        ({
            let all = model.variants_upto(path, remaining, count);
            &&& forall|i: int|
                0 <= i < all.len() ==> is_made(model, path, remaining, count, #[trigger] all[i])
            &&& forall|k: int|
                0 <= k < count && model.fits(path, (#[trigger] model.usable()[k]).track, remaining)
                    ==> all.contains(model.continued(path, model.usable()[k], remaining))
        }),
    decreases count,
{
    if count > 0 {
        lemma_variants_made(model, path, remaining, count - 1);
        let before = model.variants_upto(path, remaining, count - 1);
        let all = model.variants_upto(path, remaining, count);
        assert forall|i: int| 0 <= i < all.len() implies is_made(
            model,
            path,
            remaining,
            count,
            #[trigger] all[i],
        ) by {
            if i < before.len() {
                assert(all[i] == before[i]);
                assert(is_made(model, path, remaining, count - 1, before[i]));
            } else {
                let candidate = model.usable()[count - 1];
                assert(all[i] == model.continued(path, candidate, remaining));
            }
        }
        assert forall|k: int|
            0 <= k < count && model.fits(
                path,
                (#[trigger] model.usable()[k]).track,
                remaining,
            ) implies all.contains(model.continued(path, model.usable()[k], remaining)) by {
            let made = model.continued(path, model.usable()[k], remaining);
            if k < count - 1 {
                let i = choose|i: int| 0 <= i < before.len() && before[i] == made;
                assert(all[i] == made);
            } else {
                assert(all.last() == made);
            }
        }
    }
}

/// A path through one track that fits closes, unless the track is the right
/// anchor itself.
proof fn lemma_one_track_closes(model: PathModel, path: PathView)
    requires
        path.intermediates.len() == 1,
        model.fits(model.seed_path(1), path.intermediates[0], 1),
        model.config.track_window == 0 || path.intermediates[0] != model.right,
    ensures
        model.closes(path, 1),
{
    let prefix = model.repeat_prefix();
    let track = path.intermediates[0];
    let full = (prefix + path.intermediates).push(model.right);
    let partial = (prefix + model.seed_path(1).intermediates).push(track);
    let position = prefix.len() as int;
    assert(partial =~= full.take(position + 1));
    assert(generated_safe_at(partial, position, model.tracks, model.config));
    assert forall|other: int| 0 <= other < full.len() && other != position implies position_safe(
        full,
        model.tracks,
        position,
        model.config.artist_window,
        model.config.album_window,
        other,
    ) by {
        if other < position {
            assert(full[other] == partial[other]);
            assert(full[position] == partial[position]);
            assert(position_safe(
                partial,
                model.tracks,
                position,
                model.config.artist_window,
                model.config.album_window,
                other,
            ));
        } else {
            assert(full[other] == model.right);
            assert(full[position] == track);
        }
    }
    assert forall|other: int| 0 <= other < full.len() && other != position implies gap_between(
        other,
        position,
    ) > model.config.track_window || #[trigger] full[other] != full[position] by {
        assert(full[position] == track);
        if other < position {
            assert(full[other] == partial[other]);
            assert(partial[position] == track);
        } else {
            assert(full[other] == model.right);
        }
    }
    assert(generated_safe_at(full, position, model.tracks, model.config));
}

/// Through one track the search is exhaustive whatever the limits: where any
/// single track fits, there is an option through one, and the best one has no
/// larger worst transition than any fitting track gives, and where those are
/// equal no larger sum. Without variation that is the first option through one
/// track.
pub proof fn one_track_paths_are_the_best(model: PathModel, track: usize)
    requires
        model.fitting(seq![track]),
        0 < model.config.candidate_limit,
        0 < model.config.beam_width,
        0 < model.config.alternatives_per_count,
        model.config.track_window == 0 || !model.available(model.right),
    ensures
        ({
            let inward = (model.distance)(model.left, track) as nat;
            let outward = (model.distance)(track, model.right) as nat;
            let worst = if inward > outward {
                inward
            } else {
                outward
            };
            let best = model.complete(1)[0];
            let options = model.options_at(1);
            &&& model.complete(1).len() > 0
            &&& best.worst_transition <= worst
            &&& best.worst_transition == worst ==> best.transition_sum <= inward + outward
            &&& options.len() > 0
            &&& model.config.variation_percent == 0 ==> options[0].intermediates
                == best.intermediates && options[0].worst_transition == best.worst_transition
                && options[0].transition_sum == best.transition_sum
        }),
{
    let seed = model.seed_path(1);
    let start = Growth { frontier: seq![seed], evaluated: 1, retained: 1 };
    let all = model.variants_upto(seed, 1, model.usable().len() as int);
    let mine = one_track(model, track);
    assert(model.available(seq![track][0]));
    lemma_usable_at(model, track);
    assert(seed.intermediates =~= seq![track].take(0));
    lemma_fitting_fits(model, seq![track], 0, seed);
    lemma_variants_made(model, seed, 1, model.usable().len() as int);
    assert(all.contains(mine));
    lemma_one_track_ranked(model, track, mine);
    expansion_keeps_the_most_promising(model, seed, 1);
    let followed = model.variants(seed, 1);
    let expanded = model.expanded_upto(start.frontier, 1, 1);
    assert(model.expanded_upto(start.frontier, 1, 0) =~= seq![]);
    assert(expanded =~= followed);
    let frontier = model.frontier(1).frontier;
    reveal_with_fuel(PathModel::grown, 3);
    assert(frontier == model.pruned(expanded));
    // Some kept path promises at least as much.
    let good = if followed.contains(mine) {
        mine
    } else {
        followed[0]
    };
    assert(followed.contains(good)) by {
        if !followed.contains(mine) {
            assert(followed.contains(followed[0]));
        }
    }
    assert(promises_no_less(good, mine));
    assert(all.contains(good)) by {
        let i = choose|i: int| 0 <= i < followed.len() && followed[i] == good;
        assert(all.contains(followed[i]));
    }
    the_beam_keeps_the_most_promising(model, expanded, good);
    lemma_all_variants(model, expanded, all);
    let best = if leads_through(frontier, good.intermediates) {
        frontier[choose|i: int|
            0 <= i < frontier.len() && (#[trigger] frontier[i]).intermediates
                == good.intermediates]
    } else {
        frontier[0]
    };
    let at = choose|i: int| 0 <= i < frontier.len() && frontier[i] == best;
    assert(frontier.contains(best));
    assert(all.contains(best)) by {
        assert(all.contains(frontier[at]));
    }
    lemma_one_track_ranked(model, track, best);
    lemma_one_track_ranked(model, track, good);
    if leads_through(frontier, good.intermediates) {
        lemma_same_track_same_bounds(model, best, good);
    }
    assert(promises_no_less(best, mine));
    lemma_one_track_closes(model, best);
    lemma_completed_has(model, frontier, 1, frontier.len() as int, at);
    let completed = model.completed_upto(frontier, 1, frontier.len() as int);
    let complete = model.complete(1);
    stable_sort_same_members(completed, complete_first());
    lemma_path_rankings(0, 0, 0);
    stable_sort_is_sorted(completed, complete_first());
    assert(complete.contains(model.closed(best)));
    let k = choose|k: int| 0 <= k < complete.len() && complete[k] == model.closed(best);
    assert(complete_first()(complete[0], complete[0]) || complete_first()(complete[0], complete[0]));
    assert(complete_first()(complete[0], complete[k]));
    assert(mine.intermediates =~= seq![track]);
    assert(model.head(mine) == track);
    selected_paths_come_close_to_the_best(model, 1);
}

/// What the beam keeps are continuations.
proof fn lemma_all_variants(model: PathModel, expanded: Seq<PathView>, all: Seq<PathView>)
    requires
        forall|i: int| 0 <= i < expanded.len() ==> all.contains(#[trigger] expanded[i]),
        0 < model.config.beam_width,
    ensures
        forall|i: int|
            0 <= i < model.pruned(expanded).len() ==> all.contains(
                #[trigger] model.pruned(expanded)[i],
            ),
        expanded.len() > 0 ==> model.pruned(expanded).len() > 0,
{
    let property = |path: PathView| all.contains(path);
    let sorted = stable_sort(expanded, partial_first());
    assert(all_hold(expanded, property));
    lemma_all_hold(expanded, property, partial_first(), same_path(), 0);
    lemma_all_hold(sorted, property, partial_first(), same_path(), 0);
    lemma_all_hold(
        dedup(sorted, same_path()),
        property,
        partial_first(),
        same_path(),
        model.config.beam_width as int,
    );
    let kept = model.pruned(expanded);
    assert forall|i: int| 0 <= i < kept.len() implies all.contains(#[trigger] kept[i]) by {
        assert(property(kept[i]));
    }
    if expanded.len() > 0 {
        assert(expanded.contains(expanded[0]));
        the_beam_keeps_the_most_promising(model, expanded, expanded[0]);
    }
}

proof fn lemma_same_track_same_bounds(model: PathModel, left: PathView, right: PathView)
    requires
        left.intermediates.len() == 1,
        left.intermediates == right.intermediates,
        left.lower_worst == model.closed(left).worst_transition,
        left.lower_sum == model.closed(left).transition_sum,
        right.lower_worst == model.closed(right).worst_transition,
        right.lower_sum == model.closed(right).transition_sum,
        model.variants_upto(model.seed_path(1), 1, model.usable().len() as int).contains(left),
        model.variants_upto(model.seed_path(1), 1, model.usable().len() as int).contains(right),
    ensures
        left.lower_worst == right.lower_worst,
        left.lower_sum == right.lower_sum,
{
    let seed = model.seed_path(1);
    let count = model.usable().len() as int;
    let all = model.variants_upto(seed, 1, count);
    lemma_variants_made(model, seed, 1, count);
    let i = choose|i: int| 0 <= i < all.len() && all[i] == left;
    let j = choose|j: int| 0 <= j < all.len() && all[j] == right;
    assert(is_made(model, seed, 1, count, all[i]) && is_made(model, seed, 1, count, all[j]));
    let a = choose|k: int|
        0 <= k < count && all[i] == model.continued(seed, #[trigger] model.usable()[k], 1)
            && model.fits(seed, model.usable()[k].track, 1);
    let b = choose|k: int|
        0 <= k < count && all[j] == model.continued(seed, #[trigger] model.usable()[k], 1)
            && model.fits(seed, model.usable()[k].track, 1);
    assert(left.intermediates[0] == model.usable()[a].track);
    assert(right.intermediates[0] == model.usable()[b].track);
}

proof fn lemma_completed_has(
    model: PathModel,
    frontier: Seq<PathView>,
    requested: int,
    count: int,
    at: int,
)
    requires
        0 <= at < count <= frontier.len(),
        model.closes(frontier[at], requested),
    ensures
        model.completed_upto(frontier, requested, count).contains(model.closed(frontier[at])),
    decreases count,
{
    let after = model.completed_upto(frontier, requested, count);
    if at == count - 1 {
        assert(after.last() == model.closed(frontier[at]));
    } else {
        lemma_completed_has(model, frontier, requested, count - 1, at);
        let before = model.completed_upto(frontier, requested, count - 1);
        let i = choose|i: int| 0 <= i < before.len() && before[i] == model.closed(frontier[at]);
        assert(after[i] == before[i]);
    }
}

// How complete paths rank, and which are offered.

/// Whether a path's worst transition and sum exceed those of another by no more
/// than two and five hundredths of them, or than a billionth.
pub open spec fn hardly_longer(path: PathView, best: PathView) -> bool {
    &&& (path.worst_transition - best.worst_transition) * 100 <= 2 * best.worst_transition
        || path.worst_transition - best.worst_transition <= 1_000
    &&& (path.transition_sum - best.transition_sum) * 100 <= 5 * best.transition_sum
        || path.transition_sum - best.transition_sum <= 1_000
}

/// Complete paths come in order: a later one has no smaller worst transition,
/// where those are equal no smaller sum, and where those are equal too no more
/// support.
pub proof fn complete_paths_come_in_order(
    model: PathModel,
    requested: int,
    earlier: int,
    later: int,
)
    requires
        0 <= earlier < later < model.complete(requested).len(),
    ensures
        ({
            let first = model.complete(requested)[earlier];
            let second = model.complete(requested)[later];
            &&& first.worst_transition <= second.worst_transition
            &&& first.worst_transition == second.worst_transition ==> first.transition_sum
                <= second.transition_sum
            &&& first.worst_transition == second.worst_transition && first.transition_sum
                == second.transition_sum ==> first.semantic_support >= second.semantic_support
        }),
{
    let frontier = model.frontier(requested).frontier;
    let completed = model.completed_upto(frontier, requested, frontier.len() as int);
    lemma_path_rankings(0, 0, 0);
    stable_sort_is_sorted(completed, complete_first());
    let complete = model.complete(requested);
    assert(complete_first()(complete[earlier], complete[later]));
}

proof fn lemma_band_holds_close(
    model: PathModel,
    requested: int,
    at: int,
    done: Seq<PathView>,
    path: PathView,
)
    requires
        0 <= at <= model.complete(requested).len(),
        done.contains(path) || (hardly_longer(path, model.complete(requested)[0]) && exists|i: int|
            at <= i < model.complete(requested).len() && model.complete(requested)[i] == path),
    ensures
        model.band_from(model.complete(requested), at, done).contains(path),
    decreases model.complete(requested).len() - at,
{
    let complete = model.complete(requested);
    if at < complete.len() {
        let item = complete[at];
        if done.contains(path) {
            let i = choose|i: int| 0 <= i < done.len() && done[i] == path;
            assert(done.push(item)[i] == path);
            if near_worst(item, complete[0]) {
                if near_sum(item, complete[0]) {
                    lemma_band_holds_close(model, requested, at + 1, done.push(item), path);
                } else {
                    lemma_band_holds_close(model, requested, at + 1, done, path);
                }
            }
        } else {
            let i = choose|i: int| at <= i < complete.len() && complete[i] == path;
            if i > at {
                complete_paths_come_in_order(model, requested, at, i);
            }
            assert(near_worst(item, complete[0]));
            if near_sum(item, complete[0]) {
                assert(done.push(item)[done.len() as int] == item);
                lemma_band_holds_close(model, requested, at + 1, done.push(item), path);
            } else {
                lemma_band_holds_close(model, requested, at + 1, done, path);
            }
        }
    }
}

/// What is offered for a count is hardly longer than the best path of that
/// count, and every path that is hardly longer takes part in the choice.
pub proof fn offered_paths_are_hardly_longer(model: PathModel, requested: usize, path: PathView)
    requires
        0 < requested,
        0 < model.config.alternatives_per_count,
        model.complete(requested as int).len() > 0,
    ensures
        ({
            let complete = model.complete(requested as int);
            &&& model.selected(requested).contains(path) ==> hardly_longer(path, complete[0])
            &&& complete.contains(path) && hardly_longer(path, complete[0]) ==> model.band_from(
                complete,
                0,
                seq![],
            ).contains(path)
        }),
{
    let complete = model.complete(requested as int);
    selected_paths_come_close_to_the_best(model, requested);
    if model.selected(requested).contains(path) {
        let i = choose|i: int|
            0 <= i < model.selected(requested).len() && model.selected(requested)[i] == path;
        assert(near(complete[0])(model.selected(requested)[i]));
    }
    if complete.contains(path) && hardly_longer(path, complete[0]) {
        let i = choose|i: int| 0 <= i < complete.len() && complete[i] == path;
        assert(0 <= i < complete.len() && complete[i] == path);
        lemma_band_holds_close(model, requested as int, 0, seq![], path);
    }
}

/// A generated track repeats nothing too soon exactly when no other track on the
/// route within a window of it has its artist, its album or is that track. An
/// artist or an album that is not known repeats nothing.
pub proof fn generated_tracks_keep_their_windows(
    route: Seq<usize>,
    position: int,
    tracks: Seq<RouteTrack>,
    config: AnchoredPathSearchConfig,
)
    requires
        0 <= position < route.len(),
    ensures
        generated_safe_at(route, position, tracks, config) <==> forall|other: int|
            0 <= other < route.len() && other != position ==> {
                let here = tracks[route[position] as int];
                let there = tracks[(#[trigger] route[other]) as int];
                let apart = if other < position {
                    position - other
                } else {
                    other - position
                };
                &&& apart <= config.artist_window ==> here.artist_key@.len() == 0
                    || there.artist_key@ != here.artist_key@
                &&& apart <= config.album_window ==> here.album_key@.len() == 0
                    || there.album_key@ != here.album_key@
                &&& apart <= config.track_window ==> route[other] != route[position]
            },
{
    if generated_safe_at(route, position, tracks, config) {
        assert forall|other: int| 0 <= other < route.len() && other != position implies {
            let here = tracks[route[position] as int];
            let there = tracks[(#[trigger] route[other]) as int];
            let apart = if other < position {
                position - other
            } else {
                other - position
            };
            &&& apart <= config.artist_window ==> here.artist_key@.len() == 0
                || there.artist_key@ != here.artist_key@
            &&& apart <= config.album_window ==> here.album_key@.len() == 0 || there.album_key@
                != here.album_key@
            &&& apart <= config.track_window ==> route[other] != route[position]
        } by {
            assert(position_safe(
                route,
                tracks,
                position,
                config.artist_window,
                config.album_window,
                other,
            ));
        }
    } else {
        if forall|other: int|
            0 <= other < route.len() && other != position ==> position_safe(
                route,
                tracks,
                position,
                config.artist_window,
                config.album_window,
                other,
            ) {
            let other = choose|other: int|
                0 <= other < route.len() && other != position && !(gap_between(other, position)
                    > config.track_window || #[trigger] route[other] != route[position]);
            assert(route[other] == route[position]);
        } else {
            let other = choose|other: int|
                0 <= other < route.len() && other != position && !position_safe(
                    route,
                    tracks,
                    position,
                    config.artist_window,
                    config.album_window,
                    other,
                );
            assert(tracks[route[other] as int] == tracks[route[other] as int]);
        }
    }
}

} // verus!
