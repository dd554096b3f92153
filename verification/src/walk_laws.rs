//! Which track a search goes to next, which candidates it may use, and how the
//! evidence for them is told and listed.

use crate::anchored_path::{place_from, placed, AnchoredPathCandidate, PathModel};
use crate::contextual::ContextualError;
use crate::measure_laws::{draws_lean_towards_the_first, leg_into};
use crate::random::leaning_pick;
use crate::route::{append_distance, may_follow, nearest_first, recent, SearchModel, GREEDY_WIDTH};
use crate::semantic::{
    artist_is, entity_is, lemma_listing, listing, names_one_of, recording_is, Entity, EntityKind,
    GatheredView, MatchedEvidenceView, SemanticTier, SourceEndpoint, TrackIdentity,
};
use crate::sorting::{stable_sort, stable_sort_is_sorted, stable_sort_same_members};
use crate::text::{ascii_lowered, lemma_text_order, normalized, text_at_most};
use vstd::prelude::*;

verus! {

// The next track.

/// Whether a remaining track comes into question next: it may follow, or none of
/// them may.
pub open spec fn comes_into_question(
    model: SearchModel,
    route: Seq<usize>,
    remaining: Seq<usize>,
    track: usize,
) -> bool {
    &&& remaining.contains(track)
    &&& may_follow(route, track, model.tracks, model.config) || forall|i: int|
        0 <= i < remaining.len() ==> !may_follow(
            route,
            #[trigger] remaining[i],
            model.tracks,
            model.config,
        )
}

proof fn lemma_feasible(model: SearchModel, route: Seq<usize>, remaining: Seq<usize>, count: int)
    requires
        0 <= count <= remaining.len(),
    ensures
        forall|track: usize|
            model.feasible_upto(route, remaining, count).contains(track) <==> {
                &&& #[trigger] remaining.take(count).contains(track)
                &&& may_follow(route, track, model.tracks, model.config)
            },
    decreases count,
{
    if count > 0 {
        lemma_feasible(model, route, remaining, count - 1);
        let last = remaining[count - 1];
        let before = model.feasible_upto(route, remaining, count - 1);
        let after = model.feasible_upto(route, remaining, count);
        assert forall|track: usize|
            after.contains(track) <==> {
                &&& #[trigger] remaining.take(count).contains(track)
                &&& may_follow(route, track, model.tracks, model.config)
            } by {
            let front = remaining.take(count - 1);
            let whole = remaining.take(count);
            if whole.contains(track) {
                let i = choose|i: int| 0 <= i < whole.len() && whole[i] == track;
                if i < count - 1 {
                    assert(front[i] == track);
                }
            }
            if front.contains(track) {
                let i = choose|i: int| 0 <= i < front.len() && front[i] == track;
                assert(whole[i] == track);
            }
            assert(whole[count - 1] == last);
            if before.contains(track) {
                let i = choose|i: int| 0 <= i < before.len() && before[i] == track;
                assert(after[i] == track);
            }
            if may_follow(route, last, model.tracks, model.config) {
                assert(after[after.len() - 1] == last);
                if after.contains(track) {
                    let i = choose|i: int| 0 <= i < after.len() && after[i] == track;
                    if i < before.len() {
                        assert(before[i] == track);
                    }
                }
            }
        }
    }
}

proof fn lemma_in_question(model: SearchModel, route: Seq<usize>, remaining: Seq<usize>)
    ensures
        forall|track: usize|
            #[trigger] model.successors(route, remaining).contains(track) <==> comes_into_question(
                model,
                route,
                remaining,
                track,
            ),
        remaining.len() > 0 ==> model.successors(route, remaining).len() > 0,
{
    let count = remaining.len() as int;
    let feasible = model.feasible_upto(route, remaining, count);
    lemma_feasible(model, route, remaining, count);
    assert(remaining.take(count) =~= remaining);
    assert forall|track: usize|
        #[trigger] model.successors(route, remaining).contains(track) == comes_into_question(
            model,
            route,
            remaining,
            track,
        ) by {
        if feasible.len() == 0 {
            assert forall|i: int| 0 <= i < remaining.len() implies !may_follow(
                route,
                #[trigger] remaining[i],
                model.tracks,
                model.config,
            ) by {
                assert(remaining.contains(remaining[i]));
                assert(!feasible.contains(remaining[i]));
            }
        } else {
            assert(feasible.contains(feasible[0]));
            assert(remaining.contains(feasible[0]));
            let i = choose|i: int| 0 <= i < remaining.len() && remaining[i] == feasible[0];
            assert(may_follow(route, remaining[i], model.tracks, model.config));
            assert(feasible.contains(track) <==> (remaining.contains(track) && may_follow(
                route,
                track,
                model.tracks,
                model.config,
            )));
        }
    }
}

proof fn lemma_measured(
    model: SearchModel,
    route: Seq<usize>,
    pool: Seq<usize>,
    at: int,
    done: Seq<(u64, usize)>,
)
    requires
        done.len() == at,
        0 <= at <= pool.len(),
        forall|i: int|
            0 <= i < at ==> (#[trigger] done[i]).1 == pool[i] && append_distance(
                model.scoring,
                route,
                pool[i],
                model.config.seed_limit,
                model.config.learned_percent,
            ) == Ok::<u64, ContextualError>(done[i].0),
    ensures
        model.distances_from(route, pool, at, done) matches Ok(distances) ==> {
            &&& distances.len() == pool.len()
            &&& forall|i: int|
                0 <= i < pool.len() ==> (#[trigger] distances[i]).1 == pool[i] && append_distance(
                    model.scoring,
                    route,
                    pool[i],
                    model.config.seed_limit,
                    model.config.learned_percent,
                ) == Ok::<u64, ContextualError>(distances[i].0)
        },
    decreases pool.len() - at,
{
    if at < pool.len() {
        if let Ok(distance) = append_distance(
            model.scoring,
            route,
            pool[at],
            model.config.seed_limit,
            model.config.learned_percent,
        ) {
            lemma_measured(model, route, pool, at + 1, done.push((distance, pool[at])));
        }
    }
}

/// How far a track is from the end of a route.
pub open spec fn step_to(model: SearchModel, route: Seq<usize>, track: usize) -> Result<
    u64,
    ContextualError,
> {
    leg_into(
        model.scoring,
        route.push(track),
        route.len() as int,
        model.config.seed_limit,
        model.config.learned_percent,
    )
}

proof fn lemma_step(model: SearchModel, route: Seq<usize>, track: usize)
    ensures
        append_distance(
            model.scoring,
            route,
            track,
            model.config.seed_limit,
            model.config.learned_percent,
        ) == step_to(model, route, track),
{
    let limit = model.config.seed_limit;
    let at = route.len() as int;
    let first = if at < limit {
        0
    } else {
        at - limit
    };
    assert(recent(route, limit) =~= route.push(track).subrange(first, at));
}

/// A random route goes on to a track that comes into question and of which fewer
/// than four others are nearer; for the smaller half of all words none is.
pub proof fn random_routes_go_on_nearby(
    model: SearchModel,
    route: Seq<usize>,
    remaining: Seq<usize>,
    word: u64,
)
    requires
        remaining.len() > 0,
    ensures
        model.next_track(route, remaining, word) matches Ok(next) ==> {
            &&& comes_into_question(model, route, remaining, next)
            &&& step_to(model, route, next) is Ok
            &&& exists|nearer: Seq<usize>|
                #![trigger nearer.len()]
                {
                    &&& nearer.len() < 4
                    &&& word < 0x8000_0000_0000_0000 ==> nearer.len() == 0
                    &&& forall|other: usize|
                        comes_into_question(model, route, remaining, other) ==> nearer.contains(
                            other,
                        ) || (#[trigger] step_to(model, route, other) matches Ok(far)
                            && step_to(model, route, next)->Ok_0 <= far)
                }
        },
{
    if let Ok(next) = model.next_track(route, remaining, word) {
        let pool = model.successors(route, remaining);
        let distances = model.distances_from(route, pool, 0, seq![])->Ok_0;
        let ranked = stable_sort(distances, nearest_first());
        lemma_in_question(model, route, remaining);
        lemma_measured(model, route, pool, 0, seq![]);
        stable_sort_is_sorted(distances, nearest_first());
        stable_sort_same_members(distances, nearest_first());
        let width: int = if ranked.len() < 4 {
            ranked.len() as int
        } else {
            4
        };
        assert(GREEDY_WIDTH == 4);
        let pick = leaning_pick(word, width);
        draws_lean_towards_the_first(word, word, width);
        assert(next == ranked[pick].1);
        assert forall|i: int| 0 <= i < ranked.len() implies pool.contains(
            (#[trigger] ranked[i]).1,
        ) && step_to(model, route, ranked[i].1) == Ok::<u64, ContextualError>(ranked[i].0) by {
            assert(ranked.contains(ranked[i]));
            assert(distances.contains(ranked[i]));
            let k = choose|k: int| 0 <= k < distances.len() && distances[k] == ranked[i];
            lemma_step(model, route, pool[k]);
            assert(pool.contains(pool[k]));
        }
        let nearer = Seq::new(pick as nat, |i: int| ranked[i].1);
        assert forall|other: usize|
            comes_into_question(model, route, remaining, other) implies nearer.contains(other) || (
        #[trigger] step_to(model, route, other) matches Ok(far) && step_to(
            model,
            route,
            next,
        )->Ok_0 <= far) by {
            assert(pool.contains(other));
            let k = choose|k: int| 0 <= k < pool.len() && pool[k] == other;
            assert(distances.contains(distances[k]));
            assert(ranked.contains(distances[k]));
            let j = choose|j: int| 0 <= j < ranked.len() && ranked[j] == distances[k];
            assert(ranked[j].1 == other);
            if j < pick {
                assert(nearer[j] == other);
            } else if j > pick {
                assert(nearest_first()(ranked[pick], ranked[j]));
            }
        }
        assert(nearer.len() < 4);
    }
}

// Usable candidates.

/// Whether candidates are ordered by their tracks, each track once.
pub open spec fn tracks_ascend(list: Seq<AnchoredPathCandidate>) -> bool {
    forall|i: int, j: int|
        0 <= i < j < list.len() ==> (#[trigger] list[i]).track < (#[trigger] list[j]).track
}

proof fn lemma_place(list: Seq<AnchoredPathCandidate>, track: usize, at: int)
    requires
        0 <= at <= list.len(),
    ensures
        at <= place_from(list, track, at) <= list.len(),
        forall|i: int| at <= i < place_from(list, track, at) ==> (#[trigger] list[i]).track < track,
        place_from(list, track, at) < list.len() ==> list[place_from(list, track, at)].track
            >= track,
    decreases list.len() - at,
{
    if at < list.len() && list[at].track < track {
        lemma_place(list, track, at + 1);
    }
}

proof fn lemma_placed(list: Seq<AnchoredPathCandidate>, candidate: AnchoredPathCandidate)
    requires
        tracks_ascend(list),
    ensures
        tracks_ascend(placed(list, candidate)),
        forall|other: AnchoredPathCandidate|
            #[trigger] placed(list, candidate).contains(other) <==> other == candidate || (
            list.contains(other) && other.track != candidate.track),
{
    let at = place_from(list, candidate.track, 0);
    let after = placed(list, candidate);
    lemma_place(list, candidate.track, 0);
    let replaces = at < list.len() && list[at].track == candidate.track;
    assert forall|i: int, j: int| 0 <= i < j < after.len() implies (#[trigger] after[i]).track < (
    #[trigger] after[j]).track by {
        if replaces {
            if i != at {
                assert(after[i] == list[i]);
            }
            if j != at {
                assert(after[j] == list[j]);
            }
            assert(list[i].track < list[j].track);
        } else {
            let k = if i < at {
                i
            } else {
                i - 1
            };
            let l = if j < at {
                j
            } else {
                j - 1
            };
            if i != at {
                assert(after[i] == list[k]);
            }
            if j != at {
                assert(after[j] == list[l]);
            }
            if i == at && at < list.len() {
                assert(list[at].track > candidate.track);
                if l > at {
                    assert(list[at].track < list[l].track);
                }
            }
        }
    }
    assert forall|other: AnchoredPathCandidate|
        #[trigger] after.contains(other) == (other == candidate || (list.contains(other)
            && other.track != candidate.track)) by {
        assert(after[at] == candidate);
        if after.contains(other) && other != candidate {
            let i = choose|i: int| 0 <= i < after.len() && after[i] == other;
            assert(i != at);
            let k = if replaces || i < at {
                i
            } else {
                i - 1
            };
            assert(list[k] == other);
            if i < at {
                assert(after[i].track < after[at].track);
            } else {
                assert(after[at].track < after[i].track);
            }
        }
        if list.contains(other) && other.track != candidate.track {
            let k = choose|k: int| 0 <= k < list.len() && list[k] == other;
            let i = if replaces || k < at {
                k
            } else {
                k + 1
            };
            assert(after[i] == other);
        }
    }
}

/// Whether a candidate is the last of the first `count` for its track.
pub open spec fn is_last_for_its_track(model: PathModel, at: int, count: int) -> bool {
    &&& 0 <= at < count
    &&& forall|i: int|
        at < i < count ==> (#[trigger] model.candidates[i]).track != model.candidates[at].track
}

proof fn lemma_usable(model: PathModel, count: int)
    requires
        0 <= count <= model.candidates.len(),
    ensures
        tracks_ascend(model.usable_upto(count)),
        forall|at: int|
            #[trigger] is_last_for_its_track(model, at, count) && !model.unavailable.contains(
                model.candidates[at].track,
            ) ==> model.usable_upto(count).contains(model.candidates[at]),
        forall|other: AnchoredPathCandidate| #[trigger]
            model.usable_upto(count).contains(other) ==> !model.unavailable.contains(other.track)
                && exists|at: int|
                is_last_for_its_track(model, at, count) && #[trigger] model.candidates[at] == other,
    decreases count,
{
    if count > 0 {
        lemma_usable(model, count - 1);
        let before = model.usable_upto(count - 1);
        let last = model.candidates[count - 1];
        let after = model.usable_upto(count);
        if !model.unavailable.contains(last.track) {
            lemma_placed(before, last);
        }
        assert forall|at: int|
            #[trigger] is_last_for_its_track(model, at, count) && !model.unavailable.contains(
                model.candidates[at].track,
            ) implies after.contains(model.candidates[at]) by {
            if at < count - 1 {
                assert(model.candidates[count - 1].track != model.candidates[at].track);
                assert(is_last_for_its_track(model, at, count - 1));
            }
        }
        assert forall|other: AnchoredPathCandidate| #[trigger]
            after.contains(other) implies !model.unavailable.contains(other.track) && exists|
            at: int,
        | is_last_for_its_track(model, at, count) && #[trigger] model.candidates[at] == other by {
            if !model.unavailable.contains(last.track) && other == last {
                assert(is_last_for_its_track(model, count - 1, count));
            } else {
                assert(before.contains(other));
                let at = choose|at: int|
                    is_last_for_its_track(model, at, count - 1) && #[trigger] model.candidates[at]
                        == other;
                assert(other.track != last.track);
                assert(is_last_for_its_track(model, at, count));
            }
        }
    }
}

/// A path search may use every candidate that is not taken, ordered by track and
/// each track once: the last candidate for a track counts.
pub proof fn every_free_candidate_may_be_used(model: PathModel, candidate: AnchoredPathCandidate)
    ensures
        tracks_ascend(model.usable()),
        model.usable().contains(candidate) <==> {
            &&& !model.unavailable.contains(candidate.track)
            &&& exists|at: int|
                is_last_for_its_track(model, at, model.candidates.len() as int)
                    && #[trigger] model.candidates[at] == candidate
        },
        model.structural_upper_bound() <= model.usable().len(),
        model.structural_upper_bound() <= model.config.max_intermediates,
        model.structural_upper_bound() == model.usable().len() || model.structural_upper_bound()
            == model.config.max_intermediates,
{
    lemma_usable(model, model.candidates.len() as int);
}

// Evidence.

/// Which end evidence starts from: the left first, the collection last.
pub open spec fn end_rank(endpoint: SourceEndpoint) -> int {
    if endpoint == SourceEndpoint::Left {
        0
    } else if endpoint == SourceEndpoint::Right {
        1
    } else {
        2
    }
}

/// Whether a piece of evidence is listed no later than another by its parts: the
/// end it starts from, recordings before artists, the provider, and the rank.
pub open spec fn told_no_later(a: MatchedEvidenceView, b: MatchedEvidenceView) -> bool {
    let alike = a.source_endpoint == b.source_endpoint && a.kind == b.kind;
    &&& end_rank(a.source_endpoint) <= end_rank(b.source_endpoint)
    &&& a.source_endpoint == b.source_endpoint && b.kind == EntityKind::Recording ==> a.kind
        == EntityKind::Recording
    &&& alike ==> text_at_most(a.provider, b.provider)
    &&& alike && a.provider == b.provider && b.raw_rank is Some ==> a.raw_rank is Some
        && a.raw_rank->Some_0 <= b.raw_rank->Some_0
}

/// The evidence for a candidate is listed by its ends, kinds, providers and
/// ranks, and nothing is added to it or lost.
pub proof fn evidence_is_listed_in_order(
    gathered: GatheredView,
    candidate: usize,
    tier: SemanticTier,
    piece: MatchedEvidenceView,
)
    ensures
        ({
            let listed = gathered.semantics(candidate, tier).evidence;
            &&& listed.contains(piece) <==> gathered.evidence.contains(piece)
            &&& forall|i: int, j: int|
                0 <= i < j < listed.len() ==> told_no_later(
                    #[trigger] listed[i],
                    #[trigger] listed[j],
                )
        }),
{
    let listed = gathered.semantics(candidate, tier).evidence;
    lemma_listing();
    stable_sort_is_sorted(gathered.evidence, listing());
    stable_sort_same_members(gathered.evidence, listing());
    assert forall|i: int, j: int| 0 <= i < j < listed.len() implies told_no_later(
        #[trigger] listed[i],
        #[trigger] listed[j],
    ) by {
        assert(listing()(listed[i], listed[j]));
        lemma_text_order(listed[i].provider, listed[i].provider, listed[i].provider);
    }
}

/// A recording with a track's own identifier is that track, and so is one with
/// its normal title and artist; one without either, or without a MusicBrainz
/// identifier that agrees but for case, is not.
pub proof fn recordings_are_told_by_what_they_share(entity: Entity, track: TrackIdentity)
    requires
        entity.kind == EntityKind::Recording,
    ensures
        entity.id@ == track.recording_id@ ==> entity_is(entity, track),
        entity.mbid is Some && track.recording_mbid is Some && ascii_lowered(
            entity.mbid->Some_0@,
        ) == ascii_lowered(track.recording_mbid->Some_0@) ==> entity_is(entity, track),
        entity.title is Some && entity.name is Some && normalized(entity.title->Some_0@)
            == track.title_name@ && normalized(entity.name->Some_0@) == track.artist_name@
            ==> entity_is(entity, track),
        entity.id@ != track.recording_id@ && (entity.mbid is None || track.recording_mbid is None)
            && (entity.title is None || entity.name is None) ==> !entity_is(entity, track),
        entity.id@ != track.recording_id@ && (entity.mbid is None || track.recording_mbid is None)
            && normalized(entity.title->Some_0@) != track.title_name@ ==> !entity_is(entity, track),
        entity.id@ != track.recording_id@ && (entity.mbid is None || track.recording_mbid is None)
            && normalized(entity.name->Some_0@) != track.artist_name@ ==> !entity_is(entity, track),
        entity.id@ != track.recording_id@ && entity.mbid is Some && track.recording_mbid is Some
            && ascii_lowered(entity.mbid->Some_0@) != ascii_lowered(track.recording_mbid->Some_0@)
            && entity.title is None ==> !entity_is(entity, track),
{
}

/// An artist with one of a track's identifiers but for case is the artist of that
/// track, and so is one with the normal name of that artist; one without either
/// is not.
pub proof fn artists_are_told_by_what_they_share(entity: Entity, track: TrackIdentity, at: int)
    requires
        entity.kind == EntityKind::Artist,
        0 <= at < track.artist_ids@.len(),
    ensures
        ascii_lowered(track.artist_ids@[at]@) == ascii_lowered(entity.id@) ==> entity_is(
            entity,
            track,
        ),
        entity.mbid is Some && ascii_lowered(track.artist_ids@[at]@) == ascii_lowered(
            entity.mbid->Some_0@,
        ) ==> entity_is(entity, track),
        entity.name is Some && normalized(entity.name->Some_0@) == track.artist_name@ ==> entity_is(
            entity,
            track,
        ),
        (forall|i: int|
            0 <= i < track.artist_ids@.len() ==> ascii_lowered((#[trigger] track.artist_ids@[i])@)
                != ascii_lowered(entity.id@)) && entity.mbid is None && entity.name is None
            ==> !entity_is(entity, track),
        !recording_is(entity, track),
        entity_is(entity, track) == artist_is(entity, track),
{
    if ascii_lowered(track.artist_ids@[at]@) == ascii_lowered(entity.id@) {
        assert(names_one_of(
            track.artist_ids@,
            entity.id@,
            track.artist_ids@.len() as int,
        ));
    }
    if entity.mbid is Some && ascii_lowered(track.artist_ids@[at]@) == ascii_lowered(
        entity.mbid->Some_0@,
    ) {
        assert(names_one_of(
            track.artist_ids@,
            entity.mbid->Some_0@,
            track.artist_ids@.len() as int,
        ));
    }
}

} // verus!
