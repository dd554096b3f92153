//! Which tracks of a large library come into question on the way to a
//! destination.

use crate::anchored_path::{adjacency, adjacent, is_adjacency};
use crate::route::nearest_first;
use crate::sorting::{first_few, sort_by, stable_sort, stable_sort_same_members};
use std::collections::HashSet;
use vstd::prelude::*;

verus! {

/// What a track is near to.
#[derive(Clone, Copy, Debug, PartialEq, Eq, Structural)]
pub enum Nearness {
    /// The start.
    Left,
    /// The destination.
    Right,
    /// Both of them, like what lies halfway.
    Middle,
}

/// How far a track is by a nearness; halfway the larger of both distances counts.
pub open spec fn remoteness(
    distance: spec_fn(usize, usize) -> u64,
    left: usize,
    right: usize,
    nearness: Nearness,
    track: usize,
) -> u64 {
    let from = distance(left, track);
    let to = distance(track, right);
    match nearness {
        Nearness::Left => from,
        Nearness::Right => to,
        Nearness::Middle => if from > to {
            from
        } else {
            to
        },
    }
}

/// The tracks with how far each is.
pub open spec fn remotenesses(
    tracks: Seq<usize>,
    distance: spec_fn(usize, usize) -> u64,
    left: usize,
    right: usize,
    nearness: Nearness,
) -> Seq<(u64, usize)> {
    Seq::new(
        tracks.len(),
        |i: int| (remoteness(distance, left, right, nearness, tracks[i]), tracks[i]),
    )
}

/// The nearest tracks, as many as `limit` says.
pub open spec fn nearest(
    tracks: Seq<usize>,
    distance: spec_fn(usize, usize) -> u64,
    left: usize,
    right: usize,
    nearness: Nearness,
    limit: int,
) -> Seq<(u64, usize)> {
    first_few(
        stable_sort(remotenesses(tracks, distance, left, right, nearness), nearest_first()),
        limit,
    )
}

/// Some tracks and the first `count` of others.
pub open spec fn joined_by(known: Set<usize>, near: Seq<(u64, usize)>, count: int) -> Set<usize>
    decreases count,
{
    if count <= 0 {
        known
    } else {
        joined_by(known, near, count - 1).insert(near[count - 1].1)
    }
}

/// The tracks near the start, near the destination and halfway, a third of the
/// limit of each.
pub open spec fn near_the_way(
    tracks: Seq<usize>,
    distance: spec_fn(usize, usize) -> u64,
    left: usize,
    right: usize,
    limit: usize,
) -> Set<usize> {
    let third = limit as int / 3;
    let first = nearest(tracks, distance, left, right, Nearness::Left, third);
    let last = nearest(tracks, distance, left, right, Nearness::Right, third);
    let middle = nearest(tracks, distance, left, right, Nearness::Middle, third);
    joined_by(
        joined_by(
            joined_by(Set::empty(), first, first.len() as int),
            last,
            last.len() as int,
        ),
        middle,
        middle.len() as int,
    )
}

/// Those of the first `count` tracks that are in a set.
pub open spec fn members_upto(tracks: Seq<usize>, kept: Set<usize>, count: int) -> Seq<usize>
    decreases count,
{
    if count <= 0 {
        seq![]
    } else if kept.contains(tracks[count - 1]) {
        members_upto(tracks, kept, count - 1).push(tracks[count - 1])
    } else {
        members_upto(tracks, kept, count - 1)
    }
}

/// The tracks that come into question on the way: all of them, or, beyond a
/// limit, those near the start, near the destination and halfway, in their order.
pub open spec fn coarse_pool(
    tracks: Seq<usize>,
    distance: spec_fn(usize, usize) -> u64,
    left: usize,
    right: usize,
    limit: usize,
) -> Seq<usize> {
    if tracks.len() <= limit {
        tracks
    } else {
        members_upto(
            tracks,
            near_the_way(tracks, distance, left, right, limit),
            tracks.len() as int,
        )
    }
}

fn measure_remoteness<F: Fn(usize, usize) -> u64>(
    distance: &F,
    left: usize,
    right: usize,
    nearness: Nearness,
    track: usize,
) -> (apart: u64)
    requires
        is_adjacency(*distance),
    ensures
        apart == remoteness(adjacency(*distance), left, right, nearness, track),
{
    match nearness {
        Nearness::Left => adjacent(distance, left, track),
        Nearness::Right => adjacent(distance, track, right),
        Nearness::Middle => {
            let from: u64 = adjacent(distance, left, track);
            let to: u64 = adjacent(distance, track, right);
            if from > to {
                from
            } else {
                to
            }
        },
    }
}

fn join_nearest<F: Fn(usize, usize) -> u64>(
    kept: &mut HashSet<usize>,
    tracks: &[usize],
    distance: &F,
    left: usize,
    right: usize,
    nearness: Nearness,
    limit: usize,
)
    requires
        is_adjacency(*distance),
    ensures
        ({
            let near = nearest(
                tracks@,
                adjacency(*distance),
                left,
                right,
                nearness,
                limit as int,
            );
            final(kept)@ == joined_by(old(kept)@, near, near.len() as int)
        }),
{
    broadcast use vstd::std_specs::hash::group_hash_axioms;

    let ghost known = kept@;
    let ghost all = remotenesses(tracks@, adjacency(*distance), left, right, nearness);
    let mut measured: Vec<(u64, usize)> = Vec::new();
    let mut at: usize = 0;
    while at < tracks.len()
        invariant
            at <= tracks@.len(),
            is_adjacency(*distance),
            all == remotenesses(tracks@, adjacency(*distance), left, right, nearness),
            measured@ =~= all.take(at as int),
        decreases tracks@.len() - at,
    {
        let apart: u64 = measure_remoteness(distance, left, right, nearness, tracks[at]);
        measured.push((apart, tracks[at]));
        at += 1;
    }
    assert(measured@ =~= all);
    let leq = |a: &(u64, usize), b: &(u64, usize)| -> (first: bool)
        ensures
            first == nearest_first()(*a, *b),
        { a.0 < b.0 || (a.0 == b.0 && a.1 <= b.1) };
    let sorted = sort_by(measured, &leq, Ghost(nearest_first()));
    let count: usize = if sorted.len() <= limit {
        sorted.len()
    } else {
        limit
    };
    let ghost near = first_few(sorted@, limit as int);
    assert(near =~= sorted@.take(count as int));
    let mut next: usize = 0;
    while next < count
        invariant
            next <= count <= sorted@.len(),
            near =~= sorted@.take(count as int),
            kept@ == joined_by(known, near, next as int),
        decreases count - next,
    {
        broadcast use vstd::std_specs::hash::group_hash_axioms;

        assert(near[next as int] == sorted@[next as int]);
        let track: usize = sorted[next].1;
        kept.insert(track);
        next += 1;
    }
}

/// Finds the tracks that come into question on the way to a destination.
pub fn narrow_pool<F: Fn(usize, usize) -> u64>(
    tracks: &[usize],
    distance: &F,
    left: usize,
    right: usize,
    limit: usize,
) -> (pool: Vec<usize>)
    requires
        is_adjacency(*distance),
    ensures
        pool@ == coarse_pool(tracks@, adjacency(*distance), left, right, limit),
{
    broadcast use vstd::std_specs::hash::group_hash_axioms;

    if tracks.len() <= limit {
        return crate::sequences::copied(tracks);
    }
    let third: usize = limit / 3;
    let mut kept: HashSet<usize> = HashSet::new();
    join_nearest(&mut kept, tracks, distance, left, right, Nearness::Left, third);
    join_nearest(&mut kept, tracks, distance, left, right, Nearness::Right, third);
    join_nearest(&mut kept, tracks, distance, left, right, Nearness::Middle, third);
    let ghost near = near_the_way(tracks@, adjacency(*distance), left, right, limit);
    assert(kept@ == near);
    let mut pool: Vec<usize> = Vec::new();
    let mut at: usize = 0;
    assert(pool@ =~= members_upto(tracks@, near, 0));
    while at < tracks.len()
        invariant
            at <= tracks@.len(),
            kept@ == near,
            pool@ == members_upto(tracks@, near, at as int),
        decreases tracks@.len() - at,
    {
        broadcast use vstd::std_specs::hash::group_hash_axioms;

        if kept.contains(&tracks[at]) {
            pool.push(tracks[at]);
        }
        at += 1;
    }
    pool
}

proof fn lemma_joined(known: Set<usize>, near: Seq<(u64, usize)>, count: int)
    requires
        known.finite(),
        0 <= count <= near.len(),
    ensures
        joined_by(known, near, count).finite(),
        joined_by(known, near, count).len() <= known.len() + count,
        known.subset_of(joined_by(known, near, count)),
        forall|i: int|
            0 <= i < count ==> joined_by(known, near, count).contains((#[trigger] near[i]).1),
    decreases count,
{
    if count > 0 {
        lemma_joined(known, near, count - 1);
    }
}

proof fn lemma_members(tracks: Seq<usize>, kept: Set<usize>, count: int)
    requires
        0 <= count <= tracks.len(),
    ensures
        forall|i: int|
            0 <= i < members_upto(tracks, kept, count).len() ==> kept.contains(
                #[trigger] members_upto(tracks, kept, count)[i],
            ) && tracks.take(count).contains(members_upto(tracks, kept, count)[i]),
        forall|i: int|
            0 <= i < count && kept.contains(#[trigger] tracks[i]) ==> members_upto(
                tracks,
                kept,
                count,
            ).contains(tracks[i]),
        tracks.no_duplicates() ==> members_upto(tracks, kept, count).no_duplicates(),
    decreases count,
{
    if count > 0 {
        lemma_members(tracks, kept, count - 1);
        let before = members_upto(tracks, kept, count - 1);
        let after = members_upto(tracks, kept, count);
        let taken = tracks.take(count);
        let fewer = tracks.take(count - 1);
        assert(taken[count - 1] == tracks[count - 1]);
        assert forall|i: int| 0 <= i < after.len() implies kept.contains(#[trigger] after[i])
            && taken.contains(after[i]) by {
            if i < before.len() {
                assert(fewer.contains(before[i]));
                let j = choose|j: int| 0 <= j < fewer.len() && fewer[j] == before[i];
                assert(taken[j] == before[i]);
            }
        }
        assert forall|i: int| 0 <= i < count && kept.contains(
            #[trigger] tracks[i],
        ) implies after.contains(tracks[i]) by {
            if i < count - 1 {
                let j = choose|j: int| 0 <= j < before.len() && before[j] == tracks[i];
                assert(after[j] == tracks[i]);
            } else {
                assert(after[after.len() - 1] == tracks[i]);
            }
        }
        if tracks.no_duplicates() && kept.contains(tracks[count - 1]) {
            assert(!before.contains(tracks[count - 1])) by {
                if before.contains(tracks[count - 1]) {
                    let i = choose|i: int|
                        0 <= i < before.len() && before[i] == tracks[count - 1];
                    assert(fewer.contains(before[i]));
                    let j = choose|j: int| 0 <= j < fewer.len() && fewer[j] == before[i];
                    assert(tracks[j] == tracks[count - 1]);
                }
            }
        }
    }
}

/// What comes into question are tracks of the library, each once where none
/// comes twice, and no more of them than the limit. A library within the limit
/// is left as it is, and a larger one keeps what is nearest to the start, to the
/// destination and to both.
pub proof fn pools_are_bounded_and_keep_the_nearest(
    tracks: Seq<usize>,
    distance: spec_fn(usize, usize) -> u64,
    left: usize,
    right: usize,
    limit: usize,
    nearness: Nearness,
    rank: int,
)
    ensures
        ({
            let pool = coarse_pool(tracks, distance, left, right, limit);
            &&& forall|i: int| 0 <= i < pool.len() ==> tracks.contains(#[trigger] pool[i])
            &&& tracks.no_duplicates() ==> pool.no_duplicates() && pool.len() <= limit
            &&& tracks.len() <= limit ==> pool == tracks
            &&& tracks.len() > limit && 0 <= rank < limit as int / 3 ==> pool.contains(
                stable_sort(
                    remotenesses(tracks, distance, left, right, nearness),
                    nearest_first(),
                )[rank].1,
            )
        }),
{
    let pool = coarse_pool(tracks, distance, left, right, limit);
    if tracks.len() > limit {
        let third = limit as int / 3;
        let kept = near_the_way(tracks, distance, left, right, limit);
        let first = nearest(tracks, distance, left, right, Nearness::Left, third);
        let last = nearest(tracks, distance, left, right, Nearness::Right, third);
        let middle = nearest(tracks, distance, left, right, Nearness::Middle, third);
        let one = joined_by(Set::empty(), first, first.len() as int);
        let two = joined_by(one, last, last.len() as int);
        lemma_joined(Set::empty(), first, first.len() as int);
        lemma_joined(one, last, last.len() as int);
        lemma_joined(two, middle, middle.len() as int);
        lemma_members(tracks, kept, tracks.len() as int);
        assert(tracks.take(tracks.len() as int) =~= tracks);
        let all = remotenesses(tracks, distance, left, right, nearness);
        let sorted = stable_sort(all, nearest_first());
        stable_sort_same_members(all, nearest_first());
        if 0 <= rank < third {
            let near = nearest(tracks, distance, left, right, nearness, third);
            assert(near[rank] == sorted[rank]);
            assert(kept.contains(near[rank].1));
            assert(sorted.contains(sorted[rank]));
            assert(all.contains(sorted[rank]));
            let i = choose|i: int| 0 <= i < all.len() && all[i] == sorted[rank];
            assert(tracks[i] == sorted[rank].1);
        }
        if tracks.no_duplicates() {
            pool.unique_seq_to_set();
            assert forall|track: usize| pool.to_set().contains(track) implies kept.contains(
                track,
            ) by {
                let i = choose|i: int| 0 <= i < pool.len() && pool[i] == track;
                assert(kept.contains(pool[i]));
            }
            vstd::set_lib::lemma_len_subset(pool.to_set(), kept);
        }
    } else {
        assert forall|i: int| 0 <= i < pool.len() implies tracks.contains(
            #[trigger] pool[i],
        ) by {}
    }
}

} // verus!
