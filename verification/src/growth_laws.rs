//! What growing a playlist comes to, in numbers.

use crate::route::{nearest_first, RouteTrack};
use crate::seed_growth::{
    album_count, artist_count, by_key, candidates_of, capacity, counts_of, crowded_from, has_room,
    keyed, lemma_key_fits, lemma_pool_fits, nothing_supported, picked_from, pool_size,
    preference_key, preferred, preferring_keeps_the_candidates, relevances, support_of,
    unguided_rankings_stay, Addition, GrowthModel, PreferenceView,
};
use crate::sorting::{stable_sort, stable_sort_is_sorted, stable_sort_same_members};
use crate::units::UNIT;
use crate::variation::variation_key_of;
use vstd::prelude::*;

verus! {

// Room.

/// At which of some members an artist stands.
pub open spec fn places_of_artist(
    tracks: Seq<RouteTrack>,
    members: Seq<usize>,
    artist: Seq<char>,
) -> Set<int> {
    Set::new(
        |i: int| 0 <= i < members.len() && tracks[members[i] as int].artist_key@ == artist,
    )
}

/// At which of some members an album stands.
pub open spec fn places_of_album(
    tracks: Seq<RouteTrack>,
    members: Seq<usize>,
    album: Seq<char>,
) -> Set<int> {
    Set::new(|i: int| 0 <= i < members.len() && tracks[members[i] as int].album_key@ == album)
}

proof fn lemma_places(tracks: Seq<RouteTrack>, members: Seq<usize>, name: Seq<char>)
    ensures
        places_of_artist(tracks, members, name).finite(),
        places_of_artist(tracks, members, name).len() == artist_count(
            tracks,
            members,
            name,
            members.len() as int,
        ),
        places_of_album(tracks, members, name).finite(),
        places_of_album(tracks, members, name).len() == album_count(
            tracks,
            members,
            name,
            members.len() as int,
        ),
    decreases members.len(),
{
    let artists = places_of_artist(tracks, members, name);
    let albums = places_of_album(tracks, members, name);
    if members.len() == 0 {
        assert(artists =~= Set::empty());
        assert(albums =~= Set::empty());
    } else {
        let front = members.drop_last();
        let last = members.len() - 1;
        lemma_places(tracks, front, name);
        lemma_counts_of_front(tracks, members, name, last);
        if tracks[members[last] as int].artist_key@ == name {
            assert(artists =~= places_of_artist(tracks, front, name).insert(last));
        } else {
            assert(artists =~= places_of_artist(tracks, front, name));
        }
        if tracks[members[last] as int].album_key@ == name {
            assert(albums =~= places_of_album(tracks, front, name).insert(last));
        } else {
            assert(albums =~= places_of_album(tracks, front, name));
        }
    }
}

proof fn lemma_counts_of_front(
    tracks: Seq<RouteTrack>,
    members: Seq<usize>,
    name: Seq<char>,
    count: int,
)
    requires
        0 <= count < members.len(),
    ensures
        artist_count(tracks, members.drop_last(), name, count) == artist_count(
            tracks,
            members,
            name,
            count,
        ),
        album_count(tracks, members.drop_last(), name, count) == album_count(
            tracks,
            members,
            name,
            count,
        ),
    decreases count,
{
    if count > 0 {
        lemma_counts_of_front(tracks, members, name, count - 1);
    }
}

/// A name fits as often as stretches of one more than its window begin in a
/// playlist of the wanted size; without a window as often as there are tracks.
pub proof fn names_fit_once_in_a_window(target: usize, window: usize)
    ensures
        window == 0 ==> capacity(target, window) >= target,
        window > 0 && target > 0 ==> (capacity(target, window) - 1) * (window + 1) < target
            <= capacity(target, window) * (window + 1),
        window > 0 && target == 0 ==> capacity(target, window) == 0,
{
    let t = target as int;
    let w = window + 1;
    if window > 0 {
        let q = t / w;
        let r = t % w;
        assert(t == q * w + r && 0 <= r < w) by (nonlinear_arith)
            requires
                q == t / w,
                r == t % w,
                w > 0,
        ;
        assert((q - 1) * w == q * w - w && (q + 1) * w == q * w + w) by (nonlinear_arith);
        assert(t == 0 ==> q == 0 && r == 0) by (nonlinear_arith)
            requires
                q == t / w,
                r == t % w,
                w > 0,
        ;
        assert(t > 0 && r == 0 ==> q * w == t);
    }
}

/// Whether a track fits among members: its artist and its album each stand there
/// less often than they may.
pub open spec fn fits_among(
    tracks: Seq<RouteTrack>,
    members: Seq<usize>,
    track: usize,
    artist_room: int,
    album_room: int,
) -> bool {
    &&& places_of_artist(tracks, members, tracks[track as int].artist_key@).len() < artist_room
    &&& places_of_album(tracks, members, tracks[track as int].album_key@).len() < album_room
}

proof fn lemma_fits(
    tracks: Seq<RouteTrack>,
    members: Seq<usize>,
    track: usize,
    artist_room: int,
    album_room: int,
)
    ensures
        has_room(tracks, members, track, artist_room, album_room) == fits_among(
            tracks,
            members,
            track,
            artist_room,
            album_room,
        ),
{
    lemma_places(tracks, members, tracks[track as int].artist_key@);
    lemma_places(tracks, members, tracks[track as int].album_key@);
}

/// Sources are too many of a kind exactly where the artist or the album of one
/// of them stands among them more often than it may.
pub proof fn crowded_sources_repeat_a_name_too_often(
    tracks: Seq<RouteTrack>,
    members: Seq<usize>,
    artist_room: int,
    album_room: int,
)
    ensures
        crowded_from(tracks, members, artist_room, album_room, 0) <==> exists|i: int|
            0 <= i < members.len() && (places_of_artist(
                tracks,
                members,
                tracks[#[trigger] members[i] as int].artist_key@,
            ).len() > artist_room || places_of_album(
                tracks,
                members,
                tracks[members[i] as int].album_key@,
            ).len() > album_room),
{
    assert forall|i: int| 0 <= i < members.len() implies #[trigger] counts_of(
        tracks,
        members,
        members[i],
    ) == (
        places_of_artist(tracks, members, tracks[members[i] as int].artist_key@).len() as int,
        places_of_album(tracks, members, tracks[members[i] as int].album_key@).len() as int,
    ) by {
        lemma_places(tracks, members, tracks[members[i] as int].artist_key@);
        lemma_places(tracks, members, tracks[members[i] as int].album_key@);
    }
    if crowded_from(tracks, members, artist_room, album_room, 0) {
        let i = choose|i: int|
            0 <= i < members.len() && {
                let counts = #[trigger] counts_of(tracks, members, members[i]);
                counts.0 > artist_room || counts.1 > album_room
            };
        assert(members[i] == members[i]);
    }
    if exists|i: int|
        0 <= i < members.len() && (places_of_artist(
            tracks,
            members,
            tracks[#[trigger] members[i] as int].artist_key@,
        ).len() > artist_room || places_of_album(
            tracks,
            members,
            tracks[members[i] as int].album_key@,
        ).len() > album_room) {
        let i = choose|i: int|
            0 <= i < members.len() && (places_of_artist(
                tracks,
                members,
                tracks[#[trigger] members[i] as int].artist_key@,
            ).len() > artist_room || places_of_album(
                tracks,
                members,
                tracks[members[i] as int].album_key@,
            ).len() > album_room);
        assert(counts_of(tracks, members, members[i]).0 > artist_room || counts_of(
            tracks,
            members,
            members[i],
        ).1 > album_room);
    }
}

// Additions.

proof fn lemma_fits_no_more(
    tracks: Seq<RouteTrack>,
    fewer: Seq<usize>,
    more: Seq<usize>,
    track: usize,
    artist_room: int,
    album_room: int,
)
    requires
        fewer.len() <= more.len(),
        more.take(fewer.len() as int) == fewer,
        fits_among(tracks, more, track, artist_room, album_room),
    ensures
        fits_among(tracks, fewer, track, artist_room, album_room),
{
    let artist = tracks[track as int].artist_key@;
    let album = tracks[track as int].album_key@;
    lemma_places(tracks, more, artist);
    lemma_places(tracks, more, album);
    assert forall|i: int| 0 <= i < fewer.len() implies #[trigger] fewer[i] == more[i] by {
        assert(more.take(fewer.len() as int)[i] == more[i]);
    }
    vstd::set_lib::lemma_len_subset(
        places_of_artist(tracks, fewer, artist),
        places_of_artist(tracks, more, artist),
    );
    vstd::set_lib::lemma_len_subset(
        places_of_album(tracks, fewer, album),
        places_of_album(tracks, more, album),
    );
}

/// Whether what is picked holds a ranked candidate.
spec fn holds_ranked(picked: Seq<Addition>, item: (u64, usize)) -> bool {
    picked.contains(Addition { candidate: item.1, distance: item.0 })
}

proof fn lemma_picks(
    tracks: Seq<RouteTrack>,
    sources: Seq<usize>,
    ranked: Seq<(u64, usize)>,
    rooms: (int, int),
    requested: int,
    at: int,
    picked: Seq<Addition>,
)
    requires
        0 <= at <= ranked.len(),
        picked.len() <= requested,
    ensures
        ({
            let all = picked_from(tracks, sources, ranked, rooms, requested, at, picked);
            &&& picked.len() <= all.len() <= requested
            &&& all.take(picked.len() as int) == picked
            &&& forall|i: int|
                picked.len() <= i < all.len() ==> fits_among(
                    tracks,
                    sources + candidates_of(all.take(i)),
                    (#[trigger] all[i]).candidate,
                    rooms.0,
                    rooms.1,
                )
            &&& all.len() < requested ==> forall|k: int|
                at <= k < ranked.len() ==> holds_ranked(all, #[trigger] ranked[k]) || !fits_among(
                    tracks,
                    sources + candidates_of(all),
                    ranked[k].1,
                    rooms.0,
                    rooms.1,
                )
        }),
    decreases ranked.len() - at,
{
    let all = picked_from(tracks, sources, ranked, rooms, requested, at, picked);
    assert(picked.take(picked.len() as int) =~= picked);
    if at < ranked.len() && picked.len() != requested {
        let candidate = ranked[at].1;
        let members = sources + candidates_of(picked);
        lemma_fits(tracks, members, candidate, rooms.0, rooms.1);
        let next = if has_room(tracks, members, candidate, rooms.0, rooms.1) {
            picked.push(Addition { candidate, distance: ranked[at].0 })
        } else {
            picked
        };
        lemma_picks(tracks, sources, ranked, rooms, requested, at + 1, next);
        assert(all == picked_from(tracks, sources, ranked, rooms, requested, at + 1, next));
        assert(all.take(picked.len() as int) =~= picked) by {
            assert forall|i: int| 0 <= i < picked.len() implies all[i] == picked[i] by {
                assert(all.take(next.len() as int)[i] == all[i]);
            }
        }
        if next.len() > picked.len() {
            assert(all.take(next.len() as int)[picked.len() as int] == all[picked.len() as int]);
            assert(all.contains(all[picked.len() as int]));
        } else if fits_among(
            tracks,
            sources + candidates_of(all),
            candidate,
            rooms.0,
            rooms.1,
        ) {
            assert((sources + candidates_of(all)).take(members.len() as int) =~= members) by {
                assert forall|i: int| 0 <= i < members.len() implies (sources + candidates_of(
                    all,
                ))[i] == members[i] by {
                    if i >= sources.len() {
                        assert(all.take(picked.len() as int)[i - sources.len()] == all[i
                            - sources.len()]);
                    }
                }
            }
            lemma_fits_no_more(
                tracks,
                members,
                sources + candidates_of(all),
                candidate,
                rooms.0,
                rooms.1,
            );
        }
    }
}

proof fn lemma_picks_the_nearest(
    tracks: Seq<RouteTrack>,
    sources: Seq<usize>,
    ranked: Seq<(u64, usize)>,
    rooms: (int, int),
    requested: int,
    at: int,
    picked: Seq<Addition>,
)
    requires
        0 <= at <= ranked.len(),
        picked.len() <= requested,
        forall|i: int, j: int|
            0 <= i < j < ranked.len() ==> (#[trigger] ranked[i]).0 <= (#[trigger] ranked[j]).0,
        forall|i: int, k: int|
            0 <= i < picked.len() && at <= k < ranked.len() ==> (#[trigger] picked[i]).distance <= (
            #[trigger] ranked[k]).0,
    ensures
        ({
            let all = picked_from(tracks, sources, ranked, rooms, requested, at, picked);
            forall|k: int|
                at <= k < ranked.len() ==> {
                    ||| holds_ranked(all, #[trigger] ranked[k])
                    ||| !fits_among(
                        tracks,
                        sources + candidates_of(all),
                        ranked[k].1,
                        rooms.0,
                        rooms.1,
                    )
                    ||| forall|i: int|
                        0 <= i < all.len() ==> (#[trigger] all[i]).distance <= ranked[k].0
                }
        }),
    decreases ranked.len() - at,
{
    let all = picked_from(tracks, sources, ranked, rooms, requested, at, picked);
    lemma_picks(tracks, sources, ranked, rooms, requested, at, picked);
    if at < ranked.len() && picked.len() != requested {
        let candidate = ranked[at].1;
        let members = sources + candidates_of(picked);
        lemma_fits(tracks, members, candidate, rooms.0, rooms.1);
        let next = if has_room(tracks, members, candidate, rooms.0, rooms.1) {
            picked.push(Addition { candidate, distance: ranked[at].0 })
        } else {
            picked
        };
        lemma_picks_the_nearest(tracks, sources, ranked, rooms, requested, at + 1, next);
        lemma_picks(tracks, sources, ranked, rooms, requested, at + 1, next);
        assert(all == picked_from(tracks, sources, ranked, rooms, requested, at + 1, next));
        if next.len() > picked.len() {
            assert(all.take(next.len() as int)[picked.len() as int] == all[picked.len() as int]);
            assert(all.contains(all[picked.len() as int]));
        } else if fits_among(
            tracks,
            sources + candidates_of(all),
            candidate,
            rooms.0,
            rooms.1,
        ) {
            assert((sources + candidates_of(all)).take(members.len() as int) =~= members) by {
                assert forall|i: int| 0 <= i < members.len() implies (sources + candidates_of(
                    all,
                ))[i] == members[i] by {
                    if i >= sources.len() {
                        assert(all.take(picked.len() as int)[i - sources.len()] == all[i
                            - sources.len()]);
                    }
                }
            }
            lemma_fits_no_more(
                tracks,
                members,
                sources + candidates_of(all),
                candidate,
                rooms.0,
                rooms.1,
            );
        }
    }
}

/// Every addition fits among the sources and the additions before it. A
/// candidate is left out only where it no longer fits, or where as many are
/// added as are asked for; and without variation and evidence only where it no
/// longer fits or every addition is at least as near.
pub proof fn additions_take_the_nearest_that_fit(model: GrowthModel, at: int)
    requires
        model.eligible.len() <= usize::MAX,
        model.sources.len() <= model.target,
        0 <= at < model.eligible.len(),
    ensures
        ({
            let additions = model.additions();
            let artist_room = capacity(model.target, model.config.artist_window);
            let album_room = capacity(model.target, model.config.album_window);
            let candidate = model.eligible[at];
            let added = candidates_of(additions).contains(candidate);
            let fits = fits_among(
                model.tracks,
                model.sources + candidates_of(additions),
                candidate,
                artist_room,
                album_room,
            );
            &&& additions.len() <= model.target - model.sources.len()
            &&& forall|i: int|
                0 <= i < additions.len() ==> fits_among(
                    model.tracks,
                    model.sources + candidates_of(additions.take(i)),
                    (#[trigger] additions[i]).candidate,
                    artist_room,
                    album_room,
                )
            &&& !added && fits ==> additions.len() == model.target - model.sources.len()
            &&& !added && fits && model.preference.variation_percent == 0 && nothing_supported(
                model.preference.supports,
            ) ==> forall|i: int|
                0 <= i < additions.len() ==> (#[trigger] additions[i]).distance <= (
                model.scoring.distance)(
                    model.sources,
                    model.config.learned_percent,
                    model.sources,
                    candidate,
                )
        }),
{
    broadcast use vstd::seq_lib::group_to_multiset_ensures;

    let all = relevances(
        model.scoring,
        model.sources,
        model.config.learned_percent,
        model.eligible,
    );
    let ranked = model.ranked();
    let size = model.pool_size();
    let order = preferred(ranked, model.sources, model.preference, size);
    let additions = model.additions();
    let candidate = model.eligible[at];
    lemma_pool_fits(model);
    preferring_keeps_the_candidates(ranked, model.sources, model.preference, size);
    stable_sort_same_members(all, nearest_first());
    stable_sort_is_sorted(all, nearest_first());
    assert(all.contains(all[at]));
    assert(ranked.contains(all[at]));
    assert(order.to_multiset().count(all[at]) > 0);
    let place = choose|k: int| 0 <= k < order.len() && order[k] == all[at];
    assert(order[place].1 == candidate);
    lemma_picks(
        model.tracks,
        model.sources,
        order,
        model.capacities(),
        model.requested(),
        0,
        seq![],
    );
    if holds_ranked(additions, order[place]) {
        let i = choose|i: int|
            0 <= i < additions.len() && additions[i] == (Addition {
                candidate: order[place].1,
                distance: order[place].0,
            });
        assert(candidates_of(additions)[i] == candidate);
    }
    if model.preference.variation_percent == 0 && nothing_supported(model.preference.supports) {
        unguided_rankings_stay(ranked, model.sources, model.preference, size);
        assert forall|i: int, j: int| 0 <= i < j < order.len() implies (#[trigger] order[i]).0 <= (
        #[trigger] order[j]).0 by {
            assert(nearest_first()(ranked[i], ranked[j]));
        }
        lemma_picks_the_nearest(
            model.tracks,
            model.sources,
            order,
            model.capacities(),
            model.requested(),
            0,
            seq![],
        );
    }
}

// Preferences.

/// As many of the nearest candidates change places as are asked for and as many
/// again and 32 more; under chance the second part counts by its percentage. All
/// of them do where there are no more.
pub proof fn pools_grow_with_the_request(count: int, requested: int, percent: u8)
    requires
        0 <= count,
        0 < requested,
        percent <= 100,
    ensures
        pool_size(count, requested, percent) <= count,
        percent == 0 || percent == 100 ==> pool_size(count, requested, percent) == count
            || pool_size(count, requested, percent) == 2 * requested + 32,
        count <= requested ==> pool_size(count, requested, percent) == count,
        count > requested ==> pool_size(count, requested, percent) >= requested,
        0 < percent && pool_size(count, requested, percent) < count ==> {
            let more = pool_size(count, requested, percent) - requested;
            100 * more <= (requested + 32) * percent < 100 * (more + 1)
        },
        percent == 0 && count > 2 * requested + 32 ==> pool_size(count, requested, percent) == 2
            * requested + 32,
{
    let part = (requested + 32) * percent;
    assert((requested + 32) * 100 / 100 == requested + 32) by (nonlinear_arith);
    assert(0 <= part) by (nonlinear_arith)
        requires
            part == (requested + 32) * percent,
            0 < requested,
            0 <= percent,
    ;
    assert(0 <= part / 100);
}

/// The part of everything that evidence supports a track by.
pub open spec fn share_of_support(supports: Seq<u64>, track: usize) -> int {
    if 0 <= track < supports.len() {
        if supports[track as int] <= UNIT {
            supports[track as int] as int
        } else {
            UNIT as int
        }
    } else {
        0
    }
}

/// Whether an order holds a ranking's first candidates by the ranks that are
/// given: of two candidates the later one is behind by its rank at least as much
/// as it is ahead by its support, a full support counting a fifth of them all.
pub open spec fn weighs_ranks_and_supports(
    order: Seq<(u64, usize)>,
    ranked: Seq<(u64, usize)>,
    supports: Seq<u64>,
    ranks: Seq<int>,
) -> bool {
    &&& forall|i: int|
        0 <= i < ranks.len() ==> 0 <= (#[trigger] ranks[i]) < ranks.len() && order[i]
            == ranked[ranks[i]]
    &&& forall|i: int, j: int|
        0 <= i < j < ranks.len() ==> {
            let left = share_of_support(supports, ranked[#[trigger] ranks[i]].1);
            let right = share_of_support(supports, ranked[#[trigger] ranks[j]].1);
            5 * (ranks[i] - ranks[j]) * UNIT <= ranks.len() * (left - right)
        }
}

/// Without variation a candidate comes behind another only where its rank and
/// the support of both put it there: it is moved up by its support, a fifth of
/// the pool at most. What is behind the pool stays where it is.
pub proof fn support_moves_candidates_up(
    ranked: Seq<(u64, usize)>,
    sources: Seq<usize>,
    preference: PreferenceView,
    size: int,
)
    requires
        0 <= size <= ranked.len() <= usize::MAX,
        preference.variation_percent == 0,
    ensures
        ({
            let order = preferred(ranked, sources, preference, size);
            &&& exists|ranks: Seq<int>|
                #![trigger ranks.len()]
                ranks.len() == size && weighs_ranks_and_supports(
                    order,
                    ranked,
                    preference.supports,
                    ranks,
                )
            &&& forall|i: int| size <= i < ranked.len() ==> #[trigger] order[i] == ranked[i]
        }),
{
    let all = keyed(ranked, sources, preference, size);
    let sorted = stable_sort(all, by_key());
    let order = preferred(ranked, sources, preference, size);
    stable_sort_same_members(all, by_key());
    stable_sort_is_sorted(all, by_key());
    let ranks = Seq::new(size as nat, |i: int| sorted[i].rank as int);
    assert forall|i: int| 0 <= i < size implies all[(#[trigger] sorted[i]).rank as int] == sorted[i]
        && 0 <= sorted[i].rank < size by {
        assert(sorted.contains(sorted[i]));
        assert(all.contains(sorted[i]));
        let a = choose|a: int| 0 <= a < all.len() && all[a] == sorted[i];
        assert(all[a].rank == a);
    }
    assert forall|i: int| 0 <= i < ranks.len() implies 0 <= (#[trigger] ranks[i]) < ranks.len()
        && order[i] == ranked[ranks[i]] by {
        assert(all[sorted[i].rank as int] == sorted[i]);
        assert(order[i] == (sorted[i].distance, sorted[i].candidate));
    }
    assert forall|i: int, j: int| 0 <= i < j < ranks.len() implies {
        let left = share_of_support(preference.supports, ranked[#[trigger] ranks[i]].1);
        let right = share_of_support(preference.supports, ranked[#[trigger] ranks[j]].1);
        5 * (ranks[i] - ranks[j]) * UNIT <= ranks.len() * (left - right)
    } by {
        let a = ranks[i];
        let b = ranks[j];
        assert(by_key()(sorted[i], sorted[j]));
        assert(all[a] == sorted[i] && all[b] == sorted[j]);
        lemma_key_fits(preference, sources, ranked[a].1, a, size);
        lemma_key_fits(preference, sources, ranked[b].1, b, size);
        let left = support_of(preference.supports, ranked[a].1) as int;
        let right = support_of(preference.supports, ranked[b].1) as int;
        let unit = UNIT as int;
        assert((5 * a + size) * unit - size * left <= (5 * b + size) * unit - size * right);
        assert(5 * (a - b) * unit <= size * (left - right)) by (nonlinear_arith)
            requires
                (5 * a + size) * unit - size * left <= (5 * b + size) * unit - size * right,
        ;
    }
    assert(ranks.len() == size);
}

/// Under variation the number of a candidate is drawn and then weighed: it grows
/// with the rank as often as there are candidates before it, a better support
/// never makes it larger, and a full one halves it.
pub proof fn drawn_numbers_are_weighed_by_rank_and_support(
    preference: PreferenceView,
    supported: PreferenceView,
    sources: Seq<usize>,
    candidate: usize,
    rank: int,
    size: int,
)
    requires
        0 <= rank,
        0 < preference.variation_percent,
        supported.variation_percent == preference.variation_percent,
        supported.generation_seed == preference.generation_seed,
        share_of_support(preference.supports, candidate) <= share_of_support(
            supported.supports,
            candidate,
        ),
    ensures
        preference_key(preference, sources, candidate, rank, size) == (rank + 1) * preference_key(
            preference,
            sources,
            candidate,
            0,
            size,
        ),
        0 <= preference_key(supported, sources, candidate, rank, size) <= preference_key(
            preference,
            sources,
            candidate,
            rank,
            size,
        ),
        share_of_support(preference.supports, candidate) == 0 && share_of_support(
            supported.supports,
            candidate,
        ) == UNIT ==> 2 * preference_key(supported, sources, candidate, rank, size)
            == preference_key(preference, sources, candidate, rank, size),
{
    let draw = variation_key_of(preference.generation_seed, sources, 0, candidate) as int / 256;
    let less = support_of(preference.supports, candidate) as int;
    let more = support_of(supported.supports, candidate) as int;
    let weak = 200 - less * 100 / UNIT as int;
    let strong = 200 - more * 100 / UNIT as int;
    assert(less * 100 / UNIT as int <= more * 100 / UNIT as int <= 100);
    assert(draw * ((rank + 1) * weak) == (rank + 1) * (draw * ((0 + 1) * weak)))
        by (nonlinear_arith);
    assert(0 <= (rank + 1) * strong <= (rank + 1) * weak) by (nonlinear_arith)
        requires
            0 <= rank,
            0 <= strong <= weak,
    ;
    assert(0 <= draw * ((rank + 1) * strong) <= draw * ((rank + 1) * weak)) by (nonlinear_arith)
        requires
            0 <= draw,
            0 <= (rank + 1) * strong <= (rank + 1) * weak,
    ;
    assert(2 * (draw * ((rank + 1) * 100)) == draw * ((rank + 1) * 200)) by (nonlinear_arith);
}

} // verus!
