//! Growing a fixed set of sources to a target size.

use crate::command::{failed, CommandFailure, FailureView};
use crate::contextual::{
    context_prepared, prepare_adaptive_context, scorer_at, scoring_at, AdaptiveScorer,
    ContextualError, Scoring,
};
use crate::route::{
    nearest_first, optimize_adaptive_route, optimized, pair_safe, repeat_safe, RouteTrack,
    SearchConfig,
};
use crate::route_laws::visits_all;
use crate::sequences::{copied, in_range};
use crate::sorting::{
    sort_by, stable_sort, stable_sort_is_sorted, stable_sort_keeps_items, stable_sort_of_sorted,
    stable_sort_same_members,
};
use crate::text::{append_decimal, decimal, text_with_number};
use crate::units::UNIT;
use crate::variation::{variation_key, variation_key_of};
use vstd::prelude::*;

verus! {

// What is grown.

/// A track that is added, with its distance from the sources.
#[derive(Clone, Copy, Debug, PartialEq, Eq, Structural)]
pub struct Addition {
    pub candidate: usize,
    pub distance: u64,
}

/// A grown playlist.
#[verifier::ext_equal]
pub struct GrowthView {
    pub route: Seq<usize>,
    pub additions: Seq<Addition>,
    pub strategy: Seq<char>,
    pub objective: nat,
}

/// A grown playlist.
#[derive(Debug, PartialEq, Eq)]
pub struct Growth {
    pub route: Vec<usize>,
    pub additions: Vec<Addition>,
    pub strategy: &'static str,
    pub objective: u128,
}

impl View for Growth {
    type V = GrowthView;

    open spec fn view(&self) -> GrowthView {
        GrowthView {
            route: self.route@,
            additions: self.additions@,
            strategy: self.strategy@,
            objective: self.objective as nat,
        }
    }
}

// Relevance.

/// The candidates with their distances from a window of seeds.
pub open spec fn relevances(
    scoring: Scoring,
    seeds: Seq<usize>,
    learned_percent: u16,
    candidates: Seq<usize>,
) -> Seq<(u64, usize)> {
    Seq::new(
        candidates.len(),
        |i: int|
            (
                (scoring.distance)(seeds, learned_percent, seeds, candidates[i]),
                candidates[i],
            ),
    )
}

/// The candidates by their distance from the seeds, the nearest first.
pub open spec fn by_relevance(
    scoring: Scoring,
    seeds: Seq<usize>,
    learned_percent: u16,
    candidates: Seq<usize>,
) -> Seq<(u64, usize)> {
    stable_sort(relevances(scoring, seeds, learned_percent, candidates), nearest_first())
}

// Variation and guidance.

/// What decides among near candidates besides their distance: how much chance,
/// by which seed, and how much evidence supports each track of the library, in
/// parts of `UNIT`.
#[verifier::ext_equal]
pub struct PreferenceView {
    pub variation_percent: u8,
    pub generation_seed: u64,
    pub supports: Seq<u64>,
}

/// What decides among near candidates besides their distance.
#[derive(Clone, Copy)]
pub struct Preference<'a> {
    pub variation_percent: u8,
    pub generation_seed: u64,
    pub supports: &'a [u64],
}

impl<'a> View for Preference<'a> {
    type V = PreferenceView;

    open spec fn view(&self) -> PreferenceView {
        PreferenceView {
            variation_percent: self.variation_percent,
            generation_seed: self.generation_seed,
            supports: self.supports@,
        }
    }
}

/// Whether no evidence supports any track.
pub open spec fn nothing_supported(supports: Seq<u64>) -> bool {
    forall|i: int| 0 <= i < supports.len() ==> #[trigger] supports[i] == 0
}

/// How much evidence supports a track, all of `UNIT` at most.
pub open spec fn support_of(supports: Seq<u64>, track: usize) -> u64 {
    if track >= supports.len() {
        0
    } else if supports[track as int] > UNIT {
        UNIT
    } else {
        supports[track as int]
    }
}

fn find_support(supports: &[u64], track: usize) -> (support: u64)
    ensures
        support == support_of(supports@, track),
{
    if track >= supports.len() {
        0
    } else if supports[track] > UNIT {
        UNIT
    } else {
        supports[track]
    }
}

/// How many of the nearest candidates may change places: as many as are asked
/// for, as many again and 32 more; where chance decides, the second part by its
/// percentage.
pub open spec fn pool_size(count: int, requested: int, percent: u8) -> int {
    let share: int = if percent == 0 {
        100
    } else {
        percent as int
    };
    let wanted = requested + (requested + 32) * share / 100;
    if requested <= 0 {
        0
    } else if wanted < count {
        wanted
    } else {
        count
    }
}

/// The number by which a candidate with a rank among `size` is taken. Without
/// variation that is its rank, moved up by its support a fifth of the pool at
/// most. Otherwise it is a number drawn by the seed for the candidate, weighted
/// by its rank, so that a near candidate comes early more often than a far one,
/// and by its support, which halves it at most.
pub open spec fn preference_key(
    preference: PreferenceView,
    sources: Seq<usize>,
    candidate: usize,
    rank: int,
    size: int,
) -> int {
    let support = support_of(preference.supports, candidate) as int;
    if preference.variation_percent == 0 {
        (5 * rank + size) * UNIT - size * support
    } else {
        (variation_key_of(preference.generation_seed, sources, 0, candidate) as int / 256) * ((rank
            + 1) * (200 - support * 100 / UNIT as int))
    }
}

/// A ranked candidate with its distance and the number by which it is taken.
#[derive(Clone, Copy)]
pub struct Preferred {
    pub key: u128,
    pub rank: usize,
    pub distance: u64,
    pub candidate: usize,
}

/// The order in which candidates are taken.
pub open spec fn by_key() -> spec_fn(Preferred, Preferred) -> bool {
    |a: Preferred, b: Preferred| a.key <= b.key
}

/// The first `count` ranked candidates with their numbers.
pub open spec fn keyed(
    ranked: Seq<(u64, usize)>,
    sources: Seq<usize>,
    preference: PreferenceView,
    count: int,
) -> Seq<Preferred> {
    Seq::new(
        count as nat,
        |i: int|
            Preferred {
                key: preference_key(preference, sources, ranked[i].1, i, count) as u128,
                rank: i as usize,
                distance: ranked[i].0,
                candidate: ranked[i].1,
            },
    )
}

/// What a candidate was ranked as.
pub open spec fn unkeyed() -> spec_fn(Preferred) -> (u64, usize) {
    |item: Preferred| (item.distance, item.candidate)
}

/// The ranked candidates with the nearest of them in the preferred order.
pub open spec fn preferred(
    ranked: Seq<(u64, usize)>,
    sources: Seq<usize>,
    preference: PreferenceView,
    size: int,
) -> Seq<(u64, usize)> {
    stable_sort(keyed(ranked, sources, preference, size), by_key()).map_values(unkeyed())
        + ranked.skip(size)
}

/// The number of a candidate fits, and no support is more than all of it.
pub proof fn lemma_key_fits(
    preference: PreferenceView,
    sources: Seq<usize>,
    candidate: usize,
    rank: int,
    size: int,
)
    requires
        0 <= rank < size <= usize::MAX,
    ensures
        0 <= preference_key(preference, sources, candidate, rank, size) <= u128::MAX,
        support_of(preference.supports, candidate) <= UNIT,
{
    let support = support_of(preference.supports, candidate) as int;
    let unit = UNIT as int;
    if preference.variation_percent == 0 {
        assert(0 <= size * support <= size * unit) by (nonlinear_arith)
            requires
                0 <= support <= unit,
                0 <= size,
        ;
        assert(0 <= rank * 5 * unit && (5 * rank + size) * unit == rank * 5 * unit + size * unit)
            by (nonlinear_arith)
            requires
                0 <= rank,
                0 <= unit,
        ;
        assert((5 * rank + size) * unit <= 6 * u64::MAX * unit) by (nonlinear_arith)
            requires
                0 <= rank < size <= u64::MAX,
                0 <= unit,
        ;
        assert(6 * u64::MAX * 1_000_000_000_000int <= u128::MAX);
    } else {
        let drawn = variation_key_of(preference.generation_seed, sources, 0, candidate) as int
            / 256;
        let share = support * 100 / unit;
        assert(0 <= share <= 100) by (nonlinear_arith)
            requires
                share == support * 100 / unit,
                0 <= support <= unit,
                unit > 0,
        ;
        let weight = (rank + 1) * (200 - share);
        assert(0 <= weight <= u64::MAX * 200) by (nonlinear_arith)
            requires
                weight == (rank + 1) * (200 - share),
                0 <= rank < u64::MAX,
                0 <= share <= 100,
        ;
        assert(0 <= drawn * weight <= (u64::MAX / 256) * (u64::MAX * 200)) by (nonlinear_arith)
            requires
                0 <= drawn <= u64::MAX / 256,
                0 <= weight <= u64::MAX * 200,
        ;
        assert((u64::MAX / 256) * (u64::MAX * 200) <= u128::MAX) by (nonlinear_arith);
    }
}

fn key_of(
    preference: &Preference<'_>,
    sources: &[usize],
    candidate: usize,
    rank: usize,
    size: usize,
) -> (key: u128)
    requires
        rank < size,
    ensures
        key == preference_key(preference@, sources@, candidate, rank as int, size as int),
{
    proof {
        lemma_key_fits(preference@, sources@, candidate, rank as int, size as int);
    }
    let support: u64 = find_support(preference.supports, candidate);
    let unit: u128 = UNIT as u128;
    if preference.variation_percent == 0 {
        assert((5 * rank + size) * UNIT <= 6 * u64::MAX * UNIT) by (nonlinear_arith)
            requires
                rank < size <= u64::MAX,
        ;
        assert(0 <= size * support <= u64::MAX * UNIT) by (nonlinear_arith)
            requires
                support <= UNIT,
                0 <= size <= u64::MAX,
        ;
        (5 * (rank as u128) + size as u128) * unit - (size as u128) * (support as u128)
    } else {
        let drawn: u128 = (variation_key(
            preference.generation_seed,
            sources,
            0,
            candidate,
        ) / 256) as u128;
        let share: u128 = support as u128 * 100 / unit;
        assert(0 <= share <= 100) by (nonlinear_arith)
            requires
                share == support as int * 100 / unit as int,
                0 <= support <= unit,
                unit > 0,
        ;
        let left: u128 = 200 - share;
        assert(0 <= (rank + 1) * left <= u64::MAX * 200) by (nonlinear_arith)
            requires
                rank < u64::MAX,
                left <= 200,
        ;
        let weight: u128 = (rank as u128 + 1) * left;
        drawn * weight
    }
}

fn prefer(
    ranked: &Vec<(u64, usize)>,
    sources: &[usize],
    preference: &Preference<'_>,
    size: usize,
) -> (order: Vec<(u64, usize)>)
    requires
        size <= ranked@.len(),
    ensures
        order@ == preferred(ranked@, sources@, preference@, size as int),
{
    let ghost all = keyed(ranked@, sources@, preference@, size as int);
    let mut items: Vec<Preferred> = Vec::new();
    let mut at: usize = 0;
    while at < size
        invariant
            at <= size <= ranked@.len(),
            all == keyed(ranked@, sources@, preference@, size as int),
            items@ =~= all.take(at as int),
        decreases size - at,
    {
        let (distance, candidate) = ranked[at];
        let key: u128 = key_of(preference, sources, candidate, at, size);
        items.push(Preferred { key, rank: at, distance, candidate });
        at += 1;
    }
    assert(items@ =~= all);
    let leq = |a: &Preferred, b: &Preferred| -> (first: bool)
        ensures
            first == by_key()(*a, *b),
        { a.key <= b.key };
    let sorted = sort_by(items, &leq, Ghost(by_key()));
    proof {
        stable_sort_keeps_items(all, by_key());
    }
    let ghost head = stable_sort(all, by_key()).map_values(unkeyed());
    let mut order: Vec<(u64, usize)> = Vec::new();
    let mut next: usize = 0;
    while next < sorted.len()
        invariant
            next <= sorted@.len(),
            head == sorted@.map_values(unkeyed()),
            order@ =~= head.take(next as int),
        decreases sorted@.len() - next,
    {
        order.push((sorted[next].distance, sorted[next].candidate));
        next += 1;
    }
    assert(order@ =~= head);
    let mut rest: usize = size;
    while rest < ranked.len()
        invariant
            size <= rest <= ranked@.len(),
            order@ =~= head + ranked@.subrange(size as int, rest as int),
        decreases ranked@.len() - rest,
    {
        order.push(ranked[rest]);
        rest += 1;
    }
    assert(ranked@.subrange(size as int, ranked@.len() as int) =~= ranked@.skip(size as int));
    order
}

/// Preferring neither adds nor drops nor repeats a candidate.
pub proof fn preferring_keeps_the_candidates(
    ranked: Seq<(u64, usize)>,
    sources: Seq<usize>,
    preference: PreferenceView,
    size: int,
)
    requires
        0 <= size <= ranked.len(),
    ensures
        preferred(ranked, sources, preference, size).to_multiset() == ranked.to_multiset(),
        preferred(ranked, sources, preference, size).len() == ranked.len(),
{
    broadcast use vstd::seq_lib::group_to_multiset_ensures;

    let all = keyed(ranked, sources, preference, size);
    let sorted = stable_sort(all, by_key());
    stable_sort_keeps_items(all, by_key());
    let head = sorted.map_values(unkeyed());
    lemma_image_multiset(sorted, all);
    assert(all.map_values(unkeyed()) =~= ranked.take(size));
    assert(ranked.take(size) + ranked.skip(size) =~= ranked);
    vstd::seq_lib::lemma_multiset_commutative(head, ranked.skip(size));
    vstd::seq_lib::lemma_multiset_commutative(ranked.take(size), ranked.skip(size));
}

/// Without variation and without evidence the ranking stays as it is.
pub proof fn unguided_rankings_stay(
    ranked: Seq<(u64, usize)>,
    sources: Seq<usize>,
    preference: PreferenceView,
    size: int,
)
    requires
        0 <= size <= ranked.len() <= usize::MAX,
        preference.variation_percent == 0,
        nothing_supported(preference.supports),
    ensures
        preferred(ranked, sources, preference, size) == ranked,
{
    let all = keyed(ranked, sources, preference, size);
    assert forall|i: int, j: int| 0 <= i < j < all.len() implies by_key()(
        #[trigger] all[i],
        #[trigger] all[j],
    ) by {
        lemma_key_fits(preference, sources, ranked[i].1, i, size);
        lemma_key_fits(preference, sources, ranked[j].1, j, size);
        assert(support_of(preference.supports, ranked[i].1) == 0);
        assert(support_of(preference.supports, ranked[j].1) == 0);
        assert((5 * i + size) * UNIT <= (5 * j + size) * UNIT) by (nonlinear_arith)
            requires
                i < j,
        ;
    }
    stable_sort_of_sorted(all, by_key());
    assert(preferred(ranked, sources, preference, size) =~= ranked);
}

/// Without variation evidence moves no candidate far: one that is more than a
/// fifth of the pool behind another stays behind it.
pub proof fn guidance_moves_no_candidate_far(
    ranked: Seq<(u64, usize)>,
    sources: Seq<usize>,
    preference: PreferenceView,
    size: int,
)
    requires
        0 <= size <= ranked.len() <= usize::MAX,
        preference.variation_percent == 0,
    ensures
        ({
            let order = stable_sort(keyed(ranked, sources, preference, size), by_key());
            forall|i: int, j: int|
                0 <= i < j < order.len() ==> 5 * ((#[trigger] order[i]).rank - (
                #[trigger] order[j]).rank) <= size
        }),
{
    let all = keyed(ranked, sources, preference, size);
    let order = stable_sort(all, by_key());
    stable_sort_same_members(all, by_key());
    stable_sort_is_sorted(all, by_key());
    assert forall|i: int, j: int| 0 <= i < j < order.len() implies 5 * ((
    #[trigger] order[i]).rank - (#[trigger] order[j]).rank) <= size by {
        assert(by_key()(order[i], order[j]));
        assert(order.contains(order[i]));
        assert(order.contains(order[j]));
        assert(all.contains(order[i]));
        assert(all.contains(order[j]));
        let a = choose|a: int| 0 <= a < all.len() && all[a] == order[i];
        let b = choose|b: int| 0 <= b < all.len() && all[b] == order[j];
        lemma_key_fits(preference, sources, ranked[a].1, a, size);
        lemma_key_fits(preference, sources, ranked[b].1, b, size);
        let left = support_of(preference.supports, ranked[a].1) as int;
        let right = support_of(preference.supports, ranked[b].1) as int;
        let unit = UNIT as int;
        assert((5 * a + size) * unit - size * left <= (5 * b + size) * unit - size * right);
        assert(5 * (a - b) <= size) by (nonlinear_arith)
            requires
                (5 * a + size) * unit - size * left <= (5 * b + size) * unit - size * right,
                0 <= left <= unit,
                0 <= right,
                unit == 1_000_000_000_000,
                0 <= size,
        ;
    }
}

proof fn lemma_image_multiset(a: Seq<Preferred>, b: Seq<Preferred>)
    requires
        a.to_multiset() == b.to_multiset(),
    ensures
        a.map_values(unkeyed()).to_multiset() == b.map_values(unkeyed()).to_multiset(),
    decreases a.len(),
{
    broadcast use vstd::seq_lib::group_to_multiset_ensures;

    if a.len() == 0 {
        assert(b.to_multiset().len() == b.len());
        assert(a.to_multiset().len() == a.len());
        assert(a =~= b);
    } else {
        let item = a[0];
        assert(a.to_multiset().count(item) > 0);
        assert(b.contains(item));
        let k = choose|k: int| 0 <= k < b.len() && b[k] == item;
        lemma_image_multiset(a.remove(0), b.remove(k));
        assert(a.map_values(unkeyed()).remove(0) =~= a.remove(0).map_values(unkeyed()));
        assert(b.map_values(unkeyed()).remove(k) =~= b.remove(k).map_values(unkeyed()));
        assert(a.map_values(unkeyed())[0] == b.map_values(unkeyed())[k]);
        assert(a.map_values(unkeyed()).to_multiset() =~= a.map_values(unkeyed()).remove(
            0,
        ).to_multiset().insert(a.map_values(unkeyed())[0]));
        assert(b.map_values(unkeyed()).to_multiset() =~= b.map_values(unkeyed()).remove(
            k,
        ).to_multiset().insert(b.map_values(unkeyed())[k]));
    }
}

// Capacity.

/// How often a name fits among `target` tracks at most.
pub open spec fn capacity(target: usize, window: usize) -> int {
    if window == 0 {
        usize::MAX as int
    } else if target as int % (window + 1) == 0 {
        target as int / (window + 1)
    } else {
        target as int / (window + 1) + 1
    }
}

fn capacity_of(target: usize, window: usize) -> (fits: usize)
    requires
        window < usize::MAX,
    ensures
        fits == capacity(target, window),
{
    if window == 0 {
        return usize::MAX;
    }
    let span: usize = window + 1;
    let whole: usize = target / span;
    assert(whole * 2 <= target) by (nonlinear_arith)
        requires
            whole == target as int / (span as int),
            span >= 2,
    ;
    if target % span == 0 {
        whole
    } else {
        whole + 1
    }
}

/// How many of the first `count` members have an artist.
pub open spec fn artist_count(
    tracks: Seq<RouteTrack>,
    members: Seq<usize>,
    artist: Seq<char>,
    count: int,
) -> int
    decreases count,
{
    if count <= 0 {
        0
    } else {
        artist_count(tracks, members, artist, count - 1) + if tracks[members[count
            - 1] as int].artist_key@ == artist {
            1int
        } else {
            0
        }
    }
}

/// How many of the first `count` members have an album.
pub open spec fn album_count(
    tracks: Seq<RouteTrack>,
    members: Seq<usize>,
    album: Seq<char>,
    count: int,
) -> int
    decreases count,
{
    if count <= 0 {
        0
    } else {
        album_count(tracks, members, album, count - 1) + if tracks[members[count
            - 1] as int].album_key@ == album {
            1int
        } else {
            0
        }
    }
}

/// How many members have the artist and the album of a track.
pub open spec fn counts_of(tracks: Seq<RouteTrack>, members: Seq<usize>, track: usize) -> (int, int) {
    (
        artist_count(tracks, members, tracks[track as int].artist_key@, members.len() as int),
        album_count(tracks, members, tracks[track as int].album_key@, members.len() as int),
    )
}

fn count_members(tracks: &[RouteTrack], members: &[usize], track: usize) -> (counts: (usize, usize))
    requires
        in_range(members@, tracks@.len() as int),
        track < tracks@.len(),
    ensures
        (counts.0 as int, counts.1 as int) == counts_of(tracks@, members@, track),
{
    let mut artists: usize = 0;
    let mut albums: usize = 0;
    let mut at: usize = 0;
    while at < members.len()
        invariant
            at <= members@.len(),
            in_range(members@, tracks@.len() as int),
            track < tracks@.len(),
            artists <= at,
            albums <= at,
            artists == artist_count(
                tracks@,
                members@,
                tracks@[track as int].artist_key@,
                at as int,
            ),
            albums == album_count(tracks@, members@, tracks@[track as int].album_key@, at as int),
        decreases members@.len() - at,
    {
        assert(members@[at as int] < tracks@.len());
        let member: usize = members[at];
        if tracks[member].artist_key == tracks[track].artist_key {
            artists += 1;
        }
        if tracks[member].album_key == tracks[track].album_key {
            albums += 1;
        }
        at += 1;
    }
    (artists, albums)
}

/// Whether the members from `at` on have a name more often than it fits.
pub open spec fn crowded_from(
    tracks: Seq<RouteTrack>,
    members: Seq<usize>,
    artist_capacity: int,
    album_capacity: int,
    at: int,
) -> bool {
    exists|i: int|
        at <= i < members.len() && {
            let counts = #[trigger] counts_of(tracks, members, members[i]);
            counts.0 > artist_capacity || counts.1 > album_capacity
        }
}

fn is_crowded(
    tracks: &[RouteTrack],
    members: &[usize],
    artist_capacity: usize,
    album_capacity: usize,
) -> (crowded: bool)
    requires
        in_range(members@, tracks@.len() as int),
    ensures
        crowded == crowded_from(
            tracks@,
            members@,
            artist_capacity as int,
            album_capacity as int,
            0,
        ),
{
    let mut at: usize = 0;
    while at < members.len()
        invariant
            at <= members@.len(),
            in_range(members@, tracks@.len() as int),
            crowded_from(tracks@, members@, artist_capacity as int, album_capacity as int, 0)
                == crowded_from(
                tracks@,
                members@,
                artist_capacity as int,
                album_capacity as int,
                at as int,
            ),
        decreases members@.len() - at,
    {
        assert(members@[at as int] < tracks@.len());
        let counts = count_members(tracks, members, members[at]);
        if counts.0 > artist_capacity || counts.1 > album_capacity {
            return true;
        }
        at += 1;
    }
    false
}

// Membership.

/// The candidates of additions.
pub open spec fn candidates_of(additions: Seq<Addition>) -> Seq<usize> {
    Seq::new(additions.len(), |i: int| additions[i].candidate)
}

/// Whether a candidate fits among the members.
pub open spec fn has_room(
    tracks: Seq<RouteTrack>,
    members: Seq<usize>,
    candidate: usize,
    artist_capacity: int,
    album_capacity: int,
) -> bool {
    let counts = counts_of(tracks, members, candidate);
    counts.0 < artist_capacity && counts.1 < album_capacity
}

/// What the candidates from `at` on add to what is picked, in their order and
/// as far as they fit, until `requested` are picked.
pub open spec fn picked_from(
    tracks: Seq<RouteTrack>,
    sources: Seq<usize>,
    ranked: Seq<(u64, usize)>,
    capacities: (int, int),
    requested: int,
    at: int,
    picked: Seq<Addition>,
) -> Seq<Addition>
    decreases ranked.len() - at,
{
    if at >= ranked.len() || picked.len() == requested {
        picked
    } else {
        let candidate = ranked[at].1;
        let next = if has_room(
            tracks,
            sources + candidates_of(picked),
            candidate,
            capacities.0,
            capacities.1,
        ) {
            picked.push(Addition { candidate, distance: ranked[at].0 })
        } else {
            picked
        };
        picked_from(tracks, sources, ranked, capacities, requested, at + 1, next)
    }
}

fn pick(
    tracks: &[RouteTrack],
    sources: &[usize],
    ranked: &[(u64, usize)],
    artist_capacity: usize,
    album_capacity: usize,
    requested: usize,
) -> (picked: Vec<Addition>)
    requires
        in_range(sources@, tracks@.len() as int),
        forall|i: int| 0 <= i < ranked@.len() ==> (#[trigger] ranked@[i]).1 < tracks@.len(),
    ensures
        picked@ == picked_from(
            tracks@,
            sources@,
            ranked@,
            (artist_capacity as int, album_capacity as int),
            requested as int,
            0,
            seq![],
        ),
{
    let ghost capacities = (artist_capacity as int, album_capacity as int);
    let mut members = copied(sources);
    let mut picked: Vec<Addition> = Vec::new();
    let mut at: usize = 0;
    assert(picked@ =~= seq![]);
    assert(members@ =~= sources@ + candidates_of(picked@));
    while at < ranked.len() && picked.len() != requested
        invariant
            at <= ranked@.len(),
            in_range(members@, tracks@.len() as int),
            forall|i: int| 0 <= i < ranked@.len() ==> (#[trigger] ranked@[i]).1 < tracks@.len(),
            capacities == (artist_capacity as int, album_capacity as int),
            members@ == sources@ + candidates_of(picked@),
            picked_from(tracks@, sources@, ranked@, capacities, requested as int, 0, seq![])
                == picked_from(
                tracks@,
                sources@,
                ranked@,
                capacities,
                requested as int,
                at as int,
                picked@,
            ),
        decreases ranked@.len() - at,
    {
        let (distance, candidate) = ranked[at];
        assert(ranked@[at as int].1 < tracks@.len());
        let counts = count_members(tracks, members.as_slice(), candidate);
        if counts.0 < artist_capacity && counts.1 < album_capacity {
            let ghost before = picked@;
            members.push(candidate);
            picked.push(Addition { candidate, distance });
            assert(candidates_of(picked@) =~= candidates_of(before).push(candidate));
            assert(members@ =~= sources@ + candidates_of(picked@));
        }
        at += 1;
    }
    picked
}

// Growing.

/// The tracks that numbers stand for.
pub open spec fn tracks_at(tracks: Seq<RouteTrack>, members: Seq<usize>) -> Seq<RouteTrack> {
    Seq::new(members.len(), |i: int| tracks[members[i] as int])
}

/// What positions stand for.
pub open spec fn members_at(members: Seq<usize>, route: Seq<usize>) -> Seq<usize> {
    Seq::new(route.len(), |i: int| members[route[i] as int])
}

/// The refusal of a target that is no larger than the sources.
pub open spec fn target_invalid(target: usize, count: int) -> FailureView {
    failed(
        "SEED_GROWTH_TARGET_INVALID"@,
        "seed-growth target "@ + decimal(target as int) + " must exceed the "@ + decimal(count)
            + " source tracks"@,
    )
}

/// The refusal of a target that the candidates cannot reach.
pub open spec fn too_few_candidates(requested: int, count: int) -> FailureView {
    failed(
        "SEED_GROWTH_INFEASIBLE"@,
        "seed growth needs "@ + decimal(requested) + " additions but only "@ + decimal(count)
            + " local analyzed candidates are eligible"@,
    )
}

/// The refusal of a target that the repeat windows cannot reach.
pub open spec fn too_few_fit(found: int, requested: int) -> FailureView {
    failed(
        "SEED_GROWTH_INFEASIBLE"@,
        "repeat-safe membership selection found "@ + decimal(found) + " of "@ + decimal(requested)
            + " required additions"@,
    )
}

/// What growing is asked for.
#[verifier::ext_equal]
pub struct GrowthModel {
    pub scoring: Scoring,
    pub tracks: Seq<RouteTrack>,
    pub config: SearchConfig,
    pub target: usize,
    pub sources: Seq<usize>,
    pub eligible: Seq<usize>,
    pub preference: PreferenceView,
}

impl GrowthModel {
    /// How many tracks are to be added.
    pub open spec fn requested(self) -> int {
        self.target - self.sources.len()
    }

    /// How often an artist and an album fit.
    pub open spec fn capacities(self) -> (int, int) {
        (
            capacity(self.target, self.config.artist_window),
            capacity(self.target, self.config.album_window),
        )
    }

    /// The candidates by their distance from the sources alone.
    pub open spec fn ranked(self) -> Seq<(u64, usize)> {
        by_relevance(
            self.scoring,
            self.sources,
            self.config.learned_percent,
            self.eligible,
        )
    }

    /// How many of the nearest candidates may change places.
    pub open spec fn pool_size(self) -> int {
        pool_size(
            self.ranked().len() as int,
            self.requested(),
            self.preference.variation_percent,
        )
    }

    /// The tracks that are added: by their distance from the sources, the
    /// nearest in the preferred order, as far as they fit.
    pub open spec fn additions(self) -> Seq<Addition> {
        picked_from(
            self.tracks,
            self.sources,
            preferred(self.ranked(), self.sources, self.preference, self.pool_size()),
            self.capacities(),
            self.requested(),
            0,
            seq![],
        )
    }

    /// The grown playlist, or why there is none. `selected` is the order that
    /// the sources come in.
    pub open spec fn grown(self, selected: Seq<usize>) -> Result<GrowthView, FailureView> {
        let capacities = self.capacities();
        let additions = self.additions();
        let membership = selected + candidates_of(additions);
        if self.target <= self.sources.len() {
            Err(target_invalid(self.target, self.sources.len() as int))
        } else if self.requested() > self.eligible.len() {
            Err(too_few_candidates(self.requested(), self.eligible.len() as int))
        } else {
            match context_prepared(self.scoring, self.sources, self.config.learned_percent) {
                Err(error) => Err(failed("SEED_GROWTH_SCORING_FAILED"@, error.text())),
                Ok(_) => if crowded_from(
                    self.tracks,
                    self.sources,
                    capacities.0,
                    capacities.1,
                    0,
                ) {
                    Err(
                        failed(
                            "SEED_GROWTH_INFEASIBLE"@,
                            "the source membership exceeds the requested target's repeat-window capacity"@,
                        ),
                    )
                } else if additions.len() != self.requested() {
                    Err(too_few_fit(additions.len() as int, self.requested()))
                } else {
                    match optimized(
                        scoring_at(self.scoring, membership),
                        tracks_at(self.tracks, membership),
                        self.config,
                    ) {
                        Err(error) => Err(failed("SEED_GROWTH_ROUTE_FAILED"@, error.text())),
                        Ok(result) => Ok(
                            GrowthView {
                                route: members_at(membership, result.selected.route),
                                additions,
                                strategy: result.selected.strategy,
                                objective: result.selected.metrics.objective,
                            },
                        ),
                    }
                },
            }
        }
    }
}

fn two_numbers(before: &str, first: usize, between: &str, second: usize, after: &str) -> (text:
    String)
    ensures
        text@ == before@ + decimal(first as int) + between@ + decimal(second as int) + after@,
{
    let mut text = text_with_number(before, first as u64, between);
    append_decimal(&mut text, second as u64);
    text.append(after);
    text
}

fn rank_by_relevance<
    P: Fn(&[usize], u16) -> Result<(), ContextualError>,
    D: Fn(&[usize], u16, &[usize], usize) -> u64,
>(
    sources: &[usize],
    candidates: &[usize],
    scorer: &AdaptiveScorer<P, D>,
    learned_percent: u16,
) -> (ranked: Result<Vec<(u64, usize)>, ContextualError>)
    requires
        scorer.valid(),
    ensures
        match context_prepared(scorer.scoring(), sources@, learned_percent) {
            Err(error) => ranked == Err::<Vec<(u64, usize)>, ContextualError>(error),
            Ok(_) => ranked is Ok && ranked->Ok_0@ == by_relevance(
                scorer.scoring(),
                sources@,
                learned_percent,
                candidates@,
            ),
        },
{
    let context = match prepare_adaptive_context(sources, scorer, learned_percent) {
        Err(error) => {
            return Err(error);
        },
        Ok(context) => context,
    };
    let ghost all = relevances(scorer.scoring(), sources@, learned_percent, candidates@);
    let mut measured: Vec<(u64, usize)> = Vec::new();
    let mut at: usize = 0;
    while at < candidates.len()
        invariant
            at <= candidates@.len(),
            scorer.valid(),
            context@.seeds == sources@,
            context@.learned_percent == learned_percent,
            all == relevances(scorer.scoring(), sources@, learned_percent, candidates@),
            measured@ =~= all.take(at as int),
        decreases candidates@.len() - at,
    {
        let distance: u64 = context.distance_to(candidates[at], scorer);
        measured.push((distance, candidates[at]));
        at += 1;
    }
    assert(measured@ =~= all);
    let leq = |a: &(u64, usize), b: &(u64, usize)| -> (first: bool)
        ensures
            first == nearest_first()(*a, *b),
        { a.0 < b.0 || (a.0 == b.0 && a.1 <= b.1) };
    Ok(sort_by(measured, &leq, Ghost(nearest_first())))
}

fn clone_tracks(tracks: &[RouteTrack], members: &[usize]) -> (copies: Vec<RouteTrack>)
    requires
        in_range(members@, tracks@.len() as int),
    ensures
        copies@ == tracks_at(tracks@, members@),
{
    let mut copies: Vec<RouteTrack> = Vec::new();
    let mut at: usize = 0;
    while at < members.len()
        invariant
            at <= members@.len(),
            in_range(members@, tracks@.len() as int),
            copies@ =~= tracks_at(tracks@, members@).take(at as int),
        decreases members@.len() - at,
    {
        assert(members@[at as int] < tracks@.len());
        copies.push(tracks[members[at]].clone());
        at += 1;
    }
    assert(copies@ =~= tracks_at(tracks@, members@));
    copies
}

/// Looks up what positions stand for.
pub fn look_up(members: &[usize], route: &[usize]) -> (found: Vec<usize>)
    requires
        in_range(route@, members@.len() as int),
    ensures
        found@ == members_at(members@, route@),
{
    let mut found: Vec<usize> = Vec::new();
    let mut at: usize = 0;
    while at < route.len()
        invariant
            at <= route@.len(),
            in_range(route@, members@.len() as int),
            found@ =~= members_at(members@, route@).take(at as int),
        decreases route@.len() - at,
    {
        assert(route@[at as int] < members@.len());
        found.push(members[route[at]]);
        at += 1;
    }
    assert(found@ =~= members_at(members@, route@));
    found
}

proof fn lemma_ranked_candidates(
    scoring: Scoring,
    seeds: Seq<usize>,
    learned_percent: u16,
    candidates: Seq<usize>,
)
    ensures
        ({
            let ranked = by_relevance(scoring, seeds, learned_percent, candidates);
            &&& ranked.len() == candidates.len()
            &&& forall|i: int| 0 <= i < ranked.len() ==> candidates.contains((#[trigger] ranked[i]).1)
        }),
{
    let all = relevances(scoring, seeds, learned_percent, candidates);
    let ranked = stable_sort(all, nearest_first());
    stable_sort_keeps_items(all, nearest_first());
    stable_sort_same_members(all, nearest_first());
    assert forall|i: int| 0 <= i < ranked.len() implies candidates.contains(
        (#[trigger] ranked[i]).1,
    ) by {
        assert(ranked.contains(ranked[i]));
        assert(all.contains(ranked[i]));
        let j = choose|j: int| 0 <= j < all.len() && all[j] == ranked[i];
        assert(candidates[j] == ranked[i].1);
    }
}

fn count_pool(count: usize, requested: usize, percent: u8) -> (size: usize)
    requires
        requested <= count,
    ensures
        size == pool_size(count as int, requested as int, percent),
        size <= count,
{
    if requested == 0 {
        return 0;
    }
    let share: u128 = if percent == 0 {
        100
    } else {
        percent as u128
    };
    let wide: u128 = requested as u128 + 32;
    assert(0 <= wide * share <= (u64::MAX + 32) * 255) by (nonlinear_arith)
        requires
            0 <= wide <= u64::MAX + 32,
            0 <= share <= 255,
    ;
    let wanted: u128 = requested as u128 + wide * share / 100;
    if wanted < count as u128 {
        wanted as usize
    } else {
        count
    }
}

/// Grows a fixed set of sources to a target size: ranks the candidates by their
/// distance from all sources at once, reorders the nearest as they are preferred,
/// adds the first that fit, and orders all tracks anew.
pub fn select_seed_growth<
    P: Fn(&[usize], u16) -> Result<(), ContextualError> + Copy,
    D: Fn(&[usize], u16, &[usize], usize) -> u64 + Copy,
>(
    target_track_count: usize,
    source_library_indices: &[usize],
    selected_library_route: &[usize],
    eligible_candidates: &[usize],
    tracks: &[RouteTrack],
    scorer: &AdaptiveScorer<P, D>,
    route_config: &SearchConfig,
    preference: &Preference<'_>,
) -> (grown: Result<Growth, CommandFailure>)
    requires
        scorer.valid(),
        scorer.places@.len() == 0,
        in_range(source_library_indices@, tracks@.len() as int),
        in_range(selected_library_route@, tracks@.len() as int),
        in_range(eligible_candidates@, tracks@.len() as int),
        route_config.restart_count * 2 + 5 <= usize::MAX,
        route_config.artist_window < usize::MAX,
        route_config.album_window < usize::MAX,
    ensures
        match (GrowthModel {
            scoring: scorer.scoring(),
            tracks: tracks@,
            config: *route_config,
            target: target_track_count,
            sources: source_library_indices@,
            eligible: eligible_candidates@,
            preference: preference@,
        }).grown(selected_library_route@) {
            Ok(growth) => grown is Ok && grown->Ok_0@ == growth,
            Err(failure) => grown is Err && grown->Err_0@ == failure,
        },
        grown matches Ok(growth) ==> {
            let membership = selected_library_route@ + candidates_of(growth.additions@);
            &&& growth.additions@.len() == target_track_count - source_library_indices@.len()
            &&& growth.route@.len() == membership.len()
            &&& exists|order: Seq<usize>| #[trigger]
                visits_all(order, membership.len() as int) && growth.route@ == members_at(
                    membership,
                    order,
                )
            &&& membership.no_duplicates() ==> growth.route@.no_duplicates()
            &&& repeat_safe(growth.route@, tracks@, *route_config)
        },
{
    let ghost model = GrowthModel {
        scoring: scorer.scoring(),
        tracks: tracks@,
        config: *route_config,
        target: target_track_count,
        sources: source_library_indices@,
        eligible: eligible_candidates@,
        preference: preference@,
    };
    if target_track_count <= source_library_indices.len() {
        return Err(
            CommandFailure::new(
                "SEED_GROWTH_TARGET_INVALID",
                two_numbers(
                    "seed-growth target ",
                    target_track_count,
                    " must exceed the ",
                    source_library_indices.len(),
                    " source tracks",
                ),
            ),
        );
    }
    let requested: usize = target_track_count - source_library_indices.len();
    if requested > eligible_candidates.len() {
        return Err(
            CommandFailure::new(
                "SEED_GROWTH_INFEASIBLE",
                two_numbers(
                    "seed growth needs ",
                    requested,
                    " additions but only ",
                    eligible_candidates.len(),
                    " local analyzed candidates are eligible",
                ),
            ),
        );
    }
    let ranked = match rank_by_relevance(
        source_library_indices,
        eligible_candidates,
        scorer,
        route_config.learned_percent,
    ) {
        Err(error) => {
            return Err(CommandFailure::new("SEED_GROWTH_SCORING_FAILED", error.message()));
        },
        Ok(ranked) => ranked,
    };
    let artist_capacity: usize = capacity_of(target_track_count, route_config.artist_window);
    let album_capacity: usize = capacity_of(target_track_count, route_config.album_window);
    if is_crowded(tracks, source_library_indices, artist_capacity, album_capacity) {
        return Err(
            CommandFailure::plain(
                "SEED_GROWTH_INFEASIBLE",
                "the source membership exceeds the requested target's repeat-window capacity",
            ),
        );
    }
    proof {
        lemma_ranked_candidates(
            scorer.scoring(),
            source_library_indices@,
            route_config.learned_percent,
            eligible_candidates@,
        );
    }
    let size: usize = count_pool(ranked.len(), requested, preference.variation_percent);
    let order = prefer(&ranked, source_library_indices, preference, size);
    proof {
        broadcast use vstd::seq_lib::group_to_multiset_ensures;

        preferring_keeps_the_candidates(
            ranked@,
            source_library_indices@,
            preference@,
            size as int,
        );
        assert forall|i: int| 0 <= i < order@.len() implies (#[trigger] order@[i]).1
            < tracks@.len() by {
            let candidate = order@[i].1;
            assert(order@.to_multiset().count(order@[i]) > 0);
            assert(ranked@.contains(order@[i]));
            let k = choose|k: int| 0 <= k < ranked@.len() && ranked@[k] == order@[i];
            assert(eligible_candidates@.contains(ranked@[k].1));
            let j = choose|j: int|
                0 <= j < eligible_candidates@.len() && eligible_candidates@[j] == candidate;
            assert(eligible_candidates@[j] < tracks@.len());
        }
    }
    let additions = pick(
        tracks,
        source_library_indices,
        order.as_slice(),
        artist_capacity,
        album_capacity,
        requested,
    );
    assert(additions@ == model.additions());
    if additions.len() != requested {
        return Err(
            CommandFailure::new(
                "SEED_GROWTH_INFEASIBLE",
                two_numbers(
                    "repeat-safe membership selection found ",
                    additions.len(),
                    " of ",
                    requested,
                    " required additions",
                ),
            ),
        );
    }
    proof {
        lemma_picked(
            tracks@,
            source_library_indices@,
            order@,
            model.capacities(),
            requested as int,
            0,
            seq![],
        );
    }
    let membership = with_additions(selected_library_route, additions.as_slice());
    proof {
        assert forall|i: int| 0 <= i < membership@.len() implies (#[trigger] membership@[i])
            < tracks@.len() by {
            let known = selected_library_route@.len();
            if i < known {
                assert(membership@[i] == selected_library_route@[i]);
            } else {
                assert(membership@[i] == additions@[i - known].candidate);
            }
        }
    }
    let route_tracks = clone_tracks(tracks, membership.as_slice());
    let ghost all = membership@;
    let local = scorer_at(scorer, copied(membership.as_slice()));
    let result = match optimize_adaptive_route(route_tracks.as_slice(), &local, route_config) {
        Err(error) => {
            return Err(CommandFailure::new("SEED_GROWTH_ROUTE_FAILED", error.message()));
        },
        Ok(result) => result,
    };
    let route = look_up(membership.as_slice(), result.selected.route.as_slice());
    proof {
        lemma_members_repeat_safe(tracks@, all, result.selected.route@, *route_config);
        assert(all.no_duplicates() ==> route@.no_duplicates()) by {
            let order = result.selected.route@;
            assert forall|i: int, j: int|
                all.no_duplicates() && 0 <= i < route@.len() && 0 <= j < route@.len() && i
                    != j implies route@[i] != route@[j] by {
                assert(order[i] < all.len() && order[j] < all.len());
                assert(order[i] != order[j]);
            }
        }
    }
    Ok(
        Growth {
            route,
            additions,
            strategy: result.selected.strategy,
            objective: result.selected.metrics.objective,
        },
    )
}

fn with_additions(selected: &[usize], additions: &[Addition]) -> (membership: Vec<usize>)
    ensures
        membership@ == selected@ + candidates_of(additions@),
{
    let mut membership = copied(selected);
    let mut at: usize = 0;
    while at < additions.len()
        invariant
            at <= additions@.len(),
            membership@ =~= selected@ + candidates_of(additions@).take(at as int),
        decreases additions@.len() - at,
    {
        membership.push(additions[at].candidate);
        at += 1;
    }
    assert(candidates_of(additions@).take(at as int) =~= candidates_of(additions@));
    membership
}

proof fn lemma_picked(
    tracks: Seq<RouteTrack>,
    sources: Seq<usize>,
    ranked: Seq<(u64, usize)>,
    capacities: (int, int),
    requested: int,
    at: int,
    picked: Seq<Addition>,
)
    requires
        0 <= at <= ranked.len(),
        forall|i: int| 0 <= i < ranked.len() ==> (#[trigger] ranked[i]).1 < tracks.len(),
        forall|i: int| 0 <= i < picked.len() ==> (#[trigger] picked[i]).candidate < tracks.len(),
    ensures
        forall|i: int|
            0 <= i < picked_from(
                tracks,
                sources,
                ranked,
                capacities,
                requested,
                at,
                picked,
            ).len() ==> (#[trigger] picked_from(
                tracks,
                sources,
                ranked,
                capacities,
                requested,
                at,
                picked,
            )[i]).candidate < tracks.len(),
    decreases ranked.len() - at,
{
    if at < ranked.len() && picked.len() != requested {
        let candidate = ranked[at].1;
        let next = if has_room(
            tracks,
            sources + candidates_of(picked),
            candidate,
            capacities.0,
            capacities.1,
        ) {
            picked.push(Addition { candidate, distance: ranked[at].0 })
        } else {
            picked
        };
        lemma_picked(tracks, sources, ranked, capacities, requested, at + 1, next);
        assert(picked_from(tracks, sources, ranked, capacities, requested, at, picked)
            == picked_from(tracks, sources, ranked, capacities, requested, at + 1, next));
    }
}

/// A safe order of some tracks is safe by their numbers among all.
proof fn lemma_members_repeat_safe(
    tracks: Seq<RouteTrack>,
    members: Seq<usize>,
    order: Seq<usize>,
    config: SearchConfig,
)
    requires
        in_range(order, members.len() as int),
        repeat_safe(order, tracks_at(tracks, members), config),
    ensures
        repeat_safe(members_at(members, order), tracks, config),
{
    let local = tracks_at(tracks, members);
    let route = members_at(members, order);
    assert forall|left: int, right: int|
        0 <= left < right < route.len() implies #[trigger] pair_safe(
        route,
        tracks,
        config,
        left,
        right,
    ) by {
        assert(pair_safe(order, local, config, left, right));
        assert(order[left] < members.len() && order[right] < members.len());
        assert(local[order[left] as int] == tracks[route[left] as int]);
        assert(local[order[right] as int] == tracks[route[right] as int]);
    }
}

// Laws.

/// Whether additions stand at increasing places below `count` among the ranked
/// candidates.
pub open spec fn drawn_at(
    additions: Seq<Addition>,
    ranked: Seq<(u64, usize)>,
    places: Seq<int>,
    count: int,
) -> bool {
    &&& places.len() == additions.len()
    &&& forall|i: int|
        0 <= i < places.len() ==> 0 <= (#[trigger] places[i]) < count && ranked[places[i]] == (
            additions[i].distance,
            additions[i].candidate,
        )
    &&& forall|i: int, j: int| 0 <= i < j < places.len() ==> places[i] < places[j]
}

proof fn lemma_drawn(
    tracks: Seq<RouteTrack>,
    sources: Seq<usize>,
    ranked: Seq<(u64, usize)>,
    capacities: (int, int),
    requested: int,
    at: int,
    picked: Seq<Addition>,
    places: Seq<int>,
) -> (all: Seq<int>)
    requires
        0 <= at <= ranked.len(),
        drawn_at(picked, ranked, places, at),
    ensures
        drawn_at(
            picked_from(tracks, sources, ranked, capacities, requested, at, picked),
            ranked,
            all,
            ranked.len() as int,
        ),
    decreases ranked.len() - at,
{
    if at >= ranked.len() || picked.len() == requested {
        places
    } else {
        let candidate = ranked[at].1;
        if has_room(
            tracks,
            sources + candidates_of(picked),
            candidate,
            capacities.0,
            capacities.1,
        ) {
            let next = picked.push(Addition { candidate, distance: ranked[at].0 });
            lemma_drawn(
                tracks,
                sources,
                ranked,
                capacities,
                requested,
                at + 1,
                next,
                places.push(at),
            )
        } else {
            lemma_drawn(
                tracks,
                sources,
                ranked,
                capacities,
                requested,
                at + 1,
                picked,
                places,
            )
        }
    }
}

proof fn lemma_ranked_distinct(model: GrowthModel)
    requires
        model.eligible.no_duplicates(),
    ensures
        by_relevance(
            model.scoring,
            model.sources,
            model.config.learned_percent,
            model.eligible,
        ).no_duplicates(),
{
    let all = relevances(
        model.scoring,
        model.sources,
        model.config.learned_percent,
        model.eligible,
    );
    let ranked = stable_sort(all, nearest_first());
    assert(all.no_duplicates()) by {
        assert forall|i: int, j: int|
            0 <= i < all.len() && 0 <= j < all.len() && i != j implies all[i] != all[j] by {
            assert(model.eligible[i] != model.eligible[j]);
        }
    }
    stable_sort_keeps_items(all, nearest_first());
    all.lemma_multiset_has_no_duplicates();
    ranked.lemma_multiset_has_no_duplicates_conv();
}

/// The pool is a part of the ranking.
pub proof fn lemma_pool_fits(model: GrowthModel)
    ensures
        0 <= model.pool_size() <= model.ranked().len(),
        model.ranked().len() == model.eligible.len(),
{
    let requested = model.requested();
    let share: int = if model.preference.variation_percent == 0 {
        100
    } else {
        model.preference.variation_percent as int
    };
    assert(requested > 0 ==> 0 <= (requested + 32) * share / 100) by (nonlinear_arith)
        requires
            0 <= share,
    ;
    stable_sort_keeps_items(
        relevances(model.scoring, model.sources, model.config.learned_percent, model.eligible),
        nearest_first(),
    );
}

/// Growing does not drift: every addition is an eligible candidate and is
/// measured against the sources alone; of distinct candidates none is added
/// twice. Without variation and without evidence it comes no later than a
/// farther one.
pub proof fn additions_are_relevant_to_the_sources(model: GrowthModel)
    requires
        model.eligible.len() <= usize::MAX,
    ensures
        ({
            let additions = model.additions();
            &&& forall|i: int|
                0 <= i < additions.len() ==> model.eligible.contains(
                    (#[trigger] additions[i]).candidate,
                ) && additions[i].distance == (model.scoring.distance)(
                    model.sources,
                    model.config.learned_percent,
                    model.sources,
                    additions[i].candidate,
                )
            &&& model.preference.variation_percent == 0 && nothing_supported(
                model.preference.supports,
            ) ==> forall|i: int, j: int|
                0 <= i < j < additions.len() ==> (#[trigger] additions[i]).distance <= (
                #[trigger] additions[j]).distance
            &&& model.eligible.no_duplicates() ==> candidates_of(additions).no_duplicates()
        }),
{
    let all = relevances(
        model.scoring,
        model.sources,
        model.config.learned_percent,
        model.eligible,
    );
    broadcast use vstd::seq_lib::group_to_multiset_ensures;

    let ranked = model.ranked();
    let size = model.pool_size();
    let order = preferred(ranked, model.sources, model.preference, size);
    lemma_pool_fits(model);
    preferring_keeps_the_candidates(ranked, model.sources, model.preference, size);
    let additions = model.additions();
    let places = lemma_drawn(
        model.tracks,
        model.sources,
        order,
        model.capacities(),
        model.requested(),
        0,
        seq![],
        seq![],
    );
    stable_sort_same_members(all, nearest_first());
    stable_sort_is_sorted(all, nearest_first());
    assert forall|i: int| 0 <= i < additions.len() implies model.eligible.contains(
        (#[trigger] additions[i]).candidate,
    ) && additions[i].distance == (model.scoring.distance)(
        model.sources,
        model.config.learned_percent,
        model.sources,
        additions[i].candidate,
    ) by {
        let pair = order[places[i]];
        assert(order.to_multiset().count(pair) > 0);
        assert(ranked.contains(pair));
        assert(all.contains(pair));
        let j = choose|j: int| 0 <= j < all.len() && all[j] == pair;
        assert(model.eligible[j] == pair.1);
    }
    if model.preference.variation_percent == 0 && nothing_supported(model.preference.supports) {
        unguided_rankings_stay(ranked, model.sources, model.preference, size);
        assert forall|i: int, j: int| 0 <= i < j < additions.len() implies (
        #[trigger] additions[i]).distance <= (#[trigger] additions[j]).distance by {
            assert(places[i] < places[j]);
            assert(nearest_first()(ranked[places[i]], ranked[places[j]]));
        }
    }
    if model.eligible.no_duplicates() {
        lemma_ranked_distinct(model);
        ranked.lemma_multiset_has_no_duplicates();
        order.lemma_multiset_has_no_duplicates_conv();
        let candidates = candidates_of(additions);
        assert forall|i: int, j: int|
            0 <= i < candidates.len() && 0 <= j < candidates.len() && i != j implies candidates[i]
            != candidates[j] by {
            assert(additions[i].candidate == candidates[i]);
            assert(additions[j].candidate == candidates[j]);
            assert(places[i] != places[j]);
            assert(order[places[i]] != order[places[j]]);
        }
    }
}

} // verus!
