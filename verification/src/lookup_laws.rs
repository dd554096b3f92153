//! What searching through a lookup has in common with trying every candidate.

use crate::lookup::{
    added_all, collection_note, collection_tallies, in_candidate_order, indexed_upto,
    lemma_place_splits, lemma_tallied_in_order, lemma_tallies_in_order, local_note, local_tallies,
    matched_gap_evidence, matches_from, tallied, tallied_all, tally_place, tally_semantics,
    tier_of, LookupView, TallyView,
};
use crate::semantic::{
    artist_key, collection_gathered, collection_support, entity_artist_keys, entity_is,
    entity_recording_keys, gap_evidence, identifier_keys, last_finding, local_gathered,
    local_support, names_one_of, nothing_gathered, resolved_all, supported, supported_upto,
    title_artist_key, track_artist_keys, track_recording_keys, CandidateIdentity,
    CandidateSemanticsView, Entity, EntityKind, EvidenceEdge, GatheredView, SemanticTier,
    TrackIdentity,
};
use crate::sequences::views;
use crate::sorting::{dedup_from, lemma_dedup_members, stable_sort, stable_sort_same_members};
use crate::text::{ascii_lowered, normalized, same_text, sorted_keys, texts_in_order};
use vstd::prelude::*;

verus! {

// Keys.

/// Whether an entity and a track share a key of the entity's kind.
pub open spec fn shares_key(entity: Entity, track: TrackIdentity) -> bool {
    match entity.kind {
        EntityKind::Recording => exists|key: Seq<char>|
            entity_recording_keys(entity).contains(key) && #[trigger] track_recording_keys(
                track,
            ).contains(key),
        EntityKind::Artist => exists|key: Seq<char>|
            entity_artist_keys(entity).contains(key) && #[trigger] track_artist_keys(
                track,
            ).contains(key),
    }
}

spec fn holds_under(map: Map<Seq<char>, Seq<usize>>, key: Seq<char>, candidate: usize) -> bool {
    map.contains_key(key) && map[key].contains(candidate)
}

proof fn lemma_added_all_holds(
    map: Map<Seq<char>, Seq<usize>>,
    keys: Seq<Seq<char>>,
    candidate: usize,
    count: int,
    key: Seq<char>,
    asked: usize,
)
    requires
        0 <= count <= keys.len(),
    ensures
        holds_under(added_all(map, keys, candidate, count), key, asked) == (holds_under(
            map,
            key,
            asked,
        ) || (asked == candidate && keys.take(count).contains(key))),
    decreases count,
{
    if count > 0 {
        lemma_added_all_holds(map, keys, candidate, count - 1, key, asked);
        let before = added_all(map, keys, candidate, count - 1);
        let last = keys[count - 1];
        assert(keys.take(count) =~= keys.take(count - 1).push(last));
        assert(keys.take(count).contains(key) == (keys.take(count - 1).contains(key) || key
            == last)) by {
            let part = keys.take(count - 1);
            if part.contains(key) {
                let i = choose|i: int| 0 <= i < part.len() && part[i] == key;
                assert(keys.take(count)[i] == key);
            }
            assert(keys.take(count)[count - 1] == last);
        }
        if key == last {
            let list = if before.contains_key(key) {
                before[key].push(candidate)
            } else {
                seq![candidate]
            };
            assert(list[list.len() - 1] == candidate);
            if before.contains_key(key) {
                if before[key].contains(asked) {
                    let i = choose|i: int| 0 <= i < before[key].len() && before[key][i] == asked;
                    assert(list[i] == asked);
                }
                if list.contains(asked) && asked != candidate {
                    let i = choose|i: int| 0 <= i < list.len() && list[i] == asked;
                    assert(before[key][i] == asked);
                }
            }
        }
    } else {
        assert(keys.take(0).len() == 0);
    }
}

/// Whether one of the first `count` candidates has a number and a recording
/// key.
spec fn recorded_under(
    candidates: Seq<CandidateIdentity>,
    key: Seq<char>,
    asked: usize,
    count: int,
) -> bool {
    exists|c: int|
        0 <= c < count && (#[trigger] candidates[c]).candidate == asked && track_recording_keys(
            candidates[c].track,
        ).contains(key)
}

/// Whether one of the first `count` candidates has a number and an artist key.
spec fn performed_under(
    candidates: Seq<CandidateIdentity>,
    key: Seq<char>,
    asked: usize,
    count: int,
) -> bool {
    exists|c: int|
        0 <= c < count && (#[trigger] candidates[c]).candidate == asked && track_artist_keys(
            candidates[c].track,
        ).contains(key)
}

proof fn lemma_indexed_holds(
    candidates: Seq<CandidateIdentity>,
    key: Seq<char>,
    asked: usize,
    count: int,
)
    requires
        0 <= count <= candidates.len(),
    ensures
        holds_under(indexed_upto(candidates, count).recording, key, asked) == recorded_under(
            candidates,
            key,
            asked,
            count,
        ),
        holds_under(indexed_upto(candidates, count).artist, key, asked) == performed_under(
            candidates,
            key,
            asked,
            count,
        ),
    decreases count,
{
    if count > 0 {
        lemma_indexed_holds(candidates, key, asked, count - 1);
        let before = indexed_upto(candidates, count - 1);
        let item = candidates[count - 1];
        let recordings = track_recording_keys(item.track);
        let artists = track_artist_keys(item.track);
        lemma_added_all_holds(
            before.recording,
            recordings,
            item.candidate,
            recordings.len() as int,
            key,
            asked,
        );
        lemma_added_all_holds(
            before.artist,
            artists,
            item.candidate,
            artists.len() as int,
            key,
            asked,
        );
        assert(recordings.take(recordings.len() as int) =~= recordings);
        assert(artists.take(artists.len() as int) =~= artists);
        if recorded_under(candidates, key, asked, count - 1) {
            let c = choose|c: int|
                0 <= c < count - 1 && (#[trigger] candidates[c]).candidate == asked
                    && track_recording_keys(candidates[c].track).contains(key);
            assert(candidates[c].candidate == asked);
        }
        if performed_under(candidates, key, asked, count - 1) {
            let c = choose|c: int|
                0 <= c < count - 1 && (#[trigger] candidates[c]).candidate == asked
                    && track_artist_keys(candidates[c].track).contains(key);
            assert(candidates[c].candidate == asked);
        }
    }
}

/// Whether a candidate stands in the rest of a list or under a later key.
spec fn still_to_come(
    map: Map<Seq<char>, Seq<usize>>,
    keys: Seq<Seq<char>>,
    key: int,
    at: int,
    asked: usize,
) -> bool {
    ||| key < keys.len() && map.contains_key(keys[key]) && exists|i: int|
        at <= i < map[keys[key]].len() && #[trigger] map[keys[key]][i] == asked
    ||| exists|k: int| key < k < keys.len() && holds_under(map, #[trigger] keys[k], asked)
}

proof fn lemma_matches(
    map: Map<Seq<char>, Seq<usize>>,
    keys: Seq<Seq<char>>,
    key: int,
    at: int,
    found: Seq<usize>,
    asked: usize,
)
    requires
        0 <= key,
        0 <= at,
        found.no_duplicates(),
    ensures
        matches_from(map, keys, key, at, found).no_duplicates(),
        matches_from(map, keys, key, at, found).contains(asked) == (found.contains(asked)
            || still_to_come(map, keys, key, at, asked)),
    decreases keys.len() - key, map[keys[key]].len() - at,
{
    if key >= keys.len() {
    } else if !map.contains_key(keys[key]) || at >= map[keys[key]].len() {
        lemma_matches(map, keys, key + 1, 0, found, asked);
        if still_to_come(map, keys, key, at, asked) {
            let k = choose|k: int|
                key < k < keys.len() && holds_under(map, #[trigger] keys[k], asked);
            if k == key + 1 {
                let i = choose|i: int|
                    0 <= i < map[keys[k]].len() && map[keys[k]][i] == asked;
                assert(map[keys[key + 1]][i] == asked);
            } else {
                assert(holds_under(map, keys[k], asked));
            }
        }
        if still_to_come(map, keys, key + 1, 0, asked) {
            if exists|i: int|
                0 <= i < map[keys[key + 1]].len() && #[trigger] map[keys[key + 1]][i] == asked
            {
                if key + 1 < keys.len() && map.contains_key(keys[key + 1]) {
                    assert(holds_under(map, keys[key + 1], asked));
                }
            }
        }
    } else {
        let candidate = map[keys[key]][at];
        let next = if found.contains(candidate) {
            found
        } else {
            found.push(candidate)
        };
        assert(next.contains(asked) == (found.contains(asked) || asked == candidate)) by {
            if !found.contains(candidate) {
                assert(next[next.len() - 1] == candidate);
                if found.contains(asked) {
                    let i = choose|i: int| 0 <= i < found.len() && found[i] == asked;
                    assert(next[i] == asked);
                }
            }
        }
        lemma_matches(map, keys, key, at + 1, next, asked);
    }
}

/// A lookup over all keys of the candidates finds exactly those that share a key
/// with an entity, each once.
pub proof fn candidates_are_found_by_a_shared_key(
    candidates: Seq<CandidateIdentity>,
    entity: Entity,
    asked: usize,
)
    ensures
        ({
            let lookup = indexed_upto(candidates, candidates.len() as int);
            &&& lookup.candidates_for(entity).contains(asked) == exists|c: int|
                0 <= c < candidates.len() && (#[trigger] candidates[c]).candidate == asked
                    && shares_key(entity, candidates[c].track)
            &&& lookup.candidates_for(entity).no_duplicates()
        }),
{
    let count = candidates.len() as int;
    let lookup = indexed_upto(candidates, count);
    let none = Seq::<usize>::empty();
    let (map, keys) = match entity.kind {
        EntityKind::Recording => (lookup.recording, entity_recording_keys(entity)),
        EntityKind::Artist => (lookup.artist, entity_artist_keys(entity)),
    };
    lemma_matches(map, keys, 0, 0, none, asked);
    let found = lookup.candidates_for(entity);
    assert(found == matches_from(map, keys, 0, 0, none));
    let sharing = exists|c: int|
        0 <= c < candidates.len() && (#[trigger] candidates[c]).candidate == asked && shares_key(
            entity,
            candidates[c].track,
        );
    if found.contains(asked) {
        let k = if exists|i: int| 0 <= i < map[keys[0]].len() && #[trigger] map[keys[0]][i] == asked
            && keys.len() > 0 && map.contains_key(keys[0]) {
            0
        } else {
            choose|k: int| 0 < k < keys.len() && holds_under(map, #[trigger] keys[k], asked)
        };
        assert(holds_under(map, keys[k], asked));
        assert(keys.contains(keys[k]));
        lemma_indexed_holds(candidates, keys[k], asked, count);
        match entity.kind {
            EntityKind::Recording => {
                let c = choose|c: int|
                    0 <= c < count && (#[trigger] candidates[c]).candidate == asked
                        && track_recording_keys(candidates[c].track).contains(keys[k]);
                assert(shares_key(entity, candidates[c].track));
            },
            EntityKind::Artist => {
                let c = choose|c: int|
                    0 <= c < count && (#[trigger] candidates[c]).candidate == asked
                        && track_artist_keys(candidates[c].track).contains(keys[k]);
                assert(shares_key(entity, candidates[c].track));
            },
        }
    }
    if sharing {
        let c = choose|c: int|
            0 <= c < candidates.len() && (#[trigger] candidates[c]).candidate == asked
                && shares_key(entity, candidates[c].track);
        let key = match entity.kind {
            EntityKind::Recording => choose|key: Seq<char>|
                entity_recording_keys(entity).contains(key) && #[trigger] track_recording_keys(
                    candidates[c].track,
                ).contains(key),
            EntityKind::Artist => choose|key: Seq<char>|
                entity_artist_keys(entity).contains(key) && #[trigger] track_artist_keys(
                    candidates[c].track,
                ).contains(key),
        };
        assert(keys.contains(key));
        lemma_indexed_holds(candidates, key, asked, count);
        assert(holds_under(map, key, asked)) by {
            assert(candidates[c].candidate == asked);
        }
        let k = choose|k: int| 0 <= k < keys.len() && keys[k] == key;
        if k == 0 {
            let i = choose|i: int| 0 <= i < map[key].len() && map[key][i] == asked;
            assert(map[keys[0]][i] == asked);
        } else {
            assert(holds_under(map, keys[k], asked));
        }
        assert(still_to_come(map, keys, 0, 0, asked));
    }
}

// Tallies.

spec fn gathered_in(tallies: Seq<TallyView>, candidate: usize) -> Option<GatheredView> {
    let at = tally_place(tallies, candidate, 0);
    if at < tallies.len() && tallies[at].candidate == candidate {
        Some(tallies[at].gathered)
    } else {
        None
    }
}

spec fn or_nothing(gathered: Option<GatheredView>) -> GatheredView {
    match gathered {
        Some(gathered) => gathered,
        None => nothing_gathered(),
    }
}

proof fn lemma_gathered_at(tallies: Seq<TallyView>, i: int)
    requires
        in_candidate_order(tallies),
        0 <= i < tallies.len(),
    ensures
        gathered_in(tallies, tallies[i].candidate) == Some(tallies[i].gathered),
{
    let candidate = tallies[i].candidate;
    lemma_place_splits(tallies, candidate, 0);
    let at = tally_place(tallies, candidate, 0);
    if at > i {
        assert(tallies[i].candidate < candidate);
    }
    if at < i {
        assert(tallies[at].candidate < tallies[i].candidate);
    }
}

proof fn lemma_tallied(
    tallies: Seq<TallyView>,
    candidate: usize,
    change: spec_fn(GatheredView) -> GatheredView,
    asked: usize,
)
    requires
        in_candidate_order(tallies),
    ensures
        in_candidate_order(tallied(tallies, candidate, change)),
        gathered_in(tallied(tallies, candidate, change), asked) == if asked == candidate {
            Some(change(or_nothing(gathered_in(tallies, candidate))))
        } else {
            gathered_in(tallies, asked)
        },
{
    let after = tallied(tallies, candidate, change);
    let one = seq![candidate];
    lemma_tallied_in_order(tallies, one, change, 1);
    reveal_with_fuel(tallied_all, 2);
    assert(tallied_all(tallies, one, change, 1) == after);
    lemma_place_splits(tallies, candidate, 0);
    let at = tally_place(tallies, candidate, 0);
    let known = at < tallies.len() && tallies[at].candidate == candidate;
    assert(after[at].candidate == candidate);
    lemma_gathered_at(after, at);
    if asked != candidate {
        lemma_place_splits(tallies, asked, 0);
        lemma_place_splits(after, asked, 0);
        let there = tally_place(tallies, asked, 0);
        if there < tallies.len() && tallies[there].candidate == asked {
            let moved = if known || there < at {
                there
            } else {
                there + 1
            };
            assert(after[moved] == tallies[there]);
            lemma_gathered_at(after, moved);
        } else {
            let place = tally_place(after, asked, 0);
            if place < after.len() && after[place].candidate == asked {
                let from = if known || place < at {
                    place
                } else {
                    place - 1
                };
                assert(after[place] == tallies[from]);
                lemma_gathered_at(tallies, from);
            }
        }
    }
}

proof fn lemma_tallied_all(
    tallies: Seq<TallyView>,
    candidates: Seq<usize>,
    change: spec_fn(GatheredView) -> GatheredView,
    count: int,
    asked: usize,
)
    requires
        in_candidate_order(tallies),
        candidates.no_duplicates(),
        0 <= count <= candidates.len(),
    ensures
        gathered_in(tallied_all(tallies, candidates, change, count), asked) == if candidates.take(
            count,
        ).contains(asked) {
            Some(change(or_nothing(gathered_in(tallies, asked))))
        } else {
            gathered_in(tallies, asked)
        },
    decreases count,
{
    let part = candidates.take(count);
    if count > 0 {
        let last = candidates[count - 1];
        let earlier = candidates.take(count - 1);
        lemma_tallied_all(tallies, candidates, change, count - 1, asked);
        lemma_tallied_in_order(tallies, candidates, change, count - 1);
        lemma_tallied(tallied_all(tallies, candidates, change, count - 1), last, change, asked);
        assert(part[count - 1] == last);
        if earlier.contains(asked) {
            let i = choose|i: int| 0 <= i < earlier.len() && earlier[i] == asked;
            assert(part[i] == asked);
            assert(candidates[i] == asked && candidates[count - 1] == last);
        } else if part.contains(asked) {
            let i = choose|i: int| 0 <= i < part.len() && part[i] == asked;
            if i < count - 1 {
                assert(earlier[i] == asked);
            }
        }
    } else {
        assert(part.len() == 0);
    }
}

// Agreement.

/// Whether candidates come in the order of their numbers.
pub open spec fn numbered_in_order(candidates: Seq<CandidateIdentity>) -> bool {
    forall|i: int, j: int|
        #![trigger candidates[i], candidates[j]]
        0 <= i < j < candidates.len() ==> candidates[i].candidate < candidates[j].candidate
}

/// Whether a lookup finds under every edge exactly the candidates that the edge
/// leads to.
pub open spec fn finds_what_edges_lead_to(
    lookup: LookupView,
    edges: Seq<EvidenceEdge>,
    candidates: Seq<CandidateIdentity>,
) -> bool {
    forall|e: int, asked: usize|
        0 <= e < edges.len() ==> (#[trigger] lookup.candidates_for(edges[e].candidate).contains(
            asked,
        ) == exists|c: int|
            0 <= c < candidates.len() && (#[trigger] candidates[c]).candidate == asked && entity_is(
                edges[e].candidate,
                candidates[c].track,
            ))
}

proof fn lemma_found_at(
    lookup: LookupView,
    edges: Seq<EvidenceEdge>,
    candidates: Seq<CandidateIdentity>,
    e: int,
    c: int,
)
    requires
        numbered_in_order(candidates),
        finds_what_edges_lead_to(lookup, edges, candidates),
        0 <= e < edges.len(),
        0 <= c < candidates.len(),
    ensures
        lookup.candidates_for(edges[e].candidate).contains(candidates[c].candidate) == entity_is(
            edges[e].candidate,
            candidates[c].track,
        ),
        lookup.candidates_for(edges[e].candidate).no_duplicates(),
{
    let asked = candidates[c].candidate;
    let found = lookup.candidates_for(edges[e].candidate);
    if found.contains(asked) {
        let other = choose|other: int|
            0 <= other < candidates.len() && (#[trigger] candidates[other]).candidate == asked
                && entity_is(edges[e].candidate, candidates[other].track);
        if other < c {
            assert(candidates[other].candidate < candidates[c].candidate);
        } else if c < other {
            assert(candidates[c].candidate < candidates[other].candidate);
        }
    }
    let entity = edges[e].candidate;
    match entity.kind {
        EntityKind::Recording => {
            lemma_matches(
                lookup.recording,
                entity_recording_keys(entity),
                0,
                0,
                seq![],
                asked,
            );
        },
        EntityKind::Artist => {
            lemma_matches(lookup.artist, entity_artist_keys(entity), 0, 0, seq![], asked);
        },
    }
}

proof fn lemma_local_tallies(
    edges: Seq<EvidenceEdge>,
    left: TrackIdentity,
    right: TrackIdentity,
    lookup: LookupView,
    candidates: Seq<CandidateIdentity>,
    c: int,
    count: int,
)
    requires
        numbered_in_order(candidates),
        finds_what_edges_lead_to(lookup, edges, candidates),
        0 <= c < candidates.len(),
        0 <= count <= edges.len(),
    ensures
        ({
            let gathered = local_gathered(edges, left, right, candidates[c].track, count);
            &&& gathered.local_tier() is None ==> gathered == nothing_gathered()
            &&& gathered_in(
                local_tallies(edges, left, right, lookup, count),
                candidates[c].candidate,
            ) == if gathered.local_tier() is Some {
                Some(gathered)
            } else {
                None
            }
        }),
    decreases count,
{
    if count > 0 {
        lemma_local_tallies(edges, left, right, lookup, candidates, c, count - 1);
        lemma_tallies_in_order(edges, left, right, seq![], lookup, count - 1);
        lemma_found_at(lookup, edges, candidates, count - 1, c);
        let edge = edges[count - 1];
        let found = lookup.candidates_for(edge.candidate);
        let before = local_tallies(edges, left, right, lookup, count - 1);
        lemma_tallied_all(
            before,
            found,
            local_note(edge, left, right),
            found.len() as int,
            candidates[c].candidate,
        );
        assert(found.take(found.len() as int) =~= found);
    }
}

proof fn lemma_local_known(
    edges: Seq<EvidenceEdge>,
    left: TrackIdentity,
    right: TrackIdentity,
    lookup: LookupView,
    candidates: Seq<CandidateIdentity>,
    asked: usize,
    count: int,
)
    requires
        numbered_in_order(candidates),
        finds_what_edges_lead_to(lookup, edges, candidates),
        0 <= count <= edges.len(),
        gathered_in(local_tallies(edges, left, right, lookup, count), asked) is Some,
    ensures
        exists|c: int| 0 <= c < candidates.len() && (#[trigger] candidates[c]).candidate == asked,
    decreases count,
{
    if count > 0 {
        let edge = edges[count - 1];
        let found = lookup.candidates_for(edge.candidate);
        let before = local_tallies(edges, left, right, lookup, count - 1);
        if gathered_in(before, asked) is Some {
            lemma_local_known(edges, left, right, lookup, candidates, asked, count - 1);
        } else {
            lemma_tallies_in_order(edges, left, right, seq![], lookup, count - 1);
            lemma_no_duplicates(lookup, edge.candidate);
            lemma_tallied_all(
                before,
                found,
                local_note(edge, left, right),
                found.len() as int,
                asked,
            );
            assert(found.take(found.len() as int) =~= found);
            assert(lookup.candidates_for(edges[count - 1].candidate).contains(asked));
        }
    }
}

proof fn lemma_no_duplicates(lookup: LookupView, entity: Entity)
    ensures
        lookup.candidates_for(entity).no_duplicates(),
{
    lemma_matches(lookup.recording, entity_recording_keys(entity), 0, 0, seq![], 0);
    lemma_matches(lookup.artist, entity_artist_keys(entity), 0, 0, seq![], 0);
}

proof fn lemma_collection_tallies(
    edges: Seq<EvidenceEdge>,
    sources: Seq<TrackIdentity>,
    lookup: LookupView,
    candidates: Seq<CandidateIdentity>,
    c: int,
    count: int,
)
    requires
        numbered_in_order(candidates),
        finds_what_edges_lead_to(lookup, edges, candidates),
        0 <= c < candidates.len(),
        0 <= count <= edges.len(),
    ensures
        ({
            let gathered = collection_gathered(edges, sources, candidates[c].track, count);
            &&& gathered.local_tier() is None
            &&& gathered.evidence.len() == 0 ==> gathered == nothing_gathered()
            &&& gathered_in(
                collection_tallies(edges, sources, lookup, count),
                candidates[c].candidate,
            ) == if gathered.evidence.len() > 0 {
                Some(gathered)
            } else {
                None
            }
            &&& !gathered.recording_left && !gathered.recording_right && !gathered.artist_local
        }),
    decreases count,
{
    if count > 0 {
        lemma_collection_tallies(edges, sources, lookup, candidates, c, count - 1);
        lemma_tallies_in_order(
            edges,
            candidates[c].track,
            candidates[c].track,
            sources,
            lookup,
            count - 1,
        );
        lemma_found_at(lookup, edges, candidates, count - 1, c);
        let edge = edges[count - 1];
        let found = lookup.candidates_for(edge.candidate);
        let before = collection_tallies(edges, sources, lookup, count - 1);
        lemma_tallied_all(
            before,
            found,
            collection_note(edge),
            found.len() as int,
            candidates[c].candidate,
        );
        assert(found.take(found.len() as int) =~= found);
    } else {
        assert(nothing_gathered().evidence =~= seq![]);
    }
}

proof fn lemma_collection_known(
    edges: Seq<EvidenceEdge>,
    sources: Seq<TrackIdentity>,
    lookup: LookupView,
    candidates: Seq<CandidateIdentity>,
    asked: usize,
    count: int,
    any: TrackIdentity,
)
    requires
        numbered_in_order(candidates),
        finds_what_edges_lead_to(lookup, edges, candidates),
        0 <= count <= edges.len(),
        gathered_in(collection_tallies(edges, sources, lookup, count), asked) is Some,
    ensures
        exists|c: int| 0 <= c < candidates.len() && (#[trigger] candidates[c]).candidate == asked,
    decreases count,
{
    if count > 0 {
        let edge = edges[count - 1];
        let found = lookup.candidates_for(edge.candidate);
        let before = collection_tallies(edges, sources, lookup, count - 1);
        if gathered_in(before, asked) is Some {
            lemma_collection_known(edges, sources, lookup, candidates, asked, count - 1, any);
        } else {
            lemma_tallies_in_order(edges, any, any, sources, lookup, count - 1);
            lemma_no_duplicates(lookup, edge.candidate);
            lemma_tallied_all(before, found, collection_note(edge), found.len() as int, asked);
            assert(found.take(found.len() as int) =~= found);
            assert(lookup.candidates_for(edges[count - 1].candidate).contains(asked));
        }
    }
}

// Findings in order.

spec fn found_in_order(found: Seq<CandidateSemanticsView>) -> bool {
    forall|i: int, j: int|
        #![trigger found[i], found[j]]
        0 <= i < j < found.len() ==> found[i].candidate < found[j].candidate
}

proof fn lemma_same_members(a: Seq<CandidateSemanticsView>, b: Seq<CandidateSemanticsView>)
    requires
        found_in_order(a),
        found_in_order(b),
        forall|x: CandidateSemanticsView| #[trigger] a.contains(x) == b.contains(x),
    ensures
        a == b,
    decreases a.len(),
{
    if a.len() == 0 {
        if b.len() > 0 {
            assert(b.contains(b[0]));
            assert(a.contains(b[0]));
        }
        assert(a =~= b);
    } else {
        assert(a.contains(a.last()));
        assert(b.contains(a.last()));
        let j = choose|j: int| 0 <= j < b.len() && b[j] == a.last();
        assert(b.contains(b.last()));
        assert(a.contains(b.last()));
        let i = choose|i: int| 0 <= i < a.len() && a[i] == b.last();
        if j < b.len() - 1 {
            assert(b[j].candidate < b[b.len() - 1].candidate);
            if i < a.len() - 1 {
                assert(a[i].candidate < a[a.len() - 1].candidate);
            }
        }
        assert(a.last() == b.last());
        let fewer_a = a.drop_last();
        let fewer_b = b.drop_last();
        assert forall|x: CandidateSemanticsView| #[trigger] fewer_a.contains(x) == fewer_b.contains(
            x,
        ) by {
            if fewer_a.contains(x) {
                let k = choose|k: int| 0 <= k < fewer_a.len() && fewer_a[k] == x;
                assert(a[k] == x && a[k].candidate < a[a.len() - 1].candidate);
                assert(a.contains(x));
                let m = choose|m: int| 0 <= m < b.len() && b[m] == x;
                assert(fewer_b[m] == x);
            }
            if fewer_b.contains(x) {
                let k = choose|k: int| 0 <= k < fewer_b.len() && fewer_b[k] == x;
                assert(b[k] == x && b[k].candidate < b[b.len() - 1].candidate);
                assert(b.contains(x));
                assert(a.contains(x));
                let m = choose|m: int| 0 <= m < a.len() && a[m] == x;
                assert(fewer_a[m] == x);
            }
        }
        lemma_same_members(fewer_a, fewer_b);
        assert(a =~= fewer_a.push(a.last()));
        assert(b =~= fewer_b.push(b.last()));
    }
}

/// Whether support for a candidate bears its number and says something.
spec fn speaks_of_candidates(
    candidates: Seq<CandidateIdentity>,
    support: spec_fn(CandidateIdentity) -> Option<CandidateSemanticsView>,
) -> bool {
    forall|c: int|
        #![trigger candidates[c]]
        0 <= c < candidates.len() ==> (support(candidates[c]) matches Some(found)
            ==> found.candidate == candidates[c].candidate && found.tier != SemanticTier::BlissOnly)
}

proof fn lemma_supported(
    candidates: Seq<CandidateIdentity>,
    support: spec_fn(CandidateIdentity) -> Option<CandidateSemanticsView>,
    count: int,
)
    requires
        numbered_in_order(candidates),
        speaks_of_candidates(candidates, support),
        0 <= count <= candidates.len(),
    ensures
        found_in_order(supported_upto(candidates, support, count)),
        forall|x: CandidateSemanticsView| #[trigger]
            supported_upto(candidates, support, count).contains(x) == exists|c: int|
                0 <= c < count && support(#[trigger] candidates[c]) == Some(x),
    decreases count,
{
    if count > 0 {
        lemma_supported(candidates, support, count - 1);
        let before = supported_upto(candidates, support, count - 1);
        let after = supported_upto(candidates, support, count);
        let last = candidates[count - 1];
        assert forall|x: CandidateSemanticsView| #[trigger] after.contains(x) == exists|c: int|
            0 <= c < count && support(#[trigger] candidates[c]) == Some(x) by {
            if after.contains(x) {
                let i = choose|i: int| 0 <= i < after.len() && after[i] == x;
                if i < before.len() {
                    assert(before[i] == x);
                    assert(before.contains(x));
                    let c = choose|c: int|
                        0 <= c < count - 1 && support(#[trigger] candidates[c]) == Some(x);
                    assert(support(candidates[c]) == Some(x));
                } else {
                    assert(support(candidates[count - 1]) == Some(x));
                }
            }
            if exists|c: int| 0 <= c < count && support(#[trigger] candidates[c]) == Some(x) {
                let c = choose|c: int|
                    0 <= c < count && support(#[trigger] candidates[c]) == Some(x);
                if c < count - 1 {
                    assert(before.contains(x));
                    let i = choose|i: int| 0 <= i < before.len() && before[i] == x;
                    assert(after[i] == x);
                } else {
                    assert(after[after.len() - 1] == x);
                }
            }
        }
        assert forall|i: int, j: int|
            #![trigger after[i], after[j]]
            0 <= i < j < after.len() implies after[i].candidate < after[j].candidate by {
            assert(after[i] == before[i]);
            if j < before.len() {
                assert(after[j] == before[j]);
            } else {
                assert(before.contains(before[i]));
                let c = choose|c: int|
                    0 <= c < count - 1 && support(#[trigger] candidates[c]) == Some(before[i]);
                assert(candidates[c].candidate < candidates[count - 1].candidate);
            }
        }
    }
}

spec fn says_something() -> spec_fn(CandidateSemanticsView) -> bool {
    |found: CandidateSemanticsView| found.tier != SemanticTier::BlissOnly
}

proof fn lemma_filtered_in_order(found: Seq<CandidateSemanticsView>)
    requires
        found_in_order(found),
    ensures
        found_in_order(found.filter(says_something())),
        forall|x: CandidateSemanticsView| #[trigger]
            found.filter(says_something()).contains(x) == (found.contains(x) && x.tier
                != SemanticTier::BlissOnly),
    decreases found.len(),
{
    reveal(Seq::filter);
    let kept = found.filter(says_something());
    if found.len() > 0 {
        let fewer = found.drop_last();
        let last = found.last();
        lemma_filtered_in_order(fewer);
        let before = fewer.filter(says_something());
        assert forall|x: CandidateSemanticsView| #[trigger] kept.contains(x) == (found.contains(x)
            && x.tier != SemanticTier::BlissOnly) by {
            if found.contains(x) {
                let i = choose|i: int| 0 <= i < found.len() && found[i] == x;
                if i < fewer.len() {
                    assert(fewer[i] == x);
                    assert(fewer.contains(x));
                }
            }
            if fewer.contains(x) {
                let i = choose|i: int| 0 <= i < fewer.len() && fewer[i] == x;
                assert(found[i] == x);
            }
            if before.contains(x) {
                let i = choose|i: int| 0 <= i < before.len() && before[i] == x;
                assert(kept[i] == x);
            }
            if kept.contains(x) {
                let i = choose|i: int| 0 <= i < kept.len() && kept[i] == x;
                if i < before.len() {
                    assert(before[i] == x);
                    assert(before.contains(x));
                }
            }
            if last.tier != SemanticTier::BlissOnly {
                assert(kept[kept.len() - 1] == last);
            }
            assert(found[found.len() - 1] == last);
        }
        assert forall|i: int, j: int|
            #![trigger kept[i], kept[j]]
            0 <= i < j < kept.len() implies kept[i].candidate < kept[j].candidate by {
            assert(kept[i] == before[i]);
            if j < before.len() {
                assert(kept[j] == before[j]);
            } else {
                assert(before.contains(before[i]));
                assert(fewer.contains(before[i]));
                let k = choose|k: int| 0 <= k < fewer.len() && fewer[k] == before[i];
                assert(found[k].candidate < found[found.len() - 1].candidate);
            }
        }
    }
}

proof fn lemma_last_finding(found: Seq<CandidateSemanticsView>, candidate: usize, count: int)
    requires
        0 <= count <= found.len(),
    ensures
        match last_finding(found, candidate, count) {
            Some(finding) => exists|i: int|
                0 <= i < count && #[trigger] found[i] == finding && finding.candidate == candidate,
            None => forall|i: int|
                0 <= i < count ==> (#[trigger] found[i]).candidate != candidate,
        },
    decreases count,
{
    if count > 0 {
        lemma_last_finding(found, candidate, count - 1);
        if found[count - 1].candidate == candidate {
            assert(found[count - 1] == found[count - 1]);
        }
    }
}

proof fn lemma_resolved_keeps_findings(
    candidates: Seq<CandidateIdentity>,
    support: spec_fn(CandidateIdentity) -> Option<CandidateSemanticsView>,
)
    requires
        numbered_in_order(candidates),
        speaks_of_candidates(candidates, support),
    ensures
        resolved_all(supported(candidates, support), candidates).filter(says_something())
            == supported(candidates, support),
{
    let found = supported(candidates, support);
    let all = resolved_all(found, candidates);
    lemma_supported(candidates, support, candidates.len() as int);
    assert forall|i: int| 0 <= i < all.len() implies (#[trigger] all[i]).candidate
        == candidates[i].candidate by {
        lemma_last_finding(found, candidates[i].candidate, found.len() as int);
    }
    assert(found_in_order(all)) by {
        assert forall|i: int, j: int|
            #![trigger all[i], all[j]]
            0 <= i < j < all.len() implies all[i].candidate < all[j].candidate by {
            assert(candidates[i].candidate < candidates[j].candidate);
        }
    }
    lemma_filtered_in_order(all);
    let kept = all.filter(says_something());
    assert forall|x: CandidateSemanticsView| #[trigger] kept.contains(x) == found.contains(x) by {
        if kept.contains(x) {
            assert(all.contains(x));
            let i = choose|i: int| 0 <= i < all.len() && all[i] == x;
            lemma_last_finding(found, candidates[i].candidate, found.len() as int);
        }
        if found.contains(x) {
            let c = choose|c: int|
                0 <= c < candidates.len() && support(#[trigger] candidates[c]) == Some(x);
            let number = candidates[c].candidate;
            let k = choose|k: int| 0 <= k < found.len() && found[k] == x;
            lemma_last_finding(found, number, found.len() as int);
            assert(found[k].candidate == number);
            let finding = last_finding(found, number, found.len() as int)->Some_0;
            let m = choose|m: int|
                0 <= m < found.len() && #[trigger] found[m] == finding && finding.candidate
                    == number;
            if m < k {
                assert(found[m].candidate < found[k].candidate);
            } else if k < m {
                assert(found[k].candidate < found[m].candidate);
            }
            assert(all[c] == x);
        }
    }
    lemma_same_members(kept, found);
}

proof fn lemma_tallies_are_findings(
    tallies: Seq<TallyView>,
    candidates: Seq<CandidateIdentity>,
    support: spec_fn(CandidateIdentity) -> Option<CandidateSemanticsView>,
)
    requires
        numbered_in_order(candidates),
        speaks_of_candidates(candidates, support),
        in_candidate_order(tallies),
        forall|i: int|
            0 <= i < tallies.len() ==> exists|c: int|
                0 <= c < candidates.len() && (#[trigger] candidates[c]).candidate == (
                #[trigger] tallies[i]).candidate,
        forall|c: int|
            #![trigger candidates[c]]
            0 <= c < candidates.len() ==> support(candidates[c]) == (match gathered_in(
                tallies,
                candidates[c].candidate,
            ) {
                Some(gathered) => Some(
                    gathered.semantics(candidates[c].candidate, tier_of(gathered)),
                ),
                None => None,
            }),
    ensures
        tally_semantics(tallies) == supported(candidates, support),
{
    let found = supported(candidates, support);
    let told = tally_semantics(tallies);
    lemma_supported(candidates, support, candidates.len() as int);
    assert(found_in_order(told)) by {
        assert forall|i: int, j: int|
            #![trigger told[i], told[j]]
            0 <= i < j < told.len() implies told[i].candidate < told[j].candidate by {
            assert(tallies[i].candidate < tallies[j].candidate);
        }
    }
    assert forall|x: CandidateSemanticsView| #[trigger] told.contains(x) == found.contains(x) by {
        if told.contains(x) {
            let i = choose|i: int| 0 <= i < told.len() && told[i] == x;
            let number = tallies[i].candidate;
            let c = choose|c: int|
                0 <= c < candidates.len() && (#[trigger] candidates[c]).candidate == number;
            lemma_gathered_at(tallies, i);
            assert(support(candidates[c]) == Some(x));
        }
        if found.contains(x) {
            let c = choose|c: int|
                0 <= c < candidates.len() && support(#[trigger] candidates[c]) == Some(x);
            let at = tally_place(tallies, candidates[c].candidate, 0);
            lemma_place_splits(tallies, candidates[c].candidate, 0);
            assert(told[at] == x);
        }
    }
    lemma_same_members(told, found);
}

/// Searching through a lookup is trying every candidate and leaving out those of
/// which nothing is said, wherever the lookup finds under every edge what the
/// edge leads to.
pub proof fn matches_are_the_supported_candidates(
    edges: Seq<EvidenceEdge>,
    left: TrackIdentity,
    right: TrackIdentity,
    sources: Seq<TrackIdentity>,
    lookup: LookupView,
    candidates: Seq<CandidateIdentity>,
)
    requires
        numbered_in_order(candidates),
        finds_what_edges_lead_to(lookup, edges, candidates),
    ensures
        ({
            let matches = matched_gap_evidence(edges, left, right, sources, lookup);
            let all = gap_evidence(edges, left, right, sources, candidates);
            &&& matches.pool == all.pool
            &&& matches.candidates == all.candidates.filter(
                |found: CandidateSemanticsView| found.tier != SemanticTier::BlissOnly,
            )
        }),
{
    let count = edges.len() as int;
    let local = local_tallies(edges, left, right, lookup, count);
    let collection = collection_tallies(edges, sources, lookup, count);
    let local_says = |candidate: CandidateIdentity| local_support(edges, left, right, candidate);
    let collection_says = |candidate: CandidateIdentity|
        collection_support(edges, sources, candidate);
    lemma_tallies_in_order(edges, left, right, sources, lookup, count);
    assert forall|i: int| 0 <= i < local.len() implies exists|c: int|
        0 <= c < candidates.len() && (#[trigger] candidates[c]).candidate == (
        #[trigger] local[i]).candidate by {
        lemma_gathered_at(local, i);
        lemma_local_known(edges, left, right, lookup, candidates, local[i].candidate, count);
    }
    assert forall|i: int| 0 <= i < collection.len() implies exists|c: int|
        0 <= c < candidates.len() && (#[trigger] candidates[c]).candidate == (
        #[trigger] collection[i]).candidate by {
        lemma_gathered_at(collection, i);
        lemma_collection_known(
            edges,
            sources,
            lookup,
            candidates,
            collection[i].candidate,
            count,
            left,
        );
    }
    assert forall|c: int| #![trigger candidates[c]] 0 <= c < candidates.len() implies local_says(
        candidates[c],
    ) == (match gathered_in(local, candidates[c].candidate) {
        Some(gathered) => Some(gathered.semantics(candidates[c].candidate, tier_of(gathered))),
        None => None,
    }) by {
        lemma_local_tallies(edges, left, right, lookup, candidates, c, count);
    }
    assert forall|c: int|
        #![trigger candidates[c]]
        0 <= c < candidates.len() implies collection_says(candidates[c]) == (match gathered_in(
        collection,
        candidates[c].candidate,
    ) {
        Some(gathered) => Some(gathered.semantics(candidates[c].candidate, tier_of(gathered))),
        None => None,
    }) by {
        lemma_collection_tallies(edges, sources, lookup, candidates, c, count);
    }
    assert(speaks_of_candidates(candidates, local_says));
    assert(speaks_of_candidates(candidates, collection_says));
    lemma_tallies_are_findings(local, candidates, local_says);
    lemma_tallies_are_findings(collection, candidates, collection_says);
    lemma_resolved_keeps_findings(candidates, local_says);
    lemma_resolved_keeps_findings(candidates, collection_says);
    let nothing = |candidate: CandidateIdentity| None::<CandidateSemanticsView>;
    lemma_resolved_keeps_findings(candidates, nothing);
    lemma_supported(candidates, nothing, candidates.len() as int);
    assert(supported(candidates, nothing) =~= seq![]) by {
        let found = supported(candidates, nothing);
        if found.len() > 0 {
            assert(found.contains(found[0]));
        }
    }
    assert(says_something() =~= (|found: CandidateSemanticsView|
        found.tier != SemanticTier::BlissOnly));
    assert(local.len() == tally_semantics(local).len());
    assert(collection.len() == tally_semantics(collection).len());
}

/// Where sharing a key is being the same, a lookup over all keys of the
/// candidates serves every search.
pub proof fn shared_keys_serve_every_search(
    edges: Seq<EvidenceEdge>,
    candidates: Seq<CandidateIdentity>,
)
    requires
        forall|e: int, c: int|
            #![trigger edges[e], candidates[c]]
            0 <= e < edges.len() && 0 <= c < candidates.len() ==> shares_key(
                edges[e].candidate,
                candidates[c].track,
            ) == entity_is(edges[e].candidate, candidates[c].track),
    ensures
        finds_what_edges_lead_to(
            indexed_upto(candidates, candidates.len() as int),
            edges,
            candidates,
        ),
{
    let lookup = indexed_upto(candidates, candidates.len() as int);
    assert forall|e: int, asked: usize| 0 <= e < edges.len() implies (
    #[trigger] lookup.candidates_for(edges[e].candidate).contains(asked) == exists|c: int|
        0 <= c < candidates.len() && (#[trigger] candidates[c]).candidate == asked && entity_is(
            edges[e].candidate,
            candidates[c].track,
        )) by {
        candidates_are_found_by_a_shared_key(candidates, edges[e].candidate, asked);
        if lookup.candidates_for(edges[e].candidate).contains(asked) {
            let c = choose|c: int|
                0 <= c < candidates.len() && (#[trigger] candidates[c]).candidate == asked
                    && shares_key(edges[e].candidate, candidates[c].track);
            assert(entity_is(edges[e].candidate, candidates[c].track));
        }
        if exists|c: int|
            0 <= c < candidates.len() && (#[trigger] candidates[c]).candidate == asked && entity_is(
                edges[e].candidate,
                candidates[c].track,
            ) {
            let c = choose|c: int|
                0 <= c < candidates.len() && (#[trigger] candidates[c]).candidate == asked
                    && entity_is(edges[e].candidate, candidates[c].track);
            assert(shares_key(edges[e].candidate, candidates[c].track));
        }
    }
}

// Names and identifiers.

/// Every item is still there once repeats are dropped.
proof fn lemma_dedup_keeps(
    items: Seq<Seq<char>>,
    at: int,
    kept: Seq<Seq<char>>,
    asked: Seq<char>,
)
    requires
        0 <= at <= items.len(),
        kept.contains(asked) || exists|i: int| at <= i < items.len() && items[i] == asked,
    ensures
        dedup_from(items, same_text(), at, kept).contains(asked),
    decreases items.len() - at,
{
    if at < items.len() {
        let next = if kept.len() > 0 && same_text()(items[at], kept.last()) {
            kept
        } else {
            kept.push(items[at])
        };
        if kept.contains(asked) {
            let i = choose|i: int| 0 <= i < kept.len() && kept[i] == asked;
            assert(next[i] == asked);
        } else {
            let i = choose|i: int| at <= i < items.len() && items[i] == asked;
            if i == at {
                assert(next[next.len() - 1] == asked);
            } else {
                assert(at + 1 <= i < items.len() && items[i] == asked);
            }
        }
        lemma_dedup_keeps(items, at + 1, next, asked);
    }
}

/// Sorted keys are the keys.
proof fn lemma_sorted_keys(keys: Seq<Seq<char>>, asked: Seq<char>)
    ensures
        sorted_keys(keys).contains(asked) == keys.contains(asked),
{
    let sorted = stable_sort(keys, texts_in_order());
    stable_sort_same_members(keys, texts_in_order());
    lemma_dedup_members(sorted, same_text(), 0, seq![]);
    assert(sorted.contains(asked) == keys.contains(asked));
    let kept = sorted_keys(keys);
    if kept.contains(asked) {
        let i = choose|i: int| 0 <= i < kept.len() && kept[i] == asked;
        assert(sorted.contains(kept[i]));
    }
    if sorted.contains(asked) {
        lemma_dedup_keeps(sorted, 0, seq![], asked);
    }
}

/// Whether a name is in normal form and holds no NUL.
pub open spec fn plain_name(name: Seq<char>) -> bool {
    normalized(name) == name && !name.contains('\0')
}

/// Whether an identifier is in lower case.
pub open spec fn in_lower_case(id: Seq<char>) -> bool {
    ascii_lowered(id) == id
}

/// Whether a track's names are plain and its artists' identifiers in lower case.
pub open spec fn plainly_named(track: TrackIdentity) -> bool {
    &&& plain_name(track.title_name@)
    &&& plain_name(track.artist_name@)
    &&& forall|i: int|
        0 <= i < track.artist_ids@.len() ==> in_lower_case((#[trigger] track.artist_ids@[i])@)
}

/// Whether no key of one sort is one of another sort: an identifier is no
/// MusicBrainz identifier, and neither is the key of a name.
pub open spec fn told_apart(entity: Entity, track: TrackIdentity) -> bool {
    match entity.kind {
        EntityKind::Recording => {
            let named = title_artist_key(track.title_name@, track.artist_name@);
            &&& entity.id@ != named
            &&& entity.mbid matches Some(mbid) ==> ascii_lowered(mbid@) != named && ascii_lowered(
                mbid@,
            ) != track.recording_id@
            &&& track.recording_mbid matches Some(mbid) ==> ascii_lowered(mbid@) != entity.id@
            &&& entity.title matches Some(title) ==> (entity.name matches Some(artist) ==> {
                let asked = title_artist_key(title@, artist@);
                &&& asked != track.recording_id@
                &&& track.recording_mbid matches Some(mbid) ==> ascii_lowered(mbid@) != asked
            })
        },
        EntityKind::Artist => {
            let named = artist_key(track.artist_name@);
            &&& in_lower_case(entity.id@)
            &&& entity.id@ != named
            &&& entity.mbid matches Some(mbid) ==> ascii_lowered(mbid@) != named
            &&& entity.name matches Some(name) ==> forall|i: int|
                0 <= i < track.artist_ids@.len() ==> (#[trigger] track.artist_ids@[i])@
                    != artist_key(name@)
        },
    }
}

/// A title and an artist without NUL are read back from their key.
proof fn lemma_title_artist_key(
    title: Seq<char>,
    artist: Seq<char>,
    plain_title: Seq<char>,
    plain_artist: Seq<char>,
)
    requires
        plain_name(plain_title),
        plain_name(plain_artist),
        title_artist_key(title, artist) == title_artist_key(plain_title, plain_artist),
    ensures
        normalized(title) == plain_title,
        normalized(artist) == plain_artist,
{
    reveal_strlit("\0");
    let start = "title_artist:"@;
    let nul = "\0"@;
    let asked = start + normalized(title) + nul + normalized(artist);
    let known = start + plain_title + nul + plain_artist;
    assert(asked == known);
    let first = normalized(title).len() as int;
    let other = plain_title.len() as int;
    let base = start.len() as int;
    assert(asked[base + first] == '\0');
    assert(known[base + other] == '\0');
    if first < other {
        assert(known[base + first] == plain_title[first]);
        assert(plain_title.contains('\0'));
    }
    if first > other {
        assert(known[base + first] == plain_artist[first - other - 1]);
        assert(plain_artist.contains('\0'));
    }
    assert(first == other);
    assert forall|i: int| 0 <= i < first implies normalized(title)[i] == plain_title[i] by {
        assert(asked[base + i] == normalized(title)[i]);
        assert(known[base + i] == plain_title[i]);
    }
    assert(normalized(title) =~= plain_title);
    assert(normalized(artist).len() == plain_artist.len());
    assert forall|i: int| 0 <= i < plain_artist.len() implies normalized(artist)[i]
        == plain_artist[i] by {
        assert(asked[base + first + 1 + i] == normalized(artist)[i]);
        assert(known[base + first + 1 + i] == plain_artist[i]);
    }
    assert(normalized(artist) =~= plain_artist);
}

/// An artist's name is read back from its key.
proof fn lemma_artist_key(name: Seq<char>, plain: Seq<char>)
    requires
        normalized(plain) == plain,
    ensures
        (artist_key(name) == artist_key(plain)) == (normalized(name) == plain),
{
    let start = "artist_name:"@;
    let base = start.len() as int;
    if artist_key(name) == artist_key(plain) {
        let end = base + normalized(name).len();
        assert(artist_key(name).len() == end + ""@.len());
        assert(artist_key(plain).len() == base + plain.len() + ""@.len());
        assert(artist_key(name).subrange(base, end) =~= normalized(name));
        assert(artist_key(plain).subrange(base, end) =~= plain);
    }
}

/// A recording shares a key with the tracks that it is, and with no other.
proof fn lemma_recording_shares(entity: Entity, track: TrackIdentity)
    requires
        entity.kind == EntityKind::Recording,
        plainly_named(track),
        told_apart(entity, track),
    ensures
        shares_key(entity, track) == entity_is(entity, track),
{
    let named = title_artist_key(track.title_name@, track.artist_name@);
    let ids = identifier_keys(entity.id@, entity.mbid);
    let track_ids = identifier_keys(track.recording_id@, track.recording_mbid);
    let keys = match (entity.title, entity.name) {
        (Some(title), Some(artist)) => ids.push(title_artist_key(title@, artist@)),
        _ => ids,
    };
    let track_keys = track_ids.push(named);
    assert forall|key: Seq<char>| #[trigger] track_recording_keys(track).contains(key)
        == track_keys.contains(key) by {
        lemma_sorted_keys(track_keys, key);
    }
    assert forall|key: Seq<char>| #[trigger] entity_recording_keys(entity).contains(key)
        == keys.contains(key) by {
        lemma_sorted_keys(keys, key);
    }
    assert(track_keys[track_keys.len() - 1] == named);
    assert(track_keys[0] == track.recording_id@);
    assert(keys[0] == entity.id@);
    if shares_key(entity, track) {
        let key = choose|key: Seq<char>|
            entity_recording_keys(entity).contains(key) && #[trigger] track_recording_keys(
                track,
            ).contains(key);
        let i = choose|i: int| 0 <= i < keys.len() && keys[i] == key;
        let j = choose|j: int| 0 <= j < track_keys.len() && track_keys[j] == key;
        if let (Some(title), Some(artist)) = (entity.title, entity.name) {
            if i == keys.len() - 1 && j == track_keys.len() - 1 {
                lemma_title_artist_key(
                    title@,
                    artist@,
                    track.title_name@,
                    track.artist_name@,
                );
            }
        }
    }
    if entity.id@ == track.recording_id@ {
        assert(keys.contains(keys[0]));
        assert(entity_recording_keys(entity).contains(keys[0]));
        assert(track_keys.contains(track_keys[0]));
        assert(track_recording_keys(track).contains(keys[0]));
    }
    if let (Some(left), Some(right)) = (entity.mbid, track.recording_mbid) {
        if ascii_lowered(left@) == ascii_lowered(right@) {
            assert(keys[1] == ascii_lowered(left@));
            assert(track_keys[1] == ascii_lowered(right@));
            assert(entity_recording_keys(entity).contains(keys[1]));
            assert(track_keys.contains(track_keys[1]));
            assert(track_recording_keys(track).contains(keys[1]));
        }
    }
    if let (Some(title), Some(artist)) = (entity.title, entity.name) {
        if normalized(title@) == track.title_name@ && normalized(artist@) == track.artist_name@ {
            assert(keys[keys.len() - 1] == named);
            assert(entity_recording_keys(entity).contains(named));
            assert(track_keys.contains(named));
            assert(track_recording_keys(track).contains(named));
        }
    }
}

/// An artist shares a key with the tracks that are its own, and with no other.
proof fn lemma_artist_shares(entity: Entity, track: TrackIdentity)
    requires
        entity.kind == EntityKind::Artist,
        plainly_named(track),
        told_apart(entity, track),
    ensures
        shares_key(entity, track) == entity_is(entity, track),
{
    let named = artist_key(track.artist_name@);
    let ids = identifier_keys(entity.id@, entity.mbid);
    let keys = match entity.name {
        Some(name) => ids.push(artist_key(name@)),
        None => ids,
    };
    let known = track.artist_ids@;
    let track_keys = views(known).push(named);
    assert forall|key: Seq<char>| #[trigger] track_artist_keys(track).contains(key)
        == track_keys.contains(key) by {
        lemma_sorted_keys(track_keys, key);
    }
    assert forall|key: Seq<char>| #[trigger] entity_artist_keys(entity).contains(key)
        == keys.contains(key) by {
        lemma_sorted_keys(keys, key);
    }
    if let Some(name) = entity.name {
        lemma_artist_key(name@, track.artist_name@);
    }
    assert(track_keys[known.len() as int] == named);
    assert(keys[0] == entity.id@);
    if shares_key(entity, track) {
        let key = choose|key: Seq<char>|
            entity_artist_keys(entity).contains(key) && #[trigger] track_artist_keys(
                track,
            ).contains(key);
        let i = choose|i: int| 0 <= i < keys.len() && keys[i] == key;
        let j = choose|j: int| 0 <= j < track_keys.len() && track_keys[j] == key;
        if j < known.len() {
            assert(key == known[j]@);
            assert(in_lower_case(known[j]@));
            if i == 0 {
                assert(ascii_lowered(known[j]@) == ascii_lowered(entity.id@));
                assert(names_one_of(known, entity.id@, known.len() as int));
            } else if let Some(mbid) = entity.mbid {
                if i == 1 {
                    assert(ascii_lowered(known[j]@) == ascii_lowered(mbid@));
                    assert(names_one_of(known, mbid@, known.len() as int));
                }
            }
        }
    }
    if names_one_of(known, entity.id@, known.len() as int) {
        let j = choose|j: int|
            0 <= j < known.len() && ascii_lowered((#[trigger] known[j])@) == ascii_lowered(
                entity.id@,
            );
        assert(in_lower_case(known[j]@));
        assert(track_keys[j] == known[j]@);
        assert(entity_artist_keys(entity).contains(keys[0]));
        assert(track_artist_keys(track).contains(keys[0]));
    }
    if let Some(mbid) = entity.mbid {
        if names_one_of(known, mbid@, known.len() as int) {
            let j = choose|j: int|
                0 <= j < known.len() && ascii_lowered((#[trigger] known[j])@) == ascii_lowered(
                    mbid@,
                );
            assert(in_lower_case(known[j]@));
            assert(track_keys[j] == known[j]@);
            assert(keys[1] == ascii_lowered(mbid@));
            assert(entity_artist_keys(entity).contains(keys[1]));
            assert(track_artist_keys(track).contains(keys[1]));
        }
    }
    if let Some(name) = entity.name {
        if normalized(name@) == track.artist_name@ {
            assert(keys[keys.len() - 1] == named);
            assert(entity_artist_keys(entity).contains(named));
            assert(track_artist_keys(track).contains(named));
        }
    }
}

/// Searching by key is trying every candidate and leaving out those of which
/// nothing is said: for candidates numbered in order, with names in normal form
/// and artists' identifiers in lower case, whose keys of one sort are no keys of
/// another.
pub proof fn searching_by_key_is_trying_every_candidate(
    edges: Seq<EvidenceEdge>,
    left: TrackIdentity,
    right: TrackIdentity,
    sources: Seq<TrackIdentity>,
    candidates: Seq<CandidateIdentity>,
)
    requires
        numbered_in_order(candidates),
        forall|c: int| 0 <= c < candidates.len() ==> plainly_named((#[trigger] candidates[c]).track),
        forall|e: int, c: int|
            #![trigger edges[e], candidates[c]]
            0 <= e < edges.len() && 0 <= c < candidates.len() ==> told_apart(
                edges[e].candidate,
                candidates[c].track,
            ),
    ensures
        ({
            let lookup = indexed_upto(candidates, candidates.len() as int);
            let matches = matched_gap_evidence(edges, left, right, sources, lookup);
            let all = gap_evidence(edges, left, right, sources, candidates);
            &&& matches.pool == all.pool
            &&& matches.candidates == all.candidates.filter(
                |found: CandidateSemanticsView| found.tier != SemanticTier::BlissOnly,
            )
        }),
{
    assert forall|e: int, c: int|
        #![trigger edges[e], candidates[c]]
        0 <= e < edges.len() && 0 <= c < candidates.len() implies shares_key(
        edges[e].candidate,
        candidates[c].track,
    ) == entity_is(edges[e].candidate, candidates[c].track) by {
        assert(plainly_named(candidates[c].track));
        match edges[e].candidate.kind {
            EntityKind::Recording => lemma_recording_shares(
                edges[e].candidate,
                candidates[c].track,
            ),
            EntityKind::Artist => lemma_artist_shares(edges[e].candidate, candidates[c].track),
        }
    }
    shared_keys_serve_every_search(edges, candidates);
    matches_are_the_supported_candidates(
        edges,
        left,
        right,
        sources,
        indexed_upto(candidates, candidates.len() as int),
        candidates,
    );
}

} // verus!
