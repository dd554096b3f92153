//! Finding candidates by the keys that evidence names them with.

use crate::semantic::{
    artist_keys_for_entity, artist_keys_for_track, entity_artist_keys, entity_is, entity_matches,
    entity_recording_keys, collection_edge, is_collection_edge, matched, nothing_gathered,
    recording_keys_for_entity, recording_keys_for_track, track_artist_keys, track_recording_keys,
    CandidateIdentity, CandidateSemantics, CandidateSemanticsView, Entity, EntityKind,
    EvidenceBundle, EvidenceEdge, EvidenceScope, GapEvidence, GapEvidenceView, Gathered,
    GatheredView, SemanticPool, SemanticTier, SourceEndpoint, TrackIdentity,
};
use crate::sequences::{copied, holds, lemma_views_push, views};
use crate::text::{
    chars_of, char_is_space, char_is_upper, decimal, is_space, is_upper, normalize, normalized,
    number, parse_number, rest_behind, starts_with, text_around, text_with_number,
};
use vstd::hash_map::StringHashMap;
use vstd::prelude::*;
use vstd::string::*;

verus! {

/// A map from keys to candidates with one candidate more under a key.
pub open spec fn added(
    map: Map<Seq<char>, Seq<usize>>,
    key: Seq<char>,
    candidate: usize,
) -> Map<Seq<char>, Seq<usize>> {
    map.insert(
        key,
        if map.contains_key(key) {
            map[key].push(candidate)
        } else {
            seq![candidate]
        },
    )
}

/// A map with one candidate more under each of the first `count` keys.
pub open spec fn added_all(
    map: Map<Seq<char>, Seq<usize>>,
    keys: Seq<Seq<char>>,
    candidate: usize,
    count: int,
) -> Map<Seq<char>, Seq<usize>>
    decreases count,
{
    if count <= 0 {
        map
    } else {
        added(added_all(map, keys, candidate, count - 1), keys[count - 1], candidate)
    }
}

struct KeyIndex {
    slots: StringHashMap<usize>,
    lists: Vec<Vec<usize>>,
}

impl View for KeyIndex {
    type V = Map<Seq<char>, Seq<usize>>;

    closed spec fn view(&self) -> Map<Seq<char>, Seq<usize>> {
        Map::new(
            |key: Seq<char>| self.slots@.contains_key(key),
            |key: Seq<char>| self.lists@[self.slots@[key] as int]@,
        )
    }
}

impl KeyIndex {
    spec fn valid(&self) -> bool {
        &&& forall|key: Seq<char>| #[trigger]
            self.slots@.contains_key(key) ==> self.slots@[key] < self.lists@.len()
        &&& forall|a: Seq<char>, b: Seq<char>| #[trigger]
            self.slots@.contains_key(a) && #[trigger] self.slots@.contains_key(b) && a != b
                ==> self.slots@[a] != self.slots@[b]
    }

    fn new() -> (index: Self)
        ensures
            index.valid(),
            index@ == Map::<Seq<char>, Seq<usize>>::empty(),
    {
        let index = KeyIndex { slots: StringHashMap::new(), lists: Vec::new() };
        assert(index@ =~= Map::<Seq<char>, Seq<usize>>::empty());
        index
    }

    fn add(&mut self, key: String, candidate: usize)
        requires
            old(self).valid(),
        ensures
            final(self).valid(),
            final(self)@ == added(old(self)@, key@, candidate),
    {
        let ghost before = self@;
        let ghost slots = self.slots@;
        let ghost lists = self.lists@;
        let slot: Option<usize> = match self.slots.get(key.as_str()) {
            Some(slot) => Some(*slot),
            None => None,
        };
        match slot {
            Some(slot) => {
                self.lists[slot].push(candidate);
                proof {
                    assert(self@ =~= added(before, key@, candidate));
                }
            },
            None => {
                let mut list: Vec<usize> = Vec::new();
                list.push(candidate);
                assert(list@ =~= seq![candidate]);
                let next: usize = self.lists.len();
                self.lists.push(list);
                self.slots.insert(key, next);
                proof {
                    assert(self@ =~= added(before, key@, candidate));
                }
            },
        }
    }

    fn add_all(&mut self, keys: &Vec<String>, candidate: usize)
        requires
            old(self).valid(),
        ensures
            final(self).valid(),
            final(self)@ == added_all(old(self)@, views(keys@), candidate, keys@.len() as int),
    {
        let ghost before = self@;
        let mut at: usize = 0;
        while at < keys.len()
            invariant
                at <= keys@.len(),
                self.valid(),
                self@ == added_all(before, views(keys@), candidate, at as int),
            decreases keys@.len() - at,
        {
            assert(views(keys@)[at as int] == keys@[at as int]@);
            self.add(keys[at].clone(), candidate);
            at += 1;
        }
    }

    fn get(&self, key: &str) -> (list: Option<&Vec<usize>>)
        requires
            self.valid(),
        ensures
            match list {
                Some(list) => self@.contains_key(key@) && list@ == self@[key@],
                None => !self@.contains_key(key@),
            },
    {
        match self.slots.get(key) {
            Some(slot) => Some(&self.lists[*slot]),
            None => None,
        }
    }
}

/// The candidates under every recording key and every artist key.
#[verifier::ext_equal]
pub struct LookupView {
    pub recording: Map<Seq<char>, Seq<usize>>,
    pub artist: Map<Seq<char>, Seq<usize>>,
}

/// Candidates by recording key and by artist key.
pub struct CandidateLookup {
    recording: KeyIndex,
    artist: KeyIndex,
}

impl View for CandidateLookup {
    type V = LookupView;

    closed spec fn view(&self) -> LookupView {
        LookupView { recording: self.recording@, artist: self.artist@ }
    }
}

/// A lookup without candidates.
pub open spec fn empty_lookup() -> LookupView {
    LookupView { recording: Map::empty(), artist: Map::empty() }
}

/// The first `count` candidates under the keys of their tracks.
pub open spec fn indexed_upto(candidates: Seq<CandidateIdentity>, count: int) -> LookupView
    decreases count,
{
    if count <= 0 {
        empty_lookup()
    } else {
        let before = indexed_upto(candidates, count - 1);
        let item = candidates[count - 1];
        let recording_keys = track_recording_keys(item.track);
        let artist_keys = track_artist_keys(item.track);
        LookupView {
            recording: added_all(
                before.recording,
                recording_keys,
                item.candidate,
                recording_keys.len() as int,
            ),
            artist: added_all(
                before.artist,
                artist_keys,
                item.candidate,
                artist_keys.len() as int,
            ),
        }
    }
}

// What a bundle asks for.

/// Whether a name differs from its normal form in an obvious way: from `at` on,
/// white space other than single spaces, or a capital.
pub open spec fn irregular_from(text: Seq<char>, at: int, after_space: bool) -> bool
    decreases text.len() - at,
{
    if at >= text.len() {
        false
    } else if is_space(text[at]) {
        text[at] != ' ' || after_space || irregular_from(text, at + 1, true)
    } else {
        is_upper(text[at]) || irregular_from(text, at + 1, false)
    }
}

/// Whether a name has to be normalized before it is looked up.
pub open spec fn irregular(text: Seq<char>) -> bool {
    (text.len() > 0 && (is_space(text[0]) || is_space(text.last()))) || irregular_from(
        text,
        0,
        false,
    )
}

fn identity_key_needs_normalization(value: &str) -> (needed: bool)
    ensures
        needed == irregular(value@),
{
    let text = chars_of(value);
    if text.len() > 0 && (char_is_space(text[0]) || char_is_space(text[text.len() - 1])) {
        return true;
    }
    let mut after_space: bool = false;
    let mut at: usize = 0;
    while at < text.len()
        invariant
            at <= text@.len(),
            text@ == value@,
            !(text@.len() > 0 && (is_space(text@[0]) || is_space(text@.last()))),
            irregular_from(value@, 0, false) == irregular_from(value@, at as int, after_space),
        decreases text@.len() - at,
    {
        let character: char = text[at];
        if char_is_space(character) {
            if character != ' ' || after_space {
                return true;
            }
            after_space = true;
        } else {
            if char_is_upper(character) {
                return true;
            }
            after_space = false;
        }
        at += 1;
    }
    false
}

/// The recording keys that the first `count` edges lead to.
pub open spec fn wanted_recordings(edges: Seq<EvidenceEdge>, count: int) -> Seq<Seq<char>>
    decreases count,
{
    if count <= 0 {
        seq![]
    } else {
        let before = wanted_recordings(edges, count - 1);
        match edges[count - 1].candidate.kind {
            EntityKind::Recording => before + entity_recording_keys(edges[count - 1].candidate),
            EntityKind::Artist => before,
        }
    }
}

/// The artist keys that the first `count` edges lead to.
pub open spec fn wanted_artists(edges: Seq<EvidenceEdge>, count: int) -> Seq<Seq<char>>
    decreases count,
{
    if count <= 0 {
        seq![]
    } else {
        let before = wanted_artists(edges, count - 1);
        match edges[count - 1].candidate.kind {
            EntityKind::Artist => before + entity_artist_keys(edges[count - 1].candidate),
            EntityKind::Recording => before,
        }
    }
}

/// The row that a key names, if it names one.
pub open spec fn row_of(key: Seq<char>) -> Option<int> {
    if starts_with(key, "bliss-row-"@) {
        number(key.skip("bliss-row-"@.len() as int))
    } else {
        None
    }
}

/// Whether one of the keys names a row.
pub open spec fn wants_row(keys: Seq<Seq<char>>, row: int) -> bool {
    exists|i: int| 0 <= i < keys.len() && row_of(#[trigger] keys[i]) == Some(row)
}

/// The key of a title and an artist that are in normal form already.
pub open spec fn pair_key(title: Seq<char>, artist: Seq<char>) -> Seq<char> {
    "title_artist:"@ + title + "\0"@ + artist
}

/// The key under which a title and an artist are asked for, if they are. A
/// title ends at the first NUL of a key.
pub open spec fn wanted_pair(
    keys: Seq<Seq<char>>,
    title: Seq<char>,
    artist: Seq<char>,
) -> Option<Seq<char>> {
    if !title.contains('\0') && keys.contains(pair_key(title, artist)) {
        Some(pair_key(title, artist))
    } else {
        None
    }
}

/// The keys under which an artist name is asked for.
pub open spec fn wanted_names(keys: Seq<Seq<char>>, name: Seq<char>) -> Seq<Seq<char>> {
    let plain = "artist:"@ + name + ""@;
    let named = "artist_name:"@ + name + ""@;
    let first = if keys.contains(plain) {
        seq![plain]
    } else {
        seq![]
    };
    if keys.contains(named) {
        first.push(named)
    } else {
        first
    }
}

/// A candidate of a library: its number, its row, and the keys of its title and
/// artist.
pub open spec fn library_indexed(
    before: LookupView,
    recordings: Seq<Seq<char>>,
    artists: Seq<Seq<char>>,
    candidate: usize,
    row: u64,
    title: Seq<char>,
    artist: Seq<char>,
) -> LookupView {
    let by_row = if wants_row(recordings, row as int) {
        added(before.recording, "bliss-row-"@ + decimal(row as int) + ""@, candidate)
    } else {
        before.recording
    };
    let exact = wanted_pair(recordings, title, artist);
    let pair = if exact is None && (irregular(artist) || irregular(title)) {
        wanted_pair(recordings, normalized(title), normalized(artist))
    } else {
        exact
    };
    let recording = match pair {
        Some(key) => added(by_row, key, candidate),
        None => by_row,
    };
    let names = wanted_names(artists, artist);
    let keys = if names.len() == 0 && irregular(artist) {
        wanted_names(artists, normalized(artist))
    } else {
        names
    };
    LookupView {
        recording,
        artist: added_all(before.artist, keys, candidate, keys.len() as int),
    }
}

/// The first `count` candidates of a library under the keys that are asked for.
pub open spec fn library_upto(
    edges: Seq<EvidenceEdge>,
    candidates: Seq<(usize, u64, &str, &str)>,
    count: int,
) -> LookupView
    decreases count,
{
    if count <= 0 {
        empty_lookup()
    } else {
        let item = candidates[count - 1];
        library_indexed(
            library_upto(edges, candidates, count - 1),
            wanted_recordings(edges, edges.len() as int),
            wanted_artists(edges, edges.len() as int),
            item.0,
            item.1,
            item.2@,
            item.3@,
        )
    }
}

/// A set of keys, as a hash map.
spec fn holds_keys(set: StringHashMap<bool>, keys: Seq<Seq<char>>) -> bool {
    forall|key: Seq<char>| set@.contains_key(key) == #[trigger] keys.contains(key)
}

fn add_keys(set: &mut StringHashMap<bool>, keys: &Vec<String>, Ghost(before): Ghost<Seq<Seq<char>>>)
    requires
        holds_keys(*old(set), before),
    ensures
        holds_keys(*final(set), before + views(keys@)),
{
    let ghost all = views(keys@);
    let mut at: usize = 0;
    assert(before + all.take(0) =~= before);
    while at < keys.len()
        invariant
            at <= keys@.len(),
            all == views(keys@),
            holds_keys(*set, before + all.take(at as int)),
        decreases keys@.len() - at,
    {
        let ghost known = set@;
        let key = keys[at].clone();
        set.insert(key, true);
        proof {
            let old_keys = before + all.take(at as int);
            let new_keys = before + all.take(at + 1);
            assert(new_keys =~= old_keys.push(keys@[at as int]@));
            assert forall|text: Seq<char>| set@.contains_key(text) == #[trigger] new_keys.contains(
                text,
            ) by {
                assert(known.contains_key(text) == old_keys.contains(text));
                if new_keys.contains(text) {
                    let i = choose|i: int| 0 <= i < new_keys.len() && new_keys[i] == text;
                    if i < old_keys.len() {
                        assert(old_keys[i] == text);
                    }
                }
                if old_keys.contains(text) {
                    let i = choose|i: int| 0 <= i < old_keys.len() && old_keys[i] == text;
                    assert(new_keys[i] == text);
                }
                if text == keys@[at as int]@ {
                    assert(new_keys[old_keys.len() as int] == text);
                }
            }
        }
        at += 1;
    }
    assert(before + all.take(keys@.len() as int) =~= before + all);
}

/// Whether the rows are those that the keys name.
spec fn holds_rows(rows: Seq<u64>, keys: Seq<Seq<char>>) -> bool {
    forall|row: u64| #[trigger] rows.contains(row) == wants_row(keys, row as int)
}

fn add_rows(rows: &mut Vec<u64>, keys: &Vec<String>, Ghost(before): Ghost<Seq<Seq<char>>>)
    requires
        holds_rows(old(rows)@, before),
    ensures
        holds_rows(final(rows)@, before + views(keys@)),
{
    let ghost all = views(keys@);
    let mut at: usize = 0;
    assert(before + all.take(0) =~= before);
    while at < keys.len()
        invariant
            at <= keys@.len(),
            all == views(keys@),
            holds_rows(rows@, before + all.take(at as int)),
        decreases keys@.len() - at,
    {
        let ghost known = rows@;
        let row: Option<u64> = match rest_behind(keys[at].as_str(), "bliss-row-") {
            Some(rest) => parse_number(rest.as_str()),
            None => None,
        };
        if let Some(row) = row {
            rows.push(row);
        }
        proof {
            let old_keys = before + all.take(at as int);
            let new_keys = before + all.take(at + 1);
            let key = keys@[at as int]@;
            assert(new_keys =~= old_keys.push(key));
            assert(row_of(key) == (match row {
                Some(row) => Some(row as int),
                None => None,
            }));
            assert forall|wanted: u64| #[trigger] rows@.contains(wanted) == wants_row(
                new_keys,
                wanted as int,
            ) by {
                assert(known.contains(wanted) == wants_row(old_keys, wanted as int));
                if wants_row(new_keys, wanted as int) {
                    let i = choose|i: int|
                        0 <= i < new_keys.len() && row_of(#[trigger] new_keys[i]) == Some(
                            wanted as int,
                        );
                    if i < old_keys.len() {
                        assert(old_keys[i] == new_keys[i]);
                        assert(wants_row(old_keys, wanted as int));
                    } else {
                        assert(row == Some(wanted));
                        assert(rows@[rows@.len() - 1] == wanted);
                    }
                }
                if wants_row(old_keys, wanted as int) {
                    let i = choose|i: int|
                        0 <= i < old_keys.len() && row_of(#[trigger] old_keys[i]) == Some(
                            wanted as int,
                        );
                    assert(new_keys[i] == old_keys[i]);
                    let j = choose|j: int| 0 <= j < known.len() && known[j] == wanted;
                    assert(rows@[j] == wanted);
                }
                if rows@.contains(wanted) && !known.contains(wanted) {
                    let j = choose|j: int| 0 <= j < rows@.len() && rows@[j] == wanted;
                    assert(j == known.len() ==> row == Some(wanted));
                    if j < known.len() {
                        assert(known[j] == wanted);
                    }
                    assert(new_keys[old_keys.len() as int] == key);
                }
            }
        }
        at += 1;
    }
    assert(before + all.take(keys@.len() as int) =~= before + all);
}

fn holds_row(rows: &Vec<u64>, row: u64) -> (held: bool)
    ensures
        held == rows@.contains(row),
{
    let mut at: usize = 0;
    while at < rows.len()
        invariant
            at <= rows@.len(),
            forall|i: int| 0 <= i < at ==> rows@[i] != row,
        decreases rows@.len() - at,
    {
        if rows[at] == row {
            assert(rows@[at as int] == row);
            return true;
        }
        at += 1;
    }
    false
}

fn holds_nul(text: &str) -> (held: bool)
    ensures
        held == text@.contains('\0'),
{
    let characters = chars_of(text);
    let mut at: usize = 0;
    while at < characters.len()
        invariant
            at <= characters@.len(),
            characters@ == text@,
            forall|i: int| 0 <= i < at ==> text@[i] != '\0',
        decreases characters@.len() - at,
    {
        if characters[at] == '\0' {
            assert(text@[at as int] == '\0');
            return true;
        }
        at += 1;
    }
    false
}

/// The value of a key that may be missing.
spec fn key_in(key: Option<String>) -> Option<Seq<char>> {
    match key {
        Some(key) => Some(key@),
        None => None,
    }
}

struct Wanted {
    rows: Vec<u64>,
    recordings: StringHashMap<bool>,
    artists: StringHashMap<bool>,
}

impl Wanted {
    spec fn valid(&self, edges: Seq<EvidenceEdge>, count: int) -> bool {
        &&& holds_rows(self.rows@, wanted_recordings(edges, count))
        &&& holds_keys(self.recordings, wanted_recordings(edges, count))
        &&& holds_keys(self.artists, wanted_artists(edges, count))
    }

    fn of(edges: &Vec<EvidenceEdge>) -> (wanted: Self)
        ensures
            wanted.valid(edges@, edges@.len() as int),
    {
        let mut wanted = Wanted {
            rows: Vec::new(),
            recordings: StringHashMap::new(),
            artists: StringHashMap::new(),
        };
        let mut at: usize = 0;
        while at < edges.len()
            invariant
                at <= edges@.len(),
                wanted.valid(edges@, at as int),
            decreases edges@.len() - at,
        {
            let entity = &edges[at].candidate;
            match entity.kind {
                EntityKind::Recording => {
                    let keys = recording_keys_for_entity(entity);
                    let ghost before = wanted_recordings(edges@, at as int);
                    add_rows(&mut wanted.rows, &keys, Ghost(before));
                    add_keys(&mut wanted.recordings, &keys, Ghost(before));
                },
                EntityKind::Artist => {
                    let keys = artist_keys_for_entity(entity);
                    let ghost before = wanted_artists(edges@, at as int);
                    add_keys(&mut wanted.artists, &keys, Ghost(before));
                },
            }
            at += 1;
        }
        wanted
    }

    fn pair(&self, title: &str, artist: &str, Ghost(edges): Ghost<Seq<EvidenceEdge>>) -> (key:
        Option<String>)
        requires
            self.valid(edges, edges.len() as int),
        ensures
            key_in(key) == wanted_pair(
                wanted_recordings(edges, edges.len() as int),
                title@,
                artist@,
            ),
    {
        if self.recordings.is_empty() || holds_nul(title) {
            proof {
                let key = pair_key(title@, artist@);
                assert(self.recordings@.contains_key(key) == wanted_recordings(
                    edges,
                    edges.len() as int,
                ).contains(key));
            }
            return None;
        }
        let mut key = text_around("title_artist:", title, "\0");
        key.append(artist);
        assert(self.recordings@.contains_key(key@) == wanted_recordings(
            edges,
            edges.len() as int,
        ).contains(key@));
        if self.recordings.contains_key(key.as_str()) {
            Some(key)
        } else {
            None
        }
    }

    fn names(&self, name: &str, Ghost(edges): Ghost<Seq<EvidenceEdge>>) -> (keys: Vec<String>)
        requires
            self.valid(edges, edges.len() as int),
        ensures
            views(keys@) == wanted_names(wanted_artists(edges, edges.len() as int), name@),
    {
        let ghost all = wanted_artists(edges, edges.len() as int);
        let mut keys: Vec<String> = Vec::new();
        let plain = text_around("artist:", name, "");
        let named = text_around("artist_name:", name, "");
        proof {
            assert(self.artists@.contains_key(plain@) == all.contains(plain@));
            assert(self.artists@.contains_key(named@) == all.contains(named@));
        }
        let ghost mut first: Seq<Seq<char>> = seq![];
        if self.artists.contains_key(plain.as_str()) {
            proof {
                first = seq![plain@];
            }
            keys.push(plain);
        }
        assert(views(keys@) =~= first);
        if self.artists.contains_key(named.as_str()) {
            keys.push(named);
            assert(views(keys@) =~= first.push(named@));
        }
        keys
    }
}

impl CandidateLookup {
    /// Whether the lookup is consistent.
    pub closed spec fn valid(&self) -> bool {
        self.recording.valid() && self.artist.valid()
    }

    /// Puts candidates under the keys of their tracks.
    pub fn new(candidates: &[CandidateIdentity]) -> (lookup: Self)
        ensures
            lookup.valid(),
            lookup@ == indexed_upto(candidates@, candidates@.len() as int),
    {
        let mut recording = KeyIndex::new();
        let mut artist = KeyIndex::new();
        let mut at: usize = 0;
        while at < candidates.len()
            invariant
                at <= candidates@.len(),
                recording.valid(),
                artist.valid(),
                recording@ == indexed_upto(candidates@, at as int).recording,
                artist@ == indexed_upto(candidates@, at as int).artist,
            decreases candidates@.len() - at,
        {
            let candidate = &candidates[at];
            let recording_keys = recording_keys_for_track(&candidate.track);
            let artist_keys = artist_keys_for_track(&candidate.track);
            recording.add_all(&recording_keys, candidate.candidate);
            artist.add_all(&artist_keys, candidate.candidate);
            at += 1;
        }
        CandidateLookup { recording, artist }
    }

    /// Puts the candidates of a library under those keys that a bundle asks
    /// for, and under no others.
    pub fn from_library_candidates(
        bundle: &EvidenceBundle,
        candidates: &[(usize, u64, &str, &str)],
    ) -> (lookup: Self)
        ensures
            lookup.valid(),
            lookup@ == library_upto(bundle.edges@, candidates@, candidates@.len() as int),
    {
        let wanted = Wanted::of(&bundle.edges);
        let ghost edges = bundle.edges@;
        let mut recording = KeyIndex::new();
        let mut artist = KeyIndex::new();
        let mut at: usize = 0;
        while at < candidates.len()
            invariant
                at <= candidates@.len(),
                edges == bundle.edges@,
                wanted.valid(edges, edges.len() as int),
                recording.valid(),
                artist.valid(),
                recording@ == library_upto(edges, candidates@, at as int).recording,
                artist@ == library_upto(edges, candidates@, at as int).artist,
            decreases candidates@.len() - at,
        {
            let (candidate, row, title, artist_name) = candidates[at];
            proof {
                let keys = wanted_recordings(edges, edges.len() as int);
                assert(wanted.rows@.contains(row) == wants_row(keys, row as int));
            }
            if holds_row(&wanted.rows, row) {
                recording.add(text_with_number("bliss-row-", row, ""), candidate);
            }
            let irregular_artist: bool = identity_key_needs_normalization(artist_name);
            let exact = wanted.pair(title, artist_name, Ghost(edges));
            let pair = if exact.is_none() && (irregular_artist || identity_key_needs_normalization(
                title,
            )) {
                wanted.pair(
                    normalize(title).as_str(),
                    normalize(artist_name).as_str(),
                    Ghost(edges),
                )
            } else {
                exact
            };
            if let Some(key) = pair {
                recording.add(key, candidate);
            }
            let names = wanted.names(artist_name, Ghost(edges));
            let keys = if names.len() == 0 && irregular_artist {
                wanted.names(normalize(artist_name).as_str(), Ghost(edges))
            } else {
                names
            };
            artist.add_all(&keys, candidate);
            at += 1;
        }
        CandidateLookup { recording, artist }
    }

    /// The candidates under a recording key.
    pub fn recording_candidates(&self, key: &str) -> (found: Option<Vec<usize>>)
        requires
            self.valid(),
        ensures
            match found {
                Some(list) => self@.recording.contains_key(key@) && list@ == self@.recording[key@],
                None => !self@.recording.contains_key(key@),
            },
    {
        match self.recording.get(key) {
            Some(list) => Some(copied(list.as_slice())),
            None => None,
        }
    }

    /// The candidates under an artist key.
    pub fn artist_candidates(&self, key: &str) -> (found: Option<Vec<usize>>)
        requires
            self.valid(),
        ensures
            match found {
                Some(list) => self@.artist.contains_key(key@) && list@ == self@.artist[key@],
                None => !self@.artist.contains_key(key@),
            },
    {
        match self.artist.get(key) {
            Some(list) => Some(copied(list.as_slice())),
            None => None,
        }
    }

    /// The number of recording keys and of artist keys that hold candidates.
    pub fn key_counts(&self) -> (counts: (usize, usize))
        ensures
            counts.0 == self@.recording.len(),
            counts.1 == self@.artist.len(),
    {
        assert(self.recording@.dom() =~= self.recording.slots@.dom());
        assert(self.artist@.dom() =~= self.artist.slots@.dom());
        (self.recording.slots.len(), self.artist.slots.len())
    }
}

// Gathering evidence through a lookup.

/// The candidates under the keys from `key` on, each once, behind those in
/// `found`.
pub open spec fn matches_from(
    map: Map<Seq<char>, Seq<usize>>,
    keys: Seq<Seq<char>>,
    key: int,
    at: int,
    found: Seq<usize>,
) -> Seq<usize>
    decreases keys.len() - key, map[keys[key]].len() - at,
{
    if key >= keys.len() {
        found
    } else if !map.contains_key(keys[key]) || at >= map[keys[key]].len() {
        matches_from(map, keys, key + 1, 0, found)
    } else {
        let candidate = map[keys[key]][at];
        matches_from(
            map,
            keys,
            key,
            at + 1,
            if found.contains(candidate) {
                found
            } else {
                found.push(candidate)
            },
        )
    }
}

impl LookupView {
    /// The candidates that an entity may be.
    pub open spec fn candidates_for(self, entity: Entity) -> Seq<usize> {
        match entity.kind {
            EntityKind::Recording => matches_from(
                self.recording,
                entity_recording_keys(entity),
                0,
                0,
                seq![],
            ),
            EntityKind::Artist => matches_from(
                self.artist,
                entity_artist_keys(entity),
                0,
                0,
                seq![],
            ),
        }
    }
}

fn matches_under(index: &KeyIndex, keys: &Vec<String>) -> (found: Vec<usize>)
    requires
        index.valid(),
    ensures
        found@ == matches_from(index@, views(keys@), 0, 0, seq![]),
{
    let mut found: Vec<usize> = Vec::new();
    let mut key: usize = 0;
    let ghost all = views(keys@);
    while key < keys.len()
        invariant
            key <= keys@.len(),
            index.valid(),
            all == views(keys@),
            matches_from(index@, all, 0, 0, seq![]) == matches_from(
                index@,
                all,
                key as int,
                0,
                found@,
            ),
        decreases keys@.len() - key,
    {
        assert(all[key as int] == keys@[key as int]@);
        if let Some(list) = index.get(keys[key].as_str()) {
            let mut at: usize = 0;
            while at < list.len()
                invariant
                    key < keys@.len(),
                    at <= list@.len(),
                    all == views(keys@),
                    all[key as int] == keys@[key as int]@,
                    index@.contains_key(all[key as int]),
                    list@ == index@[all[key as int]],
                    matches_from(index@, all, 0, 0, seq![]) == matches_from(
                        index@,
                        all,
                        key as int,
                        at as int,
                        found@,
                    ),
                decreases list@.len() - at,
            {
                let candidate: usize = list[at];
                if !holds(found.as_slice(), candidate) {
                    found.push(candidate);
                }
                at += 1;
            }
        }
        key += 1;
    }
    found
}

impl CandidateLookup {
    /// Finds the candidates that an entity may be.
    pub fn candidates_for_entity(&self, entity: &Entity) -> (found: Vec<usize>)
        requires
            self.valid(),
        ensures
            found@ == self@.candidates_for(*entity),
    {
        match entity.kind {
            EntityKind::Recording => matches_under(
                &self.recording,
                &recording_keys_for_entity(entity),
            ),
            EntityKind::Artist => matches_under(&self.artist, &artist_keys_for_entity(entity)),
        }
    }
}

/// A candidate and what has been gathered for it.
#[verifier::ext_equal]
pub struct TallyView {
    pub candidate: usize,
    pub gathered: GatheredView,
}

/// The place of a candidate among tallies ordered by candidate, from `at` on.
pub open spec fn tally_place(tallies: Seq<TallyView>, candidate: usize, at: int) -> int
    decreases tallies.len() - at,
{
    if at >= tallies.len() {
        tallies.len() as int
    } else if tallies[at].candidate >= candidate {
        at
    } else {
        tally_place(tallies, candidate, at + 1)
    }
}

/// Tallies with one candidate's gathering replaced by what it becomes.
pub open spec fn tallied(
    tallies: Seq<TallyView>,
    candidate: usize,
    change: spec_fn(GatheredView) -> GatheredView,
) -> Seq<TallyView> {
    let at = tally_place(tallies, candidate, 0);
    if at < tallies.len() && tallies[at].candidate == candidate {
        tallies.update(at, TallyView { candidate, gathered: change(tallies[at].gathered) })
    } else {
        tallies.insert(at, TallyView { candidate, gathered: change(nothing_gathered()) })
    }
}

/// Tallies with the gatherings of the first `count` candidates replaced.
pub open spec fn tallied_all(
    tallies: Seq<TallyView>,
    candidates: Seq<usize>,
    change: spec_fn(GatheredView) -> GatheredView,
    count: int,
) -> Seq<TallyView>
    decreases count,
{
    if count <= 0 {
        tallies
    } else {
        tallied(tallied_all(tallies, candidates, change, count - 1), candidates[count - 1], change)
    }
}

/// What an edge adds to a gathering between two tracks.
pub open spec fn local_note(edge: EvidenceEdge, left: TrackIdentity, right: TrackIdentity) -> spec_fn(
    GatheredView,
) -> GatheredView {
    |gathered: GatheredView|
        gathered.noted(edge, entity_is(edge.source, left), entity_is(edge.source, right))
}

/// What an edge adds to a gathering from the collection.
pub open spec fn collection_note(edge: EvidenceEdge) -> spec_fn(GatheredView) -> GatheredView {
    |gathered: GatheredView|
        GatheredView {
            evidence: gathered.evidence.push(matched(edge, SourceEndpoint::Collection)),
            ..gathered
        }
}

/// What the first `count` edges gather between two tracks.
pub open spec fn local_tallies(
    edges: Seq<EvidenceEdge>,
    left: TrackIdentity,
    right: TrackIdentity,
    lookup: LookupView,
    count: int,
) -> Seq<TallyView>
    decreases count,
{
    if count <= 0 {
        seq![]
    } else {
        let before = local_tallies(edges, left, right, lookup, count - 1);
        let edge = edges[count - 1];
        if edge.scope == EvidenceScope::EndpointLocal && edge.source.kind == edge.candidate.kind && (
        entity_is(edge.source, left) || entity_is(edge.source, right)) {
            let candidates = lookup.candidates_for(edge.candidate);
            tallied_all(
                before,
                candidates,
                local_note(edge, left, right),
                candidates.len() as int,
            )
        } else {
            before
        }
    }
}

/// What the first `count` edges gather from the collection.
pub open spec fn collection_tallies(
    edges: Seq<EvidenceEdge>,
    sources: Seq<TrackIdentity>,
    lookup: LookupView,
    count: int,
) -> Seq<TallyView>
    decreases count,
{
    if count <= 0 {
        seq![]
    } else {
        let before = collection_tallies(edges, sources, lookup, count - 1);
        let edge = edges[count - 1];
        if collection_edge(edge, sources) {
            let candidates = lookup.candidates_for(edge.candidate);
            tallied_all(before, candidates, collection_note(edge), candidates.len() as int)
        } else {
            before
        }
    }
}

/// The tier that a gathering amounts to.
pub open spec fn tier_of(gathered: GatheredView) -> SemanticTier {
    match gathered.local_tier() {
        Some(tier) => tier,
        None => SemanticTier::ArtistCollection,
    }
}

/// Tallies as candidates.
pub open spec fn tally_semantics(tallies: Seq<TallyView>) -> Seq<CandidateSemanticsView> {
    Seq::new(
        tallies.len(),
        |i: int| tallies[i].gathered.semantics(tallies[i].candidate, tier_of(tallies[i].gathered)),
    )
}

/// The supported candidates between two tracks, found through a lookup.
pub open spec fn matched_gap_evidence(
    edges: Seq<EvidenceEdge>,
    left: TrackIdentity,
    right: TrackIdentity,
    sources: Seq<TrackIdentity>,
    lookup: LookupView,
) -> GapEvidenceView {
    let local = local_tallies(edges, left, right, lookup, edges.len() as int);
    let collection = collection_tallies(edges, sources, lookup, edges.len() as int);
    if local.len() > 0 {
        GapEvidenceView { pool: SemanticPool::EndpointLocal, candidates: tally_semantics(local) }
    } else if collection.len() > 0 {
        GapEvidenceView {
            pool: SemanticPool::CollectionFallback,
            candidates: tally_semantics(collection),
        }
    } else {
        GapEvidenceView { pool: SemanticPool::BlissOnly, candidates: seq![] }
    }
}

struct Tally {
    candidate: usize,
    gathered: Gathered,
}

impl View for Tally {
    type V = TallyView;

    closed spec fn view(&self) -> TallyView {
        TallyView { candidate: self.candidate, gathered: self.gathered@ }
    }
}

proof fn lemma_tally_place(tallies: Seq<TallyView>, candidate: usize, at: int)
    requires
        0 <= at <= tallies.len(),
    ensures
        at <= tally_place(tallies, candidate, at) <= tallies.len(),
    decreases tallies.len() - at,
{
    if at < tallies.len() && tallies[at].candidate < candidate {
        lemma_tally_place(tallies, candidate, at + 1);
    }
}

/// Takes a candidate's tally out, or begins one, and tells where it belongs.
fn take_tally(tallies: &mut Vec<Tally>, candidate: usize) -> (taken: (usize, Tally))
    ensures
        ({
            let before = views(old(tallies)@);
            let at = tally_place(before, candidate, 0);
            &&& taken.0 == at <= final(tallies)@.len()
            &&& taken.1@.candidate == candidate
            &&& if at < before.len() && before[at].candidate == candidate {
                views(final(tallies)@) == before.remove(at) && taken.1@ == before[at]
            } else {
                views(final(tallies)@) == before && taken.1@.gathered == nothing_gathered()
            }
        }),
{
    let ghost before = views(tallies@);
    let mut at: usize = 0;
    while at < tallies.len() && tallies[at].candidate < candidate
        invariant
            at <= tallies@.len(),
            before == views(tallies@),
            tallies@ == old(tallies)@,
            tally_place(before, candidate, 0) == tally_place(before, candidate, at as int),
        decreases tallies@.len() - at,
    {
        assert(before[at as int] == tallies@[at as int]@);
        at += 1;
    }
    proof {
        if at < tallies@.len() {
            assert(before[at as int] == tallies@[at as int]@);
        }
    }
    if at < tallies.len() && tallies[at].candidate == candidate {
        let ghost all = tallies@;
        let tally = tallies.remove(at);
        assert(views(tallies@) =~= before.remove(at as int));
        (at, tally)
    } else {
        (at, Tally { candidate, gathered: Gathered::new() })
    }
}

proof fn lemma_put_back(
    before: Seq<TallyView>,
    candidate: usize,
    change: spec_fn(GatheredView) -> GatheredView,
)
    ensures
        ({
            let at = tally_place(before, candidate, 0);
            if at < before.len() && before[at].candidate == candidate {
                before.remove(at).insert(
                    at,
                    TallyView { candidate, gathered: change(before[at].gathered) },
                ) == tallied(before, candidate, change)
            } else {
                before.insert(
                    at,
                    TallyView { candidate, gathered: change(nothing_gathered()) },
                ) == tallied(before, candidate, change)
            }
        }),
{
    let at = tally_place(before, candidate, 0);
    lemma_tally_place(before, candidate, 0);
    if at < before.len() && before[at].candidate == candidate {
        assert(before.remove(at).insert(
            at,
            TallyView { candidate, gathered: change(before[at].gathered) },
        ) =~= tallied(before, candidate, change));
    }
}

fn put_tally(tallies: &mut Vec<Tally>, at: usize, tally: Tally)
    requires
        at <= old(tallies)@.len(),
    ensures
        views(final(tallies)@) == views(old(tallies)@).insert(at as int, tally@),
{
    let ghost before = tallies@;
    tallies.insert(at, tally);
    assert(views(tallies@) =~= views(before).insert(at as int, tally@));
}

fn gather_local(
    edges: &Vec<EvidenceEdge>,
    left: &TrackIdentity,
    right: &TrackIdentity,
    lookup: &CandidateLookup,
) -> (tallies: Vec<Tally>)
    requires
        lookup.valid(),
    ensures
        views(tallies@) == local_tallies(edges@, *left, *right, lookup@, edges@.len() as int),
{
    let mut tallies: Vec<Tally> = Vec::new();
    let mut edge: usize = 0;
    assert(views(tallies@) =~= seq![]);
    while edge < edges.len()
        invariant
            edge <= edges@.len(),
            lookup.valid(),
            views(tallies@) == local_tallies(edges@, *left, *right, lookup@, edge as int),
        decreases edges@.len() - edge,
    {
        let item = &edges[edge];
        let from_left: bool = entity_matches(&item.source, left);
        let from_right: bool = entity_matches(&item.source, right);
        if item.scope == EvidenceScope::EndpointLocal && item.source.kind == item.candidate.kind && (
        from_left || from_right) {
            let candidates = lookup.candidates_for_entity(&item.candidate);
            let ghost before = views(tallies@);
            let ghost change = local_note(*item, *left, *right);
            let mut at: usize = 0;
            while at < candidates.len()
                invariant
                    at <= candidates@.len(),
                    edge < edges@.len(),
                    from_left == entity_is(item.source, *left),
                    from_right == entity_is(item.source, *right),
                    change == local_note(*item, *left, *right),
                    views(tallies@) == tallied_all(before, candidates@, change, at as int),
                decreases candidates@.len() - at,
            {
                let ghost now = views(tallies@);
                let (place, mut tally) = take_tally(&mut tallies, candidates[at]);
                tally.gathered.note(item, from_left, from_right);
                proof {
                    lemma_put_back(now, candidates@[at as int], change);
                }
                put_tally(&mut tallies, place, tally);
                at += 1;
            }
        }
        edge += 1;
    }
    tallies
}

fn gather_collection(
    edges: &Vec<EvidenceEdge>,
    sources: &[TrackIdentity],
    lookup: &CandidateLookup,
) -> (tallies: Vec<Tally>)
    requires
        lookup.valid(),
    ensures
        views(tallies@) == collection_tallies(edges@, sources@, lookup@, edges@.len() as int),
{
    let mut tallies: Vec<Tally> = Vec::new();
    let mut edge: usize = 0;
    assert(views(tallies@) =~= seq![]);
    while edge < edges.len()
        invariant
            edge <= edges@.len(),
            lookup.valid(),
            views(tallies@) == collection_tallies(edges@, sources@, lookup@, edge as int),
        decreases edges@.len() - edge,
    {
        let item = &edges[edge];
        if is_collection_edge(item, sources) {
            let candidates = lookup.candidates_for_entity(&item.candidate);
            let ghost before = views(tallies@);
            let ghost change = collection_note(*item);
            let mut at: usize = 0;
            while at < candidates.len()
                invariant
                    at <= candidates@.len(),
                    edge < edges@.len(),
                    change == collection_note(*item),
                    views(tallies@) == tallied_all(before, candidates@, change, at as int),
                decreases candidates@.len() - at,
            {
                let ghost now = views(tallies@);
                let (place, mut tally) = take_tally(&mut tallies, candidates[at]);
                tally.gathered.note_as(item, SourceEndpoint::Collection);
                proof {
                    lemma_put_back(now, candidates@[at as int], change);
                }
                put_tally(&mut tallies, place, tally);
                at += 1;
            }
        }
        edge += 1;
    }
    tallies
}

fn into_semantics(tallies: Vec<Tally>) -> (candidates: Vec<CandidateSemantics>)
    ensures
        views(candidates@) == tally_semantics(views(tallies@)),
{
    let mut rest = tallies;
    let ghost all = views(rest@);
    let mut candidates: Vec<CandidateSemantics> = Vec::new();
    while rest.len() > 0
        invariant
            rest@.len() + candidates@.len() == all.len(),
            views(rest@) =~= all.skip(candidates@.len() as int),
            views(candidates@) =~= tally_semantics(all).take(candidates@.len() as int),
        decreases rest@.len(),
    {
        let ghost now = rest@;
        let ghost done = candidates@.len() as int;
        let tally = rest.remove(0);
        proof {
            assert(views(now)[0] == all.skip(done)[0]);
            assert(views(rest@) =~= all.skip(done + 1)) by {
                assert forall|i: int| 0 <= i < rest@.len() implies views(rest@)[i]
                    == #[trigger] all.skip(done + 1)[i] by {
                    assert(views(now)[i + 1] == all.skip(done)[i + 1]);
                }
            }
        }
        let tier = match tally.gathered.local_tier() {
            Some(tier) => tier,
            None => SemanticTier::ArtistCollection,
        };
        let item = tally.gathered.into_semantics(tally.candidate, tier);
        proof {
            lemma_views_push(candidates@, item);
        }
        candidates.push(item);
    }
    assert(views(candidates@) =~= tally_semantics(all));
    candidates
}

/// Finds the supported candidates between two tracks through a lookup.
pub fn select_gap_candidate_matches(
    bundle: &EvidenceBundle,
    left: &TrackIdentity,
    right: &TrackIdentity,
    collection_sources: &[TrackIdentity],
    lookup: &CandidateLookup,
) -> (evidence: GapEvidence)
    requires
        lookup.valid(),
    ensures
        evidence@ == matched_gap_evidence(
            bundle.edges@,
            *left,
            *right,
            collection_sources@,
            lookup@,
        ),
{
    let local = gather_local(&bundle.edges, left, right, lookup);
    if local.len() > 0 {
        return GapEvidence {
            pool: SemanticPool::EndpointLocal,
            candidates: into_semantics(local),
        };
    }
    let collection = gather_collection(&bundle.edges, collection_sources, lookup);
    if collection.len() > 0 {
        return GapEvidence {
            pool: SemanticPool::CollectionFallback,
            candidates: into_semantics(collection),
        };
    }
    let candidates: Vec<CandidateSemantics> = Vec::new();
    assert(views(candidates@) =~= seq![]);
    GapEvidence { pool: SemanticPool::BlissOnly, candidates }
}

// Laws.

/// Whether a recording key is one that a bundle asks for, or names a row that
/// one of its keys asks for.
pub open spec fn asked_for(recordings: Seq<Seq<char>>, key: Seq<char>) -> bool {
    recordings.contains(key) || exists|row: u64|
        wants_row(recordings, row as int) && key == #[trigger] row_key(row)
}

/// The key of a row.
pub open spec fn row_key(row: u64) -> Seq<char> {
    "bliss-row-"@ + decimal(row as int) + ""@
}

proof fn lemma_added_keys(
    map: Map<Seq<char>, Seq<usize>>,
    keys: Seq<Seq<char>>,
    candidate: usize,
    count: int,
    key: Seq<char>,
)
    requires
        0 <= count <= keys.len(),
        added_all(map, keys, candidate, count).contains_key(key),
    ensures
        map.contains_key(key) || keys.contains(key),
    decreases count,
{
    if count > 0 && key != keys[count - 1] {
        lemma_added_keys(map, keys, candidate, count - 1, key);
    }
}

/// However large a library is, its lookup holds candidates under no key but
/// those that the bundle asks for.
pub proof fn library_lookup_holds_only_what_is_asked_for(
    edges: Seq<EvidenceEdge>,
    candidates: Seq<(usize, u64, &str, &str)>,
    count: int,
)
    requires
        0 <= count <= candidates.len(),
    ensures
        forall|key: Seq<char>| #[trigger]
            library_upto(edges, candidates, count).recording.contains_key(key) ==> asked_for(
                wanted_recordings(edges, edges.len() as int),
                key,
            ),
        forall|key: Seq<char>| #[trigger]
            library_upto(edges, candidates, count).artist.contains_key(key) ==> wanted_artists(
                edges,
                edges.len() as int,
            ).contains(key),
    decreases count,
{
    if count > 0 {
        library_lookup_holds_only_what_is_asked_for(edges, candidates, count - 1);
        let before = library_upto(edges, candidates, count - 1);
        let after = library_upto(edges, candidates, count);
        let item = candidates[count - 1];
        let recordings = wanted_recordings(edges, edges.len() as int);
        let artists = wanted_artists(edges, edges.len() as int);
        assert forall|key: Seq<char>| #[trigger] after.recording.contains_key(key) implies asked_for(
            recordings,
            key,
        ) by {
            if !before.recording.contains_key(key) && wants_row(recordings, item.1 as int) && key
                == "bliss-row-"@ + decimal(item.1 as int) + ""@ {
                assert(key == row_key(item.1));
            }
        }
        assert forall|key: Seq<char>| #[trigger] after.artist.contains_key(key) implies artists.contains(
            key,
        ) by {
            let names = wanted_names(artists, item.3@);
            let keys = if names.len() == 0 && irregular(item.3@) {
                wanted_names(artists, normalized(item.3@))
            } else {
                names
            };
            lemma_added_keys(before.artist, keys, item.0, keys.len() as int, key);
            if keys.contains(key) {
                let i = choose|i: int| 0 <= i < keys.len() && keys[i] == key;
                assert(artists.contains(keys[i]));
            }
        }
    }
}

/// Whether tallies are ordered by candidate, each candidate once.
pub open spec fn in_candidate_order(tallies: Seq<TallyView>) -> bool {
    forall|i: int, j: int|
        #![trigger tallies[i], tallies[j]]
        0 <= i < j < tallies.len() ==> tallies[i].candidate < tallies[j].candidate
}

pub proof fn lemma_place_splits(tallies: Seq<TallyView>, candidate: usize, at: int)
    requires
        0 <= at <= tallies.len(),
        forall|i: int| 0 <= i < at ==> (#[trigger] tallies[i]).candidate < candidate,
    ensures
        at <= tally_place(tallies, candidate, at) <= tallies.len(),
        forall|i: int|
            0 <= i < tally_place(tallies, candidate, at) ==> (#[trigger] tallies[i]).candidate
                < candidate,
        tally_place(tallies, candidate, at) < tallies.len() ==> tallies[tally_place(
            tallies,
            candidate,
            at,
        )].candidate >= candidate,
    decreases tallies.len() - at,
{
    if at < tallies.len() && tallies[at].candidate < candidate {
        lemma_place_splits(tallies, candidate, at + 1);
    }
}

pub proof fn lemma_tallied_in_order(
    tallies: Seq<TallyView>,
    candidates: Seq<usize>,
    change: spec_fn(GatheredView) -> GatheredView,
    count: int,
)
    requires
        in_candidate_order(tallies),
        0 <= count <= candidates.len(),
    ensures
        in_candidate_order(tallied_all(tallies, candidates, change, count)),
    decreases count,
{
    if count > 0 {
        lemma_tallied_in_order(tallies, candidates, change, count - 1);
        let before = tallied_all(tallies, candidates, change, count - 1);
        let candidate = candidates[count - 1];
        lemma_place_splits(before, candidate, 0);
        let at = tally_place(before, candidate, 0);
        let after = tallied(before, candidate, change);
        assert forall|i: int, j: int|
            #![trigger after[i], after[j]]
            0 <= i < j < after.len() implies after[i].candidate < after[j].candidate by {
            if at < before.len() && before[at].candidate == candidate {
                assert(before[i].candidate < before[j].candidate);
            } else {
                let from_i = if i < at {
                    i
                } else {
                    i - 1
                };
                let from_j = if j < at {
                    j
                } else {
                    j - 1
                };
                if i == at {
                    assert(after[j] == before[j - 1]);
                    if at < j - 1 {
                        assert(before[at].candidate < before[j - 1].candidate);
                    }
                } else if j == at {
                    assert(after[i] == before[i]);
                } else {
                    assert(after[i] == before[from_i] && after[j] == before[from_j]);
                }
            }
        }
    }
}

pub proof fn lemma_tallies_in_order(
    edges: Seq<EvidenceEdge>,
    left: TrackIdentity,
    right: TrackIdentity,
    sources: Seq<TrackIdentity>,
    lookup: LookupView,
    count: int,
)
    ensures
        in_candidate_order(local_tallies(edges, left, right, lookup, count)),
        in_candidate_order(collection_tallies(edges, sources, lookup, count)),
    decreases count,
{
    if count > 0 {
        lemma_tallies_in_order(edges, left, right, sources, lookup, count - 1);
        let edge = edges[count - 1];
        let candidates = lookup.candidates_for(edge.candidate);
        lemma_tallied_in_order(
            local_tallies(edges, left, right, lookup, count - 1),
            candidates,
            local_note(edge, left, right),
            candidates.len() as int,
        );
        lemma_tallied_in_order(
            collection_tallies(edges, sources, lookup, count - 1),
            candidates,
            collection_note(edge),
            candidates.len() as int,
        );
    }
}

/// Supported candidates come back in the order of their numbers, each once,
/// and only as supported.
pub proof fn matches_are_ordered_and_supported(
    edges: Seq<EvidenceEdge>,
    left: TrackIdentity,
    right: TrackIdentity,
    sources: Seq<TrackIdentity>,
    lookup: LookupView,
)
    ensures
        ({
            let found = matched_gap_evidence(edges, left, right, sources, lookup);
            &&& forall|i: int, j: int|
                #![trigger found.candidates[i], found.candidates[j]]
                0 <= i < j < found.candidates.len() ==> found.candidates[i].candidate
                    < found.candidates[j].candidate
            &&& forall|i: int|
                0 <= i < found.candidates.len() ==> (#[trigger] found.candidates[i]).tier
                    != SemanticTier::BlissOnly
            &&& (found.pool == SemanticPool::BlissOnly) == (found.candidates.len() == 0)
        }),
{
    lemma_tallies_in_order(edges, left, right, sources, lookup, edges.len() as int);
    let local = local_tallies(edges, left, right, lookup, edges.len() as int);
    let collection = collection_tallies(edges, sources, lookup, edges.len() as int);
    let found = matched_gap_evidence(edges, left, right, sources, lookup);
    assert forall|i: int, j: int|
        #![trigger found.candidates[i], found.candidates[j]]
        0 <= i < j < found.candidates.len() implies found.candidates[i].candidate
        < found.candidates[j].candidate by {
        if local.len() > 0 {
            assert(local[i].candidate < local[j].candidate);
        } else {
            assert(collection[i].candidate < collection[j].candidate);
        }
    }
}

} // verus!
