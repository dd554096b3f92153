//! The analyzed library and the identities of its tracks.

use crate::lookup::row_key;
use crate::requests::SourceTrack;
use crate::route::RouteTrack;
use crate::semantic::{canonical_artist_id, normalize_identity, CandidateIdentity, TrackIdentity};
use crate::sequences::{lemma_views_push, views};
use crate::text::{
    char_is_space, chars_of, copied_text, is_space, lowercase, lowercased, normalized, sort_keys,
    sorted_keys, text_in, text_of, text_with_number,
};
use vstd::prelude::*;

verus! {

// Keys.

/// The first position at or after `at` that is no white space, or the length.
pub open spec fn first_solid(text: Seq<char>, at: int) -> int
    decreases text.len() - at,
{
    if at >= text.len() {
        text.len() as int
    } else if is_space(text[at]) {
        first_solid(text, at + 1)
    } else {
        at
    }
}

/// The end of what is left of the first `end` characters without the white
/// space behind it, at or after `start`.
pub open spec fn last_solid(text: Seq<char>, start: int, end: int) -> int
    decreases end - start,
{
    if end <= start {
        start
    } else if is_space(text[end - 1]) {
        last_solid(text, start, end - 1)
    } else {
        end
    }
}

/// A text without the white space around it.
pub open spec fn trimmed(text: Seq<char>) -> Seq<char> {
    let start = first_solid(text, 0);
    text.subrange(start, last_solid(text, start, text.len() as int))
}

/// The form in which names are compared for repeats: without white space around
/// it and in lower case.
pub open spec fn repeat_text(text: Seq<char>) -> Seq<char> {
    lowercased(trimmed(text))
}

/// Puts a name in the form in which names are compared for repeats.
pub fn repeat_key(value: &str) -> (key: String)
    ensures
        key@ == repeat_text(value@),
{
    let characters = chars_of(value);
    let mut start: usize = 0;
    while start < characters.len() && char_is_space(characters[start])
        invariant
            start <= characters@.len(),
            characters@ == value@,
            first_solid(value@, 0) == first_solid(value@, start as int),
        decreases characters@.len() - start,
    {
        start += 1;
    }
    let mut end: usize = characters.len();
    while end > start && char_is_space(characters[end - 1])
        invariant
            start <= end <= characters@.len(),
            characters@ == value@,
            last_solid(value@, start as int, value@.len() as int) == last_solid(
                value@,
                start as int,
                end as int,
            ),
        decreases end - start,
    {
        end -= 1;
    }
    let inner = vstd::slice::slice_subrange(characters.as_slice(), start, end);
    lowercase(text_of(inner).as_str())
}

// Tracks.

/// A usable track as the database holds it.
#[derive(Debug)]
pub struct LibraryRow {
    pub row_id: u64,
    pub file: String,
    pub artist: Option<String>,
    pub album: Option<String>,
    pub title: Option<String>,
    pub features: [i32; 23],
}

/// A track of the library.
#[derive(Debug)]
pub struct LibraryTrack {
    pub row_id: u64,
    pub file: String,
    pub artist_key: String,
    pub title_key: String,
    pub route_track: RouteTrack,
}

/// The key of a name that may be missing.
pub open spec fn key_of(name: Option<String>) -> Seq<char> {
    match name {
        Some(name) => repeat_text(name@),
        None => repeat_text(seq![]),
    }
}

/// Whether a track is what the database holds of it.
pub open spec fn decodes(track: LibraryTrack, row: LibraryRow) -> bool {
    &&& track.row_id == row.row_id
    &&& track.file@ == row.file@
    &&& track.artist_key@ == key_of(row.artist)
    &&& track.title_key@ == key_of(row.title)
    &&& track.route_track.features == row.features
    &&& track.route_track.artist_key@ == key_of(row.artist)
    &&& track.route_track.album_key@ == key_of(row.album)
}

fn optional_key(name: &Option<String>) -> (key: String)
    ensures
        key@ == key_of(*name),
{
    match name {
        Some(name) => repeat_key(name.as_str()),
        None => {
            let nothing = String::new();
            assert(nothing@ =~= seq![]);
            repeat_key(nothing.as_str())
        },
    }
}

/// Decodes the usable tracks of a database, in their order.
pub fn usable_library(rows: &[LibraryRow]) -> (library: Vec<LibraryTrack>)
    ensures
        library@.len() == rows@.len(),
        forall|i: int| 0 <= i < rows@.len() ==> decodes(#[trigger] library@[i], rows@[i]),
{
    let mut library: Vec<LibraryTrack> = Vec::new();
    let mut at: usize = 0;
    while at < rows.len()
        invariant
            at <= rows@.len(),
            library@.len() == at,
            forall|i: int| 0 <= i < at ==> decodes(#[trigger] library@[i], rows@[i]),
        decreases rows@.len() - at,
    {
        let row = &rows[at];
        let artist_key = optional_key(&row.artist);
        library.push(
            LibraryTrack {
                row_id: row.row_id,
                file: row.file.clone(),
                artist_key: artist_key.clone(),
                title_key: optional_key(&row.title),
                route_track: RouteTrack {
                    features: row.features,
                    artist_key,
                    album_key: optional_key(&row.album),
                },
            },
        );
        at += 1;
    }
    library
}

/// The tracks of a library as route search sees them.
pub open spec fn route_tracks(library: Seq<LibraryTrack>) -> Seq<RouteTrack> {
    Seq::new(library.len(), |i: int| library[i].route_track)
}

/// Copies what route search sees of a library.
pub fn library_route_tracks(library: &[LibraryTrack]) -> (tracks: Vec<RouteTrack>)
    ensures
        tracks@ == route_tracks(library@),
{
    let mut tracks: Vec<RouteTrack> = Vec::new();
    let mut at: usize = 0;
    while at < library.len()
        invariant
            at <= library@.len(),
            tracks@ =~= route_tracks(library@).take(at as int),
        decreases library@.len() - at,
    {
        tracks.push(library[at].route_track.clone());
        at += 1;
    }
    assert(tracks@ =~= route_tracks(library@));
    tracks
}

/// The rows of a library.
pub open spec fn row_ids(library: Seq<LibraryTrack>) -> Seq<u64> {
    Seq::new(library.len(), |i: int| library[i].row_id)
}

/// Lists the rows of a library.
pub fn library_rows(library: &[LibraryTrack]) -> (rows: Vec<u64>)
    ensures
        rows@ == row_ids(library@),
{
    let mut rows: Vec<u64> = Vec::new();
    let mut at: usize = 0;
    while at < library.len()
        invariant
            at <= library@.len(),
            rows@ =~= row_ids(library@).take(at as int),
        decreases library@.len() - at,
    {
        rows.push(library[at].row_id);
        at += 1;
    }
    assert(rows@ =~= row_ids(library@));
    rows
}

// Identities.

/// Makes the identifier of a candidate.
pub fn bridge_candidate_id(row_id: u64) -> (id: String)
    ensures
        id@ == row_key(row_id),
{
    text_with_number("bliss-row-", row_id, "")
}

/// A name that a source gives, in the form for comparing identities, or else
/// the library's key.
pub open spec fn identity_name(given: Option<String>, key: Seq<char>) -> Seq<char> {
    match given {
        Some(given) => normalized(given@),
        None => key,
    }
}

fn name_or_key(given: &Option<String>, key: &String) -> (name: String)
    ensures
        name@ == identity_name(*given, key@),
{
    match given {
        Some(given) => normalize_identity(given.as_str()),
        None => key.clone(),
    }
}

/// The identifier of an artist by name.
pub open spec fn artist_id(name: Seq<char>) -> Seq<char> {
    "artist:"@ + normalized(name) + ""@
}

/// Whether an identity is that of a source track found in the library.
pub open spec fn identifies_source(
    identity: TrackIdentity,
    source: SourceTrack,
    track: LibraryTrack,
) -> bool {
    let artist = identity_name(source.artist, track.artist_key@);
    &&& identity.recording_id@ == source.id@
    &&& text_in(identity.recording_mbid) == text_in(source.recording_mbid)
    &&& identity.title_name@ == identity_name(source.title, track.title_key@)
    &&& identity.artist_name@ == artist
    &&& views(identity.artist_ids@) == sorted_keys(
        views(source.artist_mbids@).push(artist_id(artist)),
    )
}

/// The identity of a source track that is found in the library.
pub fn source_semantic_identity(source: &SourceTrack, library_track: &LibraryTrack) -> (identity:
    TrackIdentity)
    ensures
        identifies_source(identity, *source, *library_track),
{
    let artist_name = name_or_key(&source.artist, &library_track.artist_key);
    let mut ids: Vec<String> = Vec::new();
    let mut at: usize = 0;
    while at < source.artist_mbids.len()
        invariant
            at <= source.artist_mbids@.len(),
            views(ids@) =~= views(source.artist_mbids@).take(at as int),
        decreases source.artist_mbids@.len() - at,
    {
        let id = source.artist_mbids[at].clone();
        proof {
            lemma_views_push(ids@, id);
        }
        ids.push(id);
        at += 1;
    }
    assert(views(ids@) =~= views(source.artist_mbids@));
    let id = canonical_artist_id(artist_name.as_str());
    proof {
        lemma_views_push(ids@, id);
    }
    ids.push(id);
    TrackIdentity {
        recording_id: source.id.clone(),
        recording_mbid: copied_text(&source.recording_mbid),
        title_name: name_or_key(&source.title, &library_track.title_key),
        artist_ids: sort_keys(ids),
        artist_name,
    }
}

/// Whether an identity is that of a candidate of the library.
pub open spec fn identifies_candidate(
    identity: CandidateIdentity,
    index: usize,
    track: LibraryTrack,
) -> bool {
    &&& identity.candidate == index
    &&& identity.track.recording_id@ == row_key(track.row_id)
    &&& identity.track.recording_mbid is None
    &&& identity.track.title_name@ == track.title_key@
    &&& identity.track.artist_name@ == track.artist_key@
    &&& views(identity.track.artist_ids@) == seq![artist_id(track.artist_key@)]
}

/// The identity of a candidate of the library.
pub fn candidate_semantic_identity(library_index: usize, library_track: &LibraryTrack) -> (identity:
    CandidateIdentity)
    ensures
        identifies_candidate(identity, library_index, *library_track),
{
    let id = canonical_artist_id(library_track.artist_key.as_str());
    let mut artist_ids: Vec<String> = Vec::new();
    artist_ids.push(id);
    assert(views(artist_ids@) =~= seq![artist_id(library_track.artist_key@)]);
    CandidateIdentity {
        candidate: library_index,
        track: TrackIdentity {
            recording_id: bridge_candidate_id(library_track.row_id),
            recording_mbid: None,
            title_name: library_track.title_key.clone(),
            artist_ids,
            artist_name: library_track.artist_key.clone(),
        },
    }
}

// Finding files.

/// The last of the first `count` tracks with a file.
pub open spec fn last_with_file(library: Seq<LibraryTrack>, file: Seq<char>, count: int) -> Option<
    usize,
>
    decreases count,
{
    if count <= 0 {
        None
    } else if library[count - 1].file@ == file {
        Some((count - 1) as usize)
    } else {
        last_with_file(library, file, count - 1)
    }
}

/// The last track with a file.
pub open spec fn file_index(library: Seq<LibraryTrack>, file: Seq<char>) -> Option<usize> {
    last_with_file(library, file, library.len() as int)
}

/// A track that is found has the file.
pub proof fn lemma_file_index(library: Seq<LibraryTrack>, file: Seq<char>, count: int)
    requires
        0 <= count <= library.len(),
        library.len() <= usize::MAX,
    ensures
        match last_with_file(library, file, count) {
            Some(index) => index < count && library[index as int].file@ == file,
            None => forall|i: int| 0 <= i < count ==> (#[trigger] library[i]).file@ != file,
        },
    decreases count,
{
    if count > 0 {
        lemma_file_index(library, file, count - 1);
    }
}

} // verus!
