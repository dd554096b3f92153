//! The tracks of a playlist as the library knows them, and the candidates that
//! the library offers beside them.

use crate::command::{checked_by, failed, CommandFailure, FailureView};
use crate::library::{
    candidate_semantic_identity, file_index, identifies_candidate, identifies_source,
    last_with_file, lemma_file_index, repeat_key, repeat_text, source_semantic_identity,
    LibraryTrack,
};
use crate::requests::{
    fail_not_analyzed, fail_without_file, index_files, not_analyzed, place_in_library,
    places_in_library, rows_in, without_file, SourceTrack,
};
use crate::route::RouteTrack;
use crate::semantic::{CandidateIdentity, TrackIdentity};
use crate::sequences::in_range;
use crate::text::text_around;
use std::collections::HashSet;
use vstd::hash_map::StringHashMap;
use vstd::prelude::*;

verus! {

// Sources.

/// Why a source cannot be found, if so.
pub open spec fn unresolved(source: SourceTrack, library: Seq<LibraryTrack>) -> Option<FailureView> {
    match source.database_file {
        None => Some(without_file(source)),
        Some(file) => match file_index(library, file@) {
            None => Some(not_analyzed(source)),
            Some(_) => None,
        },
    }
}

/// Why the sources from `at` on cannot be found, if so.
pub open spec fn unresolved_from(
    sources: Seq<SourceTrack>,
    library: Seq<LibraryTrack>,
    at: int,
) -> Option<FailureView>
    decreases sources.len() - at,
{
    if at >= sources.len() {
        None
    } else {
        match unresolved(sources[at], library) {
            Some(failure) => Some(failure),
            None => unresolved_from(sources, library, at + 1),
        }
    }
}

/// A name that a source gives, in the form for repeats, or else the library's
/// key.
pub open spec fn given_key(given: Option<String>, key: Seq<char>) -> Seq<char> {
    match given {
        Some(given) => repeat_text(given@),
        None => key,
    }
}

fn key_given(given: &Option<String>, key: &String) -> (name: String)
    ensures
        name@ == given_key(*given, key@),
{
    match given {
        Some(given) => repeat_key(given.as_str()),
        None => key.clone(),
    }
}

/// The library's track of a source.
pub open spec fn library_track(source: SourceTrack, library: Seq<LibraryTrack>) -> LibraryTrack {
    library[place_in_library(source, library)->Some_0 as int]
}

/// Whether a track is a source with the library's features.
pub open spec fn materializes(
    track: RouteTrack,
    source: SourceTrack,
    library: Seq<LibraryTrack>,
) -> bool {
    let known = library_track(source, library);
    &&& track.features == known.route_track.features
    &&& track.artist_key@ == given_key(source.artist, known.artist_key@)
    &&& track.album_key@ == given_key(source.album, known.route_track.album_key@)
}

/// The artist and the title of a source, in the form for repeats.
pub open spec fn source_name(source: SourceTrack, library: Seq<LibraryTrack>) -> (
    Seq<char>,
    Seq<char>,
) {
    let known = library_track(source, library);
    (given_key(source.artist, known.artist_key@), given_key(source.title, known.title_key@))
}

/// The sources of a playlist, found in the library.
#[derive(Debug)]
pub struct Sources {
    pub places: Vec<usize>,
    pub tracks: Vec<RouteTrack>,
    pub titles: Vec<String>,
    pub identities: Vec<TrackIdentity>,
}

/// Whether these are the first `count` sources.
pub open spec fn materialized_upto(
    found: Sources,
    sources: Seq<SourceTrack>,
    library: Seq<LibraryTrack>,
    count: int,
) -> bool {
    &&& found.places@ =~= places_in_library(sources, library).take(count)
    &&& found.tracks@.len() == count
    &&& found.titles@.len() == count
    &&& found.identities@.len() == count
    &&& forall|i: int|
        0 <= i < count ==> materializes(#[trigger] found.tracks@[i], sources[i], library)
    &&& forall|i: int|
        0 <= i < count ==> (#[trigger] found.titles@[i])@ == source_name(sources[i], library).1
    &&& forall|i: int|
        0 <= i < count ==> identifies_source(
            #[trigger] found.identities@[i],
            sources[i],
            library_track(sources[i], library),
        )
}

/// Whether these are the sources.
pub open spec fn materialized(
    found: Sources,
    sources: Seq<SourceTrack>,
    library: Seq<LibraryTrack>,
) -> bool {
    materialized_upto(found, sources, library, sources.len() as int)
}

// Unique files.

/// The first track at or after `at` whose file an earlier one has, or the
/// number of tracks.
pub open spec fn first_repeated_file(library: Seq<LibraryTrack>, at: int) -> int
    decreases library.len() - at,
{
    if at >= library.len() {
        library.len() as int
    } else if last_with_file(library, library[at].file@, at) is Some {
        at
    } else {
        first_repeated_file(library, at + 1)
    }
}

/// Why a library is refused, if so: two of its tracks have one file.
pub open spec fn library_refusal(library: Seq<LibraryTrack>) -> Option<FailureView> {
    let repeated = first_repeated_file(library, 0);
    if repeated < library.len() {
        Some(
            failed(
                "DATABASE_INVALID"@,
                "duplicate usable Bliss file identity '"@ + library[repeated].file@ + "'"@,
            ),
        )
    } else {
        None
    }
}

/// Indexes a library by file, where no two tracks have one.
pub fn index_unique_files(library: &[LibraryTrack]) -> (indexed: Result<
    StringHashMap<usize>,
    CommandFailure,
>)
    ensures
        checked_by(indexed, library_refusal(library@)),
        indexed matches Ok(index) ==> forall|file: Seq<char>| #[trigger]
            file_index(library@, file) == (if index@.contains_key(file) {
                Some(index@[file])
            } else {
                None
            }),
{
    let mut index: StringHashMap<usize> = StringHashMap::new();
    let mut at: usize = 0;
    while at < library.len()
        invariant
            at <= library@.len(),
            first_repeated_file(library@, 0) == first_repeated_file(library@, at as int),
            forall|file: Seq<char>| #[trigger]
                last_with_file(library@, file, at as int) == (if index@.contains_key(file) {
                    Some(index@[file])
                } else {
                    None
                }),
        decreases library@.len() - at,
    {
        let file = &library[at].file;
        assert(last_with_file(library@, file@, at as int) is Some == index@.contains_key(file@));
        if index.contains_key(file.as_str()) {
            return Err(
                CommandFailure::new(
                    "DATABASE_INVALID",
                    text_around("duplicate usable Bliss file identity '", file.as_str(), "'"),
                ),
            );
        }
        let ghost before = index@;
        index.insert(file.clone(), at);
        assert forall|file: Seq<char>| #[trigger]
            last_with_file(library@, file, at + 1) == (if index@.contains_key(file) {
                Some(index@[file])
            } else {
                None
            }) by {
            assert(last_with_file(library@, file, at as int) == (if before.contains_key(file) {
                Some(before[file])
            } else {
                None
            }));
        }
        at += 1;
    }
    Ok(index)
}

/// Why the sources cannot be taken from the library, if so.
pub open spec fn bridge_sources_refusal(sources: Seq<SourceTrack>, library: Seq<LibraryTrack>) -> Option<
    FailureView,
> {
    match library_refusal(library) {
        Some(failure) => Some(failure),
        None => unresolved_from(sources, library, 0),
    }
}

/// Finds a source by its file.
fn find_source(
    source: &SourceTrack,
    library: &[LibraryTrack],
    index: &StringHashMap<usize>,
) -> (place: Result<usize, CommandFailure>)
    requires
        forall|file: Seq<char>| #[trigger]
            file_index(library@, file) == (if index@.contains_key(file) {
                Some(index@[file])
            } else {
                None
            }),
    ensures
        checked_by(place, unresolved(*source, library@)),
        place matches Ok(found) ==> found < library@.len() && place_in_library(*source, library@)
            == Some(found),
{
    let size: usize = library.len();
    let file = match &source.database_file {
        None => {
            return Err(fail_without_file(source));
        },
        Some(file) => file,
    };
    proof {
        lemma_file_index(library@, file@, size as int);
    }
    match index.get(file.as_str()) {
        None => Err(fail_not_analyzed(source)),
        Some(place) => Ok(*place),
    }
}

/// Takes the sources of a playlist from the library.
pub fn bridge_sources(sources: &[SourceTrack], library: &[LibraryTrack]) -> (found: Result<
    Sources,
    CommandFailure,
>)
    ensures
        checked_by(found, bridge_sources_refusal(sources@, library@)),
        found matches Ok(found) ==> materialized(found, sources@, library@) && in_range(
            found.places@,
            library@.len() as int,
        ),
{
    let index = match index_unique_files(library) {
        Err(failure) => {
            return Err(failure);
        },
        Ok(index) => index,
    };
    let mut found = Sources {
        places: Vec::new(),
        tracks: Vec::new(),
        titles: Vec::new(),
        identities: Vec::new(),
    };
    let mut at: usize = 0;
    while at < sources.len()
        invariant
            at <= sources@.len(),
            library_refusal(library@) is None,
            forall|file: Seq<char>| #[trigger]
                file_index(library@, file) == (if index@.contains_key(file) {
                    Some(index@[file])
                } else {
                    None
                }),
            unresolved_from(sources@, library@, 0) == unresolved_from(
                sources@,
                library@,
                at as int,
            ),
            materialized_upto(found, sources@, library@, at as int),
            in_range(found.places@, library@.len() as int),
        decreases sources@.len() - at,
    {
        let source = &sources[at];
        let place: usize = match find_source(source, library, &index) {
            Err(failure) => {
                return Err(failure);
            },
            Ok(place) => place,
        };
        let known = &library[place];
        found.places.push(place);
        found.tracks.push(
            RouteTrack {
                features: known.route_track.features,
                artist_key: key_given(&source.artist, &known.artist_key),
                album_key: key_given(&source.album, &known.route_track.album_key),
            },
        );
        found.titles.push(key_given(&source.title, &known.title_key));
        found.identities.push(source_semantic_identity(source, known));
        at += 1;
    }
    Ok(found)
}

// Sources for routing alone.

/// A name that a source gives, or else the library's, in the form for repeats.
pub open spec fn routed_key(given: Option<String>, key: Seq<char>) -> Seq<char> {
    match given {
        Some(given) => repeat_text(given@),
        None => repeat_text(key),
    }
}

fn key_routed(given: &Option<String>, key: &String) -> (name: String)
    ensures
        name@ == routed_key(*given, key@),
{
    match given {
        Some(given) => repeat_key(given.as_str()),
        None => repeat_key(key.as_str()),
    }
}

/// Whether a track is a source for routing, with the library's features.
pub open spec fn routes(
    track: RouteTrack,
    source: SourceTrack,
    library: Seq<LibraryTrack>,
) -> bool {
    let known = library_track(source, library);
    &&& track.features == known.route_track.features
    &&& track.artist_key@ == routed_key(source.artist, known.artist_key@)
    &&& track.album_key@ == routed_key(source.album, known.route_track.album_key@)
}

/// Whether these are the sources for routing.
pub open spec fn all_routed(
    tracks: Seq<RouteTrack>,
    sources: Seq<SourceTrack>,
    library: Seq<LibraryTrack>,
) -> bool {
    &&& tracks.len() == sources.len()
    &&& forall|i: int| 0 <= i < sources.len() ==> routes(#[trigger] tracks[i], sources[i], library)
}

/// Takes the sources of a playlist from the library for routing alone.
pub fn route_sources(sources: &[SourceTrack], library: &[LibraryTrack]) -> (found: Result<
    (Vec<usize>, Vec<RouteTrack>),
    CommandFailure,
>)
    ensures
        checked_by(found, unresolved_from(sources@, library@, 0)),
        found matches Ok(found) ==> found.0@ == places_in_library(sources@, library@)
            && all_routed(found.1@, sources@, library@),
{
    let index = index_files(library);
    let mut places: Vec<usize> = Vec::new();
    let mut tracks: Vec<RouteTrack> = Vec::new();
    let mut at: usize = 0;
    while at < sources.len()
        invariant
            at <= sources@.len(),
            forall|file: Seq<char>| #[trigger]
                file_index(library@, file) == (if index@.contains_key(file) {
                    Some(index@[file])
                } else {
                    None
                }),
            unresolved_from(sources@, library@, 0) == unresolved_from(
                sources@,
                library@,
                at as int,
            ),
            places@ =~= places_in_library(sources@, library@).take(at as int),
            tracks@.len() == at,
            forall|i: int| 0 <= i < at ==> routes(#[trigger] tracks@[i], sources@[i], library@),
        decreases sources@.len() - at,
    {
        let source = &sources[at];
        let place: usize = match find_source(source, library, &index) {
            Err(failure) => {
                return Err(failure);
            },
            Ok(place) => place,
        };
        let known = &library[place];
        places.push(place);
        tracks.push(
            RouteTrack {
                features: known.route_track.features,
                artist_key: key_routed(&source.artist, &known.artist_key),
                album_key: key_routed(&source.album, &known.route_track.album_key),
            },
        );
        at += 1;
    }
    assert(places@ =~= places_in_library(sources@, library@));
    Ok((places, tracks))
}

// Candidates.

/// Whether one of the sources has a file.
pub open spec fn file_taken(
    file: Seq<char>,
    sources: Seq<SourceTrack>,
    library: Seq<LibraryTrack>,
) -> bool {
    exists|i: int| 0 <= i < sources.len() && library_track(#[trigger] sources[i], library).file@ == file
}

/// Whether one of the sources has an artist and a title.
pub open spec fn name_taken(
    artist: Seq<char>,
    title: Seq<char>,
    sources: Seq<SourceTrack>,
    library: Seq<LibraryTrack>,
) -> bool {
    exists|i: int|
        0 <= i < sources.len() && source_name(#[trigger] sources[i], library) == (artist, title)
}

/// Whether a track of the library may be added: it is in the inventory, if
/// there is one, and is none of the sources, neither by file nor by artist and
/// title.
pub open spec fn is_eligible(
    track: LibraryTrack,
    sources: Seq<SourceTrack>,
    library: Seq<LibraryTrack>,
    rows: Option<Set<u64>>,
) -> bool {
    &&& rows is Some ==> rows->Some_0.contains(track.row_id)
    &&& !file_taken(track.file@, sources, library)
    &&& !name_taken(track.artist_key@, track.title_key@, sources, library)
}

/// Those of the first `count` tracks of the library that may be added.
pub open spec fn eligible_upto(
    sources: Seq<SourceTrack>,
    library: Seq<LibraryTrack>,
    rows: Option<Set<u64>>,
    count: int,
) -> Seq<usize>
    decreases count,
{
    if count <= 0 {
        seq![]
    } else {
        let before = eligible_upto(sources, library, rows, count - 1);
        if is_eligible(library[count - 1], sources, library, rows) {
            before.push((count - 1) as usize)
        } else {
            before
        }
    }
}

/// The tracks of the library that may be added.
pub open spec fn eligible(
    sources: Seq<SourceTrack>,
    library: Seq<LibraryTrack>,
    rows: Option<Set<u64>>,
) -> Seq<usize> {
    eligible_upto(sources, library, rows, library.len() as int)
}

fn takes_file(found: &Sources, library: &[LibraryTrack], file: &String, Ghost(sources): Ghost<
    Seq<SourceTrack>,
>) -> (taken: bool)
    requires
        materialized(*found, sources, library@),
        in_range(found.places@, library@.len() as int),
    ensures
        taken == file_taken(file@, sources, library@),
{
    let mut at: usize = 0;
    while at < found.places.len()
        invariant
            at <= found.places@.len(),
            found.places@.len() == sources.len(),
            materialized(*found, sources, library@),
            in_range(found.places@, library@.len() as int),
            forall|i: int|
                0 <= i < at ==> library_track(#[trigger] sources[i], library@).file@ != file@,
        decreases found.places@.len() - at,
    {
        assert(found.places@[at as int] == places_in_library(sources, library@)[at as int]);
        assert(found.places@[at as int] < library@.len());
        if library[found.places[at]].file == *file {
            assert(library_track(sources[at as int], library@).file@ == file@);
            return true;
        }
        at += 1;
    }
    false
}

fn takes_name(found: &Sources, artist: &String, title: &String, Ghost(sources): Ghost<
    Seq<SourceTrack>,
>, Ghost(library): Ghost<Seq<LibraryTrack>>) -> (taken: bool)
    requires
        materialized(*found, sources, library),
    ensures
        taken == name_taken(artist@, title@, sources, library),
{
    let mut at: usize = 0;
    while at < found.tracks.len()
        invariant
            at <= found.tracks@.len(),
            found.tracks@.len() == sources.len(),
            materialized(*found, sources, library),
            forall|i: int|
                0 <= i < at ==> source_name(#[trigger] sources[i], library) != (artist@, title@),
        decreases found.tracks@.len() - at,
    {
        assert(materializes(found.tracks@[at as int], sources[at as int], library));
        assert(found.titles@[at as int]@ == source_name(sources[at as int], library).1);
        if found.tracks[at].artist_key == *artist && found.titles[at] == *title {
            assert(source_name(sources[at as int], library) == (artist@, title@));
            return true;
        }
        at += 1;
    }
    false
}

/// Lists the tracks of the library that may be added.
pub fn eligible_candidates(
    found: &Sources,
    sources: &[SourceTrack],
    library: &[LibraryTrack],
    rows: Option<&HashSet<u64>>,
) -> (candidates: Vec<usize>)
    requires
        materialized(*found, sources@, library@),
        in_range(found.places@, library@.len() as int),
    ensures
        candidates@ == eligible(sources@, library@, rows_in(rows)),
{
    broadcast use vstd::std_specs::hash::group_hash_axioms;

    let mut candidates: Vec<usize> = Vec::new();
    let mut at: usize = 0;
    assert(candidates@ =~= eligible_upto(sources@, library@, rows_in(rows), 0));
    while at < library.len()
        invariant
            at <= library@.len(),
            materialized(*found, sources@, library@),
            in_range(found.places@, library@.len() as int),
            candidates@ == eligible_upto(sources@, library@, rows_in(rows), at as int),
        decreases library@.len() - at,
    {
        broadcast use vstd::std_specs::hash::group_hash_axioms;

        let track = &library[at];
        let local: bool = match rows {
            Some(rows) => rows.contains(&track.row_id),
            None => true,
        };
        if local && !takes_file(found, library, &track.file, Ghost(sources@)) && !takes_name(
            found,
            &track.artist_key,
            &track.title_key,
            Ghost(sources@),
            Ghost(library@),
        ) {
            candidates.push(at);
        }
        at += 1;
    }
    candidates
}

/// Whether these are the identities of some tracks of the library.
pub open spec fn all_identified(
    identities: Seq<CandidateIdentity>,
    candidates: Seq<usize>,
    library: Seq<LibraryTrack>,
) -> bool {
    &&& identities.len() == candidates.len()
    &&& forall|i: int|
        0 <= i < candidates.len() ==> identifies_candidate(
            #[trigger] identities[i],
            candidates[i],
            library[candidates[i] as int],
        )
}

/// The identities of some tracks of the library.
pub fn candidate_identities(candidates: &[usize], library: &[LibraryTrack]) -> (identities: Vec<
    CandidateIdentity,
>)
    requires
        in_range(candidates@, library@.len() as int),
    ensures
        all_identified(identities@, candidates@, library@),
{
    let mut identities: Vec<CandidateIdentity> = Vec::new();
    let mut at: usize = 0;
    while at < candidates.len()
        invariant
            at <= candidates@.len(),
            in_range(candidates@, library@.len() as int),
            identities@.len() == at,
            forall|i: int|
                0 <= i < at ==> identifies_candidate(
                    #[trigger] identities@[i],
                    candidates@[i],
                    library@[candidates@[i] as int],
                ),
        decreases candidates@.len() - at,
    {
        let candidate: usize = candidates[at];
        assert(candidates@[at as int] < library@.len());
        identities.push(candidate_semantic_identity(candidate, &library[candidate]));
        at += 1;
    }
    identities
}

pub proof fn lemma_eligible(
    sources: Seq<SourceTrack>,
    library: Seq<LibraryTrack>,
    rows: Option<Set<u64>>,
    count: int,
)
    requires
        0 <= count <= library.len() <= usize::MAX,
    ensures
        forall|i: int|
            0 <= i < eligible_upto(sources, library, rows, count).len() ==> (
            #[trigger] eligible_upto(sources, library, rows, count)[i]) < count && is_eligible(
                library[eligible_upto(sources, library, rows, count)[i] as int],
                sources,
                library,
                rows,
            ),
        eligible_upto(sources, library, rows, count).no_duplicates(),
        eligible_upto(sources, library, rows, count).len() <= count,
    decreases count,
{
    if count > 0 {
        lemma_eligible(sources, library, rows, count - 1);
    }
}

/// Candidates come from the inventory alone, each once, and none of them is a
/// source, neither by its place nor by its file nor by artist and title.
pub proof fn candidates_are_local_and_new(
    sources: Seq<SourceTrack>,
    library: Seq<LibraryTrack>,
    rows: Option<Set<u64>>,
)
    requires
        library.len() <= usize::MAX,
    ensures
        ({
            let candidates = eligible(sources, library, rows);
            let places = places_in_library(sources, library);
            &&& candidates.no_duplicates()
            &&& in_range(candidates, library.len() as int)
            &&& forall|i: int|
                0 <= i < candidates.len() ==> is_eligible(
                    library[#[trigger] candidates[i] as int],
                    sources,
                    library,
                    rows,
                ) && !places.contains(candidates[i])
        }),
{
    let candidates = eligible(sources, library, rows);
    let places = places_in_library(sources, library);
    lemma_eligible(sources, library, rows, library.len() as int);
    assert forall|i: int| 0 <= i < candidates.len() implies is_eligible(
        library[#[trigger] candidates[i] as int],
        sources,
        library,
        rows,
    ) && !places.contains(candidates[i]) by {
        if places.contains(candidates[i]) {
            let j = choose|j: int| 0 <= j < places.len() && places[j] == candidates[i];
            assert(library_track(sources[j], library).file@ == library[candidates[i] as int].file@);
            assert(file_taken(library[candidates[i] as int].file@, sources, library));
        }
    }
}

} // verus!
