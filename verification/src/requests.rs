//! What a request asks for, and when it is refused.

use crate::artifacts::{check_inventory, inventory_refusal, Artifact};
use crate::command::{checked_by, failed, CommandFailure, FailureView};
use crate::library::{file_index, last_with_file, lemma_file_index, LibraryTrack};
use crate::semantic::{bundle_refusal, EvidenceBundle};
use crate::text::{is_text, text_around};
use std::collections::HashSet;
use vstd::hash_map::StringHashMap;
use vstd::hash_set::StringHashSet;
use vstd::prelude::*;

verus! {

// Requests.

/// A request.
#[derive(Debug)]
pub struct Request {
    pub job_id: String,
    pub artifacts: Artifacts,
    pub source_tracks: Vec<SourceTrack>,
    pub scoring: ScoringSettings,
    pub route: RouteSettings,
    pub repeat_windows: RepeatWindows,
    pub extension: ExtensionSettings,
    pub selection: SelectionSettings,
    pub semantic_evidence: Artifact,
}

/// The artifacts that a request names.
#[derive(Debug)]
pub struct Artifacts {
    pub database: Artifact,
    pub learned_matrix: Option<Artifact>,
    pub local_candidate_inventory: Option<Artifact>,
}

/// A track of the playlist.
#[derive(Debug)]
pub struct SourceTrack {
    pub id: String,
    pub database_file: Option<String>,
    pub title: Option<String>,
    pub artist: Option<String>,
    pub album: Option<String>,
    pub recording_mbid: Option<String>,
    pub artist_mbids: Vec<String>,
}

/// How transitions are scored. The weights, one for each feature, count parts of
/// `UNIT` to one.
#[derive(Debug)]
pub struct ScoringSettings {
    pub algorithm: String,
    pub adaptive: Option<AdaptiveSettings>,
    pub feature_weights: Option<Vec<i64>>,
}

/// How many features a track has.
pub const FEATURE_COUNT: usize = 23;

/// How adaptive scoring works.
#[derive(Clone, Copy, Debug, PartialEq, Eq)]
pub struct AdaptiveSettings {
    pub seed_limit: usize,
    pub learned_percent: u16,
}

/// How the route is chosen.
#[derive(Debug)]
pub struct RouteSettings {
    pub ordering_policy: String,
    pub objective: String,
    pub start_track_id: Option<String>,
    pub destination_track_id: Option<String>,
    pub search: SearchSettings,
}

/// How the route is searched for.
#[derive(Clone, Copy, Debug, PartialEq, Eq)]
pub struct SearchSettings {
    pub deterministic_seed: u64,
    pub restart_count: usize,
    pub time_budget_ms: Option<u64>,
}

/// How far apart repeats must be.
#[derive(Clone, Copy, Debug, PartialEq, Eq)]
pub struct RepeatWindows {
    pub artist: usize,
    pub album: usize,
    pub track: usize,
}

/// How the playlist is extended. The trigger counts parts of `UNIT` to one.
#[derive(Debug)]
pub struct ExtensionSettings {
    pub mode: String,
    pub additional_track_count: Option<usize>,
    pub target_track_count: Option<usize>,
    pub allow_opening_track: Option<bool>,
    pub allow_closing_track: Option<bool>,
    pub candidate_limit: Option<usize>,
    pub max_tracks_per_gap: Option<usize>,
    pub max_added_tracks: Option<usize>,
    pub trigger_percentile: Option<i64>,
    pub shortlist_limit: Option<usize>,
    pub destination_mode: Option<String>,
    pub min_added_tracks: Option<usize>,
    pub search_effort: Option<String>,
}

/// How much evidence and chance decide among acoustic equals, in percent.
#[derive(Clone, Copy, Debug, PartialEq, Eq)]
pub struct SelectionSettings {
    pub variation_percent: u8,
    pub generation_seed: u64,
    pub track_guidance_percent: u8,
    pub artist_guidance_percent: u8,
}

impl Default for SelectionSettings {
    /// Neither variation nor guidance.
    fn default() -> (settings: Self)
        ensures
            settings == (SelectionSettings {
                variation_percent: 0,
                generation_seed: 0,
                track_guidance_percent: 0,
                artist_guidance_percent: 0,
            }),
    {
        SelectionSettings {
            variation_percent: 0,
            generation_seed: 0,
            track_guidance_percent: 0,
            artist_guidance_percent: 0,
        }
    }
}

// Preparing a request.

/// Why a database is refused by its schema, if so. `supported` is the identity
/// that the database reader supports.
pub open spec fn database_refusal(database: Artifact, supported: Seq<char>) -> Option<FailureView> {
    match database@.schema_identity {
        Some(identity) => if identity != "TracksV2"@ && identity != supported {
            Some(
                failed(
                    "DATABASE_SCHEMA_MISMATCH"@,
                    "unsupported database schema identity '"@ + identity + "'"@,
                ),
            )
        } else {
            None
        },
        None => None,
    }
}

/// Checks the schema of a database.
pub fn check_database(database: &Artifact, supported: &str) -> (checked: Result<
    (),
    CommandFailure,
>)
    ensures
        checked_by(checked, database_refusal(*database, supported@)),
{
    if let Some(identity) = &database.schema_identity {
        if !is_text(identity.as_str(), "TracksV2") && !is_text(identity.as_str(), supported) {
            return Err(
                CommandFailure::new(
                    "DATABASE_SCHEMA_MISMATCH",
                    text_around("unsupported database schema identity '", identity.as_str(), "'"),
                ),
            );
        }
    }
    Ok(())
}

/// Why evidence is refused by its schema, if so.
pub open spec fn evidence_refusal(evidence: Artifact) -> Option<FailureView> {
    match evidence@.schema_identity {
        Some(identity) => if identity != "semantic-evidence-v1"@ {
            Some(
                failed(
                    "SEMANTIC_SCHEMA_MISMATCH"@,
                    "unsupported semantic evidence schema identity '"@ + identity + "'"@,
                ),
            )
        } else {
            None
        },
        None => None,
    }
}

/// Checks the schema of evidence.
pub fn check_evidence(evidence: &Artifact) -> (checked: Result<(), CommandFailure>)
    ensures
        checked_by(checked, evidence_refusal(*evidence)),
{
    if let Some(identity) = &evidence.schema_identity {
        if !is_text(identity.as_str(), "semantic-evidence-v1") {
            return Err(
                CommandFailure::new(
                    "SEMANTIC_SCHEMA_MISMATCH",
                    text_around(
                        "unsupported semantic evidence schema identity '",
                        identity.as_str(),
                        "'",
                    ),
                ),
            );
        }
    }
    Ok(())
}

/// The settings that scoring goes by. Static scoring looks back at one track
/// unless it is told otherwise.
pub open spec fn settings_of(scoring: ScoringSettings) -> Option<AdaptiveSettings> {
    match scoring.adaptive {
        Some(settings) => Some(settings),
        None => if scoring.algorithm@ == "static"@ {
            Some(AdaptiveSettings { seed_limit: 1, learned_percent: 0 })
        } else {
            None
        },
    }
}

/// Finds the settings that scoring goes by.
pub fn find_settings(scoring: &ScoringSettings) -> (settings: Option<AdaptiveSettings>)
    ensures
        settings == settings_of(*scoring),
{
    match scoring.adaptive {
        Some(settings) => Some(settings),
        None => if is_text(scoring.algorithm.as_str(), "static") {
            Some(AdaptiveSettings { seed_limit: 1, learned_percent: 0 })
        } else {
            None
        },
    }
}

/// Why scoring cannot measure any transition, if so. Adaptive scoring needs the
/// learned matrix or the feature weights, static scoring the weights.
pub open spec fn measure_refusal(scoring: ScoringSettings, has_matrix: bool) -> Option<
    FailureView,
> {
    if scoring.feature_weights is Some && scoring.feature_weights->Some_0@.len() != FEATURE_COUNT {
        Some(failed("INVALID_REQUEST"@, "scoring.feature_weights must hold 23 weights"@))
    } else if scoring.algorithm@ == "learned_matrix"@ && !has_matrix {
        Some(
            failed(
                "MATRIX_REQUIRED"@,
                "learned_matrix scoring requires artifacts.learned_matrix"@,
            ),
        )
    } else if scoring.algorithm@ == "adaptive"@ && !has_matrix && scoring.feature_weights is None {
        Some(
            failed(
                "MATRIX_REQUIRED"@,
                "adaptive scoring requires artifacts.learned_matrix or scoring.feature_weights"@,
            ),
        )
    } else if scoring.algorithm@ == "static"@ && scoring.feature_weights is None {
        Some(
            failed(
                "FEATURE_WEIGHTS_REQUIRED"@,
                "static scoring requires scoring.feature_weights"@,
            ),
        )
    } else {
        None
    }
}

/// Checks whether scoring can measure transitions.
pub fn check_measures(scoring: &ScoringSettings, has_matrix: bool) -> (checked: Result<
    (),
    CommandFailure,
>)
    ensures
        checked_by(checked, measure_refusal(*scoring, has_matrix)),
{
    if let Some(weights) = &scoring.feature_weights {
        if weights.len() != FEATURE_COUNT {
            return Err(
                CommandFailure::plain(
                    "INVALID_REQUEST",
                    "scoring.feature_weights must hold 23 weights",
                ),
            );
        }
    }
    let algorithm = scoring.algorithm.as_str();
    let weighted: bool = scoring.feature_weights.is_some();
    if is_text(algorithm, "learned_matrix") && !has_matrix {
        return Err(
            CommandFailure::plain(
                "MATRIX_REQUIRED",
                "learned_matrix scoring requires artifacts.learned_matrix",
            ),
        );
    }
    if is_text(algorithm, "adaptive") && !has_matrix && !weighted {
        return Err(
            CommandFailure::plain(
                "MATRIX_REQUIRED",
                "adaptive scoring requires artifacts.learned_matrix or scoring.feature_weights",
            ),
        );
    }
    if is_text(algorithm, "static") && !weighted {
        return Err(
            CommandFailure::plain(
                "FEATURE_WEIGHTS_REQUIRED",
                "static scoring requires scoring.feature_weights",
            ),
        );
    }
    Ok(())
}

/// What the distances from a window of tracks are measured by.
#[derive(Clone, Copy, Debug, PartialEq, Eq, Structural)]
pub enum Measure {
    /// The feature weights alone.
    FeatureWeights,
    /// The learned matrix alone.
    LearnedMatrix,
    /// The learned matrix blended with the variance of the window.
    Blend,
    /// The variance of the window alone.
    Variance,
}

/// The measure for a window of `seeds` tracks. Static scoring always goes by the
/// weights. Adaptive scoring goes by the learned matrix where there is one, and
/// blends it with the variance of two or more tracks; without one it goes by the
/// variance, and by the weights where the window has one track.
pub open spec fn measure_for(algorithm: Seq<char>, has_matrix: bool, seeds: int) -> Measure {
    if algorithm == "static"@ {
        Measure::FeatureWeights
    } else if seeds >= 2 {
        if has_matrix {
            Measure::Blend
        } else {
            Measure::Variance
        }
    } else if has_matrix {
        Measure::LearnedMatrix
    } else {
        Measure::FeatureWeights
    }
}

/// Chooses the measure for a window of tracks.
pub fn choose_measure(algorithm: &str, has_matrix: bool, seeds: usize) -> (measure: Measure)
    ensures
        measure == measure_for(algorithm@, has_matrix, seeds as int),
{
    if is_text(algorithm, "static") {
        Measure::FeatureWeights
    } else if seeds >= 2 {
        if has_matrix {
            Measure::Blend
        } else {
            Measure::Variance
        }
    } else if has_matrix {
        Measure::LearnedMatrix
    } else {
        Measure::FeatureWeights
    }
}

/// Whatever measure an accepted request calls for, the request supplies it.
pub proof fn measures_are_supplied(scoring: ScoringSettings, has_matrix: bool, seeds: int)
    requires
        measure_refusal(scoring, has_matrix) is None,
        scoring.algorithm@ == "adaptive"@ || scoring.algorithm@ == "static"@,
    ensures
        ({
            let measure = measure_for(scoring.algorithm@, has_matrix, seeds);
            &&& measure == Measure::FeatureWeights ==> scoring.feature_weights is Some
                && scoring.feature_weights->Some_0@.len() == FEATURE_COUNT
            &&& measure == Measure::LearnedMatrix || measure == Measure::Blend ==> has_matrix
        }),
{
}

/// The pieces of work that preparing a request takes, in order.
#[derive(Clone, Copy, Debug, PartialEq, Eq, Structural)]
pub enum Work {
    Begin,
    ReadCache,
    ReadDatabase,
    ReadInventory,
    ReadMatrix,
    ReadEvidence,
    ResolveSources,
    Done,
}

/// The place of a piece of work in the order.
pub open spec fn work_place(work: Work) -> int {
    match work {
        Work::Begin => 0,
        Work::ReadCache => 1,
        Work::ReadDatabase => 2,
        Work::ReadInventory => 3,
        Work::ReadMatrix => 4,
        Work::ReadEvidence => 5,
        Work::ResolveSources => 6,
        Work::Done => 7,
    }
}

/// What follows once the learned matrix is read or not needed.
pub open spec fn work_after_matrix(request: Request) -> Result<Work, FailureView> {
    match evidence_refusal(request.semantic_evidence) {
        Some(failure) => Err(failure),
        None => Ok(Work::ReadEvidence),
    }
}

/// What follows once the inventory is read or not asked for.
pub open spec fn work_after_inventory(request: Request) -> Result<Work, FailureView> {
    match measure_refusal(request.scoring, request.artifacts.learned_matrix is Some) {
        Some(failure) => Err(failure),
        None => if request.artifacts.learned_matrix is Some {
            Ok(Work::ReadMatrix)
        } else {
            work_after_matrix(request)
        },
    }
}

/// What follows once the library is there.
pub open spec fn work_after_library(request: Request) -> Result<Work, FailureView> {
    match request.artifacts.local_candidate_inventory {
        Some(inventory) => match inventory_refusal(inventory@, request.artifacts.database@) {
            Some(failure) => Err(failure),
            None => Ok(Work::ReadInventory),
        },
        None => work_after_inventory(request),
    }
}

/// What follows a piece of work. The cache is read only where there is one for
/// a database with an identity, and the database only where the cache does not
/// serve.
pub open spec fn work_after(
    request: Request,
    supported: Seq<char>,
    has_cache: bool,
    done: Work,
    cache_hit: bool,
) -> Result<Work, FailureView> {
    match done {
        Work::Begin => match database_refusal(request.artifacts.database, supported) {
            Some(failure) => Err(failure),
            None => if has_cache && request.artifacts.database.cache_identity is Some {
                Ok(Work::ReadCache)
            } else {
                Ok(Work::ReadDatabase)
            },
        },
        Work::ReadCache => if cache_hit {
            work_after_library(request)
        } else {
            Ok(Work::ReadDatabase)
        },
        Work::ReadDatabase => work_after_library(request),
        Work::ReadInventory => work_after_inventory(request),
        Work::ReadMatrix => work_after_matrix(request),
        Work::ReadEvidence => Ok(Work::ResolveSources),
        Work::ResolveSources => Ok(Work::Done),
        Work::Done => Ok(Work::Done),
    }
}

fn after_matrix(request: &Request) -> (next: Result<Work, CommandFailure>)
    ensures
        match work_after_matrix(*request) {
            Ok(work) => next == Ok::<Work, CommandFailure>(work),
            Err(failure) => next is Err && next->Err_0@ == failure,
        },
{
    match check_evidence(&request.semantic_evidence) {
        Err(failure) => Err(failure),
        Ok(_) => Ok(Work::ReadEvidence),
    }
}

fn after_inventory(request: &Request) -> (next: Result<Work, CommandFailure>)
    ensures
        match work_after_inventory(*request) {
            Ok(work) => next == Ok::<Work, CommandFailure>(work),
            Err(failure) => next is Err && next->Err_0@ == failure,
        },
{
    let has_matrix: bool = request.artifacts.learned_matrix.is_some();
    match check_measures(&request.scoring, has_matrix) {
        Err(failure) => Err(failure),
        Ok(_) => if has_matrix {
            Ok(Work::ReadMatrix)
        } else {
            after_matrix(request)
        },
    }
}

fn after_library(request: &Request) -> (next: Result<Work, CommandFailure>)
    ensures
        match work_after_library(*request) {
            Ok(work) => next == Ok::<Work, CommandFailure>(work),
            Err(failure) => next is Err && next->Err_0@ == failure,
        },
{
    match &request.artifacts.local_candidate_inventory {
        Some(inventory) => match check_inventory(inventory, &request.artifacts.database) {
            Err(failure) => Err(failure),
            Ok(_) => Ok(Work::ReadInventory),
        },
        None => after_inventory(request),
    }
}

/// Decides what follows a piece of work, or why the request is refused there.
pub fn next_work(
    request: &Request,
    supported: &str,
    has_cache: bool,
    done: Work,
    cache_hit: bool,
) -> (next: Result<Work, CommandFailure>)
    ensures
        match work_after(*request, supported@, has_cache, done, cache_hit) {
            Ok(work) => next == Ok::<Work, CommandFailure>(work),
            Err(failure) => next is Err && next->Err_0@ == failure,
        },
{
    match done {
        Work::Begin => match check_database(&request.artifacts.database, supported) {
            Err(failure) => Err(failure),
            Ok(_) => if has_cache && request.artifacts.database.cache_identity.is_some() {
                Ok(Work::ReadCache)
            } else {
                Ok(Work::ReadDatabase)
            },
        },
        Work::ReadCache => if cache_hit {
            after_library(request)
        } else {
            Ok(Work::ReadDatabase)
        },
        Work::ReadDatabase => after_library(request),
        Work::ReadInventory => after_inventory(request),
        Work::ReadMatrix => after_matrix(request),
        Work::ReadEvidence => Ok(Work::ResolveSources),
        Work::ResolveSources => Ok(Work::Done),
        Work::Done => Ok(Work::Done),
    }
}

/// Preparing a request only goes forward, so that it ends.
pub proof fn preparing_goes_forward(
    request: Request,
    supported: Seq<char>,
    has_cache: bool,
    done: Work,
    cache_hit: bool,
)
    requires
        done != Work::Done,
    ensures
        work_after(request, supported, has_cache, done, cache_hit) matches Ok(next) ==> work_place(
            done,
        ) < work_place(next),
{
}

/// Evidence is read, and sources are resolved, of no request that any check on
/// the way refuses.
pub proof fn prepared_requests_pass_every_check(request: Request, supported: Seq<char>)
    requires
        work_after(request, supported, false, Work::Begin, false) is Ok,
        work_after_library(request) is Ok,
        request.artifacts.local_candidate_inventory is Some ==> work_after_inventory(
            request,
        ) is Ok,
        request.artifacts.learned_matrix is Some ==> work_after_matrix(request) is Ok,
    ensures
        database_refusal(request.artifacts.database, supported) is None,
        request.artifacts.local_candidate_inventory matches Some(inventory)
            ==> inventory_refusal(inventory@, request.artifacts.database@) is None,
        measure_refusal(request.scoring, request.artifacts.learned_matrix is Some) is None,
        evidence_refusal(request.semantic_evidence) is None,
{
}

/// How a library came about.
pub open spec fn cache_state_text(has_cache: bool, has_identity: bool, hit: bool) -> Seq<char> {
    if hit {
        "hit"@
    } else if has_cache && has_identity {
        "miss"@
    } else {
        "disabled"@
    }
}

/// Says how a library came about.
pub fn cache_state(has_cache: bool, has_identity: bool, hit: bool) -> (state: &'static str)
    ensures
        state@ == cache_state_text(has_cache, has_identity, hit),
{
    if hit {
        "hit"
    } else if has_cache && has_identity {
        "miss"
    } else {
        "disabled"
    }
}

// Resolving sources.

/// The identifiers of the first `count` sources.
pub open spec fn ids_upto(sources: Seq<SourceTrack>, count: int) -> Set<Seq<char>>
    decreases count,
{
    if count <= 0 {
        Set::empty()
    } else {
        ids_upto(sources, count - 1).insert(sources[count - 1].id@)
    }
}

/// The files of the first `count` sources.
pub open spec fn files_upto(sources: Seq<SourceTrack>, count: int) -> Set<Seq<char>>
    decreases count,
{
    if count <= 0 {
        Set::empty()
    } else {
        match sources[count - 1].database_file {
            Some(file) => files_upto(sources, count - 1).insert(file@),
            None => files_upto(sources, count - 1),
        }
    }
}

/// The refusal of a source without a file.
pub open spec fn without_file(source: SourceTrack) -> FailureView {
    failed(
        "TRACK_IDENTITY_INCOMPLETE"@,
        "source track '"@ + source.id@ + "' has no database_file identity"@,
    )
}

/// The refusal of a source that the library lacks.
pub open spec fn not_analyzed(source: SourceTrack) -> FailureView {
    failed(
        "TRACK_NOT_ANALYZED"@,
        "source track '"@ + source.id@ + "' is absent or ignored in the Bliss database"@,
    )
}

/// Why a source is refused, if so: it repeats an identifier, has no file,
/// repeats a file, is not in the library, or is not in the inventory.
pub open spec fn source_refusal(
    sources: Seq<SourceTrack>,
    library: Seq<LibraryTrack>,
    rows: Option<Set<u64>>,
    at: int,
) -> Option<FailureView> {
    let source = sources[at];
    if ids_upto(sources, at).contains(source.id@) {
        Some(
            failed(
                "DUPLICATE_SOURCE_TRACK"@,
                "duplicate source track id '"@ + source.id@ + "'"@,
            ),
        )
    } else {
        match source.database_file {
            None => Some(without_file(source)),
            Some(file) => if files_upto(sources, at).contains(file@) {
                Some(
                    failed(
                        "DUPLICATE_SOURCE_TRACK"@,
                        "duplicate Bliss file identity '"@ + file@ + "'"@,
                    ),
                )
            } else {
                match file_index(library, file@) {
                    None => Some(not_analyzed(source)),
                    Some(index) => if rows is Some && !rows->Some_0.contains(
                        library[index as int].row_id,
                    ) {
                        Some(
                            failed(
                                "SOURCE_NOT_IN_LOCAL_CANDIDATE_INVENTORY"@,
                                "source track '"@ + source.id@
                                    + "' is not present in the frozen LMS-local inventory"@,
                            ),
                        )
                    } else {
                        None
                    },
                }
            },
        }
    }
}

/// Why the sources from `at` on are refused, if so.
pub open spec fn sources_refusal_from(
    sources: Seq<SourceTrack>,
    library: Seq<LibraryTrack>,
    rows: Option<Set<u64>>,
    at: int,
) -> Option<FailureView>
    decreases sources.len() - at,
{
    if at >= sources.len() {
        None
    } else {
        match source_refusal(sources, library, rows, at) {
            Some(failure) => Some(failure),
            None => sources_refusal_from(sources, library, rows, at + 1),
        }
    }
}

/// Why the sources are refused, if so.
pub open spec fn sources_refusal(
    sources: Seq<SourceTrack>,
    library: Seq<LibraryTrack>,
    rows: Option<Set<u64>>,
) -> Option<FailureView> {
    sources_refusal_from(sources, library, rows, 0)
}

/// The place of a source in the library.
pub open spec fn place_in_library(source: SourceTrack, library: Seq<LibraryTrack>) -> Option<usize> {
    match source.database_file {
        Some(file) => file_index(library, file@),
        None => None,
    }
}

/// The places of the sources in the library.
pub open spec fn places_in_library(sources: Seq<SourceTrack>, library: Seq<LibraryTrack>) -> Seq<
    usize,
> {
    Seq::new(sources.len(), |i: int| place_in_library(sources[i], library)->Some_0)
}

/// The set of rows, where there is one.
pub open spec fn rows_in(rows: Option<&HashSet<u64>>) -> Option<Set<u64>> {
    match rows {
        Some(rows) => Some(rows@),
        None => None,
    }
}

/// Indexes a library by file; of two tracks with one file the later counts.
pub fn index_files(library: &[LibraryTrack]) -> (index: StringHashMap<usize>)
    ensures
        forall|file: Seq<char>| #[trigger]
            file_index(library@, file) == (if index@.contains_key(file) {
                Some(index@[file])
            } else {
                None
            }),
{
    let mut index: StringHashMap<usize> = StringHashMap::new();
    let mut at: usize = 0;
    while at < library.len()
        invariant
            at <= library@.len(),
            forall|file: Seq<char>| #[trigger]
                last_with_file(library@, file, at as int) == (if index@.contains_key(file) {
                    Some(index@[file])
                } else {
                    None
                }),
        decreases library@.len() - at,
    {
        let ghost before = index@;
        index.insert(library[at].file.clone(), at);
        assert forall|file: Seq<char>| #[trigger]
            last_with_file(library@, file, at + 1) == (if index@.contains_key(file) {
                Some(index@[file])
            } else {
                None
            }) by {
            let earlier = last_with_file(library@, file, at as int);
            assert(earlier == (if before.contains_key(file) {
                Some(before[file])
            } else {
                None
            }));
        }
        at += 1;
    }
    index
}

/// Finds every source in the library, or says why the sources are refused.
pub fn resolve_sources(
    sources: &[SourceTrack],
    library: &[LibraryTrack],
    rows: Option<&HashSet<u64>>,
) -> (resolved: Result<Vec<usize>, CommandFailure>)
    ensures
        checked_by(resolved, sources_refusal(sources@, library@, rows_in(rows))),
        resolved matches Ok(places) ==> places@ == places_in_library(sources@, library@),
{
    broadcast use vstd::std_specs::hash::group_hash_axioms;

    let index = index_files(library);
    let size: usize = library.len();
    let mut ids = StringHashSet::new();
    let mut files = StringHashSet::new();
    let mut places: Vec<usize> = Vec::new();
    let mut at: usize = 0;
    assert(ids@ =~= ids_upto(sources@, 0));
    assert(files@ =~= files_upto(sources@, 0));
    while at < sources.len()
        invariant
            at <= sources@.len(),
            size == library@.len(),
            ids@ == ids_upto(sources@, at as int),
            files@ == files_upto(sources@, at as int),
            forall|file: Seq<char>| #[trigger]
                file_index(library@, file) == (if index@.contains_key(file) {
                    Some(index@[file])
                } else {
                    None
                }),
            places@ =~= places_in_library(sources@, library@).take(at as int),
            sources_refusal(sources@, library@, rows_in(rows)) == sources_refusal_from(
                sources@,
                library@,
                rows_in(rows),
                at as int,
            ),
        decreases sources@.len() - at,
    {
        broadcast use vstd::std_specs::hash::group_hash_axioms;

        let source = &sources[at];
        if ids.contains(source.id.as_str()) {
            return Err(
                CommandFailure::new(
                    "DUPLICATE_SOURCE_TRACK",
                    text_around("duplicate source track id '", source.id.as_str(), "'"),
                ),
            );
        }
        let file = match &source.database_file {
            None => {
                return Err(fail_without_file(source));
            },
            Some(file) => file,
        };
        if files.contains(file.as_str()) {
            return Err(
                CommandFailure::new(
                    "DUPLICATE_SOURCE_TRACK",
                    text_around("duplicate Bliss file identity '", file.as_str(), "'"),
                ),
            );
        }
        let place: usize = match index.get(file.as_str()) {
            None => {
                return Err(fail_not_analyzed(source));
            },
            Some(place) => *place,
        };
        proof {
            lemma_file_index(library@, file@, library@.len() as int);
        }
        if let Some(rows) = rows {
            if !rows.contains(&library[place].row_id) {
                return Err(
                    CommandFailure::new(
                        "SOURCE_NOT_IN_LOCAL_CANDIDATE_INVENTORY",
                        text_around(
                            "source track '",
                            source.id.as_str(),
                            "' is not present in the frozen LMS-local inventory",
                        ),
                    ),
                );
            }
        }
        ids.insert(source.id.clone());
        files.insert(file.clone());
        places.push(place);
        at += 1;
    }
    assert(places@ =~= places_in_library(sources@, library@));
    Ok(places)
}

pub(crate) fn fail_without_file(source: &SourceTrack) -> (failure: CommandFailure)
    ensures
        failure@ == without_file(*source),
{
    CommandFailure::new(
        "TRACK_IDENTITY_INCOMPLETE",
        text_around(
            "source track '",
            source.id.as_str(),
            "' has no database_file identity",
        ),
    )
}

pub(crate) fn fail_not_analyzed(source: &SourceTrack) -> (failure: CommandFailure)
    ensures
        failure@ == not_analyzed(*source),
{
    CommandFailure::new(
        "TRACK_NOT_ANALYZED",
        text_around(
            "source track '",
            source.id.as_str(),
            "' is absent or ignored in the Bliss database",
        ),
    )
}

proof fn lemma_ids_upto(sources: Seq<SourceTrack>, count: int, i: int)
    requires
        0 <= i < count <= sources.len(),
    ensures
        ids_upto(sources, count).contains(sources[i].id@),
        sources[i].database_file matches Some(file) ==> files_upto(sources, count).contains(file@),
    decreases count,
{
    if i < count - 1 {
        lemma_ids_upto(sources, count - 1, i);
    }
}

proof fn lemma_no_source_refused(
    sources: Seq<SourceTrack>,
    library: Seq<LibraryTrack>,
    rows: Option<Set<u64>>,
    at: int,
    i: int,
)
    requires
        0 <= at <= i < sources.len(),
        sources_refusal_from(sources, library, rows, at) is None,
    ensures
        source_refusal(sources, library, rows, i) is None,
    decreases i - at,
{
    if at < i {
        lemma_no_source_refused(sources, library, rows, at + 1, i);
    }
}

/// Accepted sources are all in the library and in the inventory, and no two of
/// them share an identifier or a file.
pub proof fn accepted_sources_are_distinct_and_known(
    sources: Seq<SourceTrack>,
    library: Seq<LibraryTrack>,
    rows: Option<Set<u64>>,
)
    requires
        library.len() <= usize::MAX,
        sources_refusal(sources, library, rows) is None,
    ensures
        ({
            let places = places_in_library(sources, library);
            &&& forall|i: int|
                0 <= i < sources.len() ==> (#[trigger] places[i]) < library.len()
                    && sources[i].database_file is Some && library[places[i] as int].file@
                    == sources[i].database_file->Some_0@ && (rows is Some
                    ==> rows->Some_0.contains(library[places[i] as int].row_id))
            &&& forall|i: int, j: int|
                0 <= i < j < sources.len() ==> (#[trigger] sources[i]).id@ != (
                #[trigger] sources[j]).id@
            &&& forall|i: int, j: int|
                0 <= i < j < sources.len() ==> #[trigger] places[i] != #[trigger] places[j]
        }),
{
    let places = places_in_library(sources, library);
    assert forall|i: int| 0 <= i < sources.len() implies (#[trigger] places[i]) < library.len()
        && sources[i].database_file is Some && library[places[i] as int].file@
        == sources[i].database_file->Some_0@ && (rows is Some ==> rows->Some_0.contains(
        library[places[i] as int].row_id,
    )) by {
        lemma_no_source_refused(sources, library, rows, 0, i);
        lemma_file_index(library, sources[i].database_file->Some_0@, library.len() as int);
    }
    assert forall|i: int, j: int| 0 <= i < j < sources.len() implies (#[trigger] sources[i]).id@
        != (#[trigger] sources[j]).id@ by {
        lemma_no_source_refused(sources, library, rows, 0, j);
        lemma_ids_upto(sources, j, i);
    }
    assert forall|i: int, j: int| 0 <= i < j < sources.len() implies #[trigger] places[i]
        != #[trigger] places[j] by {
        lemma_no_source_refused(sources, library, rows, 0, i);
        lemma_no_source_refused(sources, library, rows, 0, j);
        lemma_ids_upto(sources, j, i);
        lemma_file_index(library, sources[i].database_file->Some_0@, library.len() as int);
        lemma_file_index(library, sources[j].database_file->Some_0@, library.len() as int);
    }
}

// Evidence and summaries.

/// Why evidence is refused by what it holds, if so.
pub open spec fn bundle_failure(bundle: EvidenceBundle) -> Option<FailureView> {
    match bundle_refusal(bundle.schema_version, bundle.providers@, bundle.edges@) {
        Some(error) => Some(
            failed(
                "SEMANTIC_EVIDENCE_INVALID"@,
                "invalid semantic evidence: "@ + error.text() + ""@,
            ),
        ),
        None => None,
    }
}

/// Checks what evidence holds.
pub fn check_bundle(bundle: &EvidenceBundle) -> (checked: Result<(), CommandFailure>)
    ensures
        checked_by(checked, bundle_failure(*bundle)),
{
    match bundle.validate() {
        Ok(_) => Ok(()),
        Err(error) => Err(
            CommandFailure::new(
                "SEMANTIC_EVIDENCE_INVALID",
                text_around("invalid semantic evidence: ", error.message().as_str(), ""),
            ),
        ),
    }
}

/// The digests of what a request was checked with.
#[derive(Debug, PartialEq, Eq)]
pub struct Digests {
    pub request: String,
    pub database: String,
    pub learned_matrix: Option<String>,
    pub local_candidate_inventory: Option<String>,
    pub semantic_evidence: String,
}

/// What is reported of a valid request.
#[derive(Debug, PartialEq, Eq)]
pub struct ValidationSummary {
    pub job_id: String,
    pub database_schema: String,
    pub digests: Digests,
    pub local_candidate_track_count: Option<usize>,
    pub source_track_count: usize,
}

/// Reports a valid request.
pub fn summarize(
    request: &Request,
    supported: &str,
    digests: Digests,
    rows: Option<&HashSet<u64>>,
) -> (summary: ValidationSummary)
    ensures
        summary.job_id@ == request.job_id@,
        summary.database_schema@ == supported@,
        summary.digests == digests,
        summary.local_candidate_track_count == (match rows_in(rows) {
            Some(rows) => Some(rows.len() as usize),
            None => None,
        }),
        summary.source_track_count == request.source_tracks@.len(),
{
    broadcast use vstd::std_specs::hash::group_hash_axioms;

    ValidationSummary {
        job_id: request.job_id.clone(),
        database_schema: supported.to_owned(),
        digests,
        local_candidate_track_count: match rows {
            Some(rows) => Some(rows.len()),
            None => None,
        },
        source_track_count: request.source_tracks.len(),
    }
}

} // verus!
