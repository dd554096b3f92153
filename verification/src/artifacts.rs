//! Frozen artifacts: their digests, the frame of the library cache and the
//! inventory of local candidates.

use crate::command::{CommandFailure, FailureView};
use crate::digest::{digest_text, is_hex_digit, sha256_text};
use crate::text::{
    ascii_lowered, decimal, equal_but_for_case, is_text, text_around, text_around_two, text_in,
    text_with_number,
};
use std::collections::HashSet;
use vstd::prelude::*;

verus! {

// Digests.

/// An artifact that a request names.
#[verifier::ext_equal]
pub struct ArtifactView {
    pub path: Seq<char>,
    pub sha256: Option<Seq<char>>,
    pub schema_identity: Option<Seq<char>>,
    pub cache_identity: Option<Seq<char>>,
}

/// An artifact that a request names.
#[derive(Debug, PartialEq, Eq)]
pub struct Artifact {
    pub path: String,
    pub sha256: Option<String>,
    pub schema_identity: Option<String>,
    pub cache_identity: Option<String>,
}

impl View for Artifact {
    type V = ArtifactView;

    open spec fn view(&self) -> ArtifactView {
        ArtifactView {
            path: self.path@,
            sha256: text_in(self.sha256),
            schema_identity: text_in(self.schema_identity),
            cache_identity: text_in(self.cache_identity),
        }
    }
}

/// Why an artifact with a digest is refused, if so. A digest that is declared
/// must be the actual one, in upper or lower case.
pub open spec fn hash_refusal(artifact: ArtifactView, kind: Seq<char>, actual: Seq<char>) -> Option<
    FailureView,
> {
    match artifact.sha256 {
        Some(expected) => if ascii_lowered(actual) != ascii_lowered(expected) {
            Some(
                FailureView {
                    code: "ARTIFACT_HASH_MISMATCH"@,
                    message: ""@ + kind + " artifact '"@ + artifact.path
                        + "' does not match its declared SHA-256"@,
                },
            )
        } else {
            None
        },
        None => None,
    }
}

/// Checks the digest of an artifact against the declared one.
pub fn verify_artifact_hash(artifact: &Artifact, kind: &str, actual: &str) -> (checked: Result<
    (),
    CommandFailure,
>)
    ensures
        match hash_refusal(artifact@, kind@, actual@) {
            None => checked is Ok,
            Some(failure) => checked is Err && checked->Err_0@ == failure,
        },
{
    if let Some(expected) = &artifact.sha256 {
        if !equal_but_for_case(actual, expected.as_str()) {
            return Err(
                CommandFailure::new(
                    "ARTIFACT_HASH_MISMATCH",
                    text_around_two(
                        "",
                        kind,
                        " artifact '",
                        artifact.path.as_str(),
                        "' does not match its declared SHA-256",
                    ),
                ),
            );
        }
    }
    Ok(())
}

/// Computes the digest of an artifact's bytes and checks it.
pub fn check_artifact(artifact: &Artifact, kind: &str, bytes: &[u8]) -> (checked: Result<
    String,
    CommandFailure,
>)
    ensures
        match hash_refusal(artifact@, kind@, sha256_text(bytes@)) {
            None => checked is Ok && checked->Ok_0@ == sha256_text(bytes@),
            Some(failure) => checked is Err && checked->Err_0@ == failure,
        },
{
    let actual = digest_text(bytes);
    match verify_artifact_hash(artifact, kind, actual.as_str()) {
        Err(failure) => Err(failure),
        Ok(_) => Ok(actual),
    }
}

// The library cache.

/// The version of the library cache.
pub const LIBRARY_CACHE_VERSION: u8 = 2;

/// The most bytes that a library cache may have.
pub const MAX_LIBRARY_CACHE_BYTES: u64 = 536_870_912;

/// The first line of a library cache.
pub open spec fn cache_magic() -> Seq<u8> {
    vstd::utf8::encode_utf8("bliss-playlist-optimizer-library-cache-v2\n"@)
}

fn magic_bytes() -> (magic: &'static [u8])
    ensures
        magic@ == cache_magic(),
{
    "bliss-playlist-optimizer-library-cache-v2\n".as_bytes()
}

/// The code of a line break.
pub const LINE_BREAK: u8 = 10;

/// The bytes of a digest: one for each of its digits.
pub open spec fn digest_bytes(text: Seq<char>) -> Seq<u8> {
    Seq::new(text.len(), |i: int| text[i] as u8)
}

/// A payload with the first line and its digest in front.
pub open spec fn framed(payload: Seq<u8>) -> Seq<u8> {
    cache_magic() + digest_bytes(sha256_text(payload)) + seq![LINE_BREAK] + payload
}

/// A letter in lower case, anything else as it is.
pub open spec fn lower_byte(byte: u8) -> u8 {
    if 65 <= byte <= 90 {
        (byte + 32) as u8
    } else {
        byte
    }
}

/// Whether two rows of bytes are the same but for the case of their letters.
pub open spec fn same_but_for_case(left: Seq<u8>, right: Seq<u8>) -> bool {
    &&& left.len() == right.len()
    &&& forall|i: int|
        0 <= i < left.len() ==> lower_byte(#[trigger] left[i]) == lower_byte(right[i])
}

/// The payload of a framed cache, where the frame is whole and the digest is
/// that of the payload.
pub open spec fn unframed(bytes: Seq<u8>) -> Option<Seq<u8>> {
    let start = cache_magic().len() as int;
    if bytes.len() < start + 65 || bytes.take(start) != cache_magic() || bytes[start + 64]
        != LINE_BREAK {
        None
    } else {
        let payload = bytes.skip(start + 65);
        if same_but_for_case(
            digest_bytes(sha256_text(payload)),
            bytes.subrange(start, start + 64),
        ) {
            Some(payload)
        } else {
            None
        }
    }
}

fn bytes_of_digest(text: &str) -> (bytes: Vec<u8>)
    requires
        forall|i: int| 0 <= i < text@.len() ==> is_hex_digit(#[trigger] text@[i]),
    ensures
        bytes@ == digest_bytes(text@),
{
    let characters = crate::text::chars_of(text);
    let mut bytes: Vec<u8> = Vec::new();
    let mut at: usize = 0;
    while at < characters.len()
        invariant
            at <= characters@.len(),
            characters@ == text@,
            bytes@ =~= digest_bytes(text@).take(at as int),
        decreases characters@.len() - at,
    {
        bytes.push(characters[at] as u8);
        at += 1;
    }
    assert(bytes@ =~= digest_bytes(text@));
    bytes
}

/// Frames a payload. What is framed comes back out.
pub fn frame_cache(payload: &[u8]) -> (bytes: Vec<u8>)
    ensures
        bytes@ == framed(payload@),
        unframed(bytes@) == Some(payload@),
{
    let digest = digest_text(payload);
    let mut bytes = vstd::slice::slice_to_vec(magic_bytes());
    let mut digits = bytes_of_digest(digest.as_str());
    bytes.append(&mut digits);
    bytes.push(LINE_BREAK);
    let mut rest = vstd::slice::slice_to_vec(payload);
    bytes.append(&mut rest);
    assert(bytes@ =~= framed(payload@));
    proof {
        lemma_framed(payload@);
    }
    bytes
}

fn lower(byte: u8) -> (lowered: u8)
    ensures
        lowered == lower_byte(byte),
{
    if 65 <= byte && byte <= 90 {
        byte + 32
    } else {
        byte
    }
}

fn equal_bytes_but_for_case(left: &[u8], right: &[u8]) -> (same: bool)
    ensures
        same == same_but_for_case(left@, right@),
{
    if left.len() != right.len() {
        return false;
    }
    let mut at: usize = 0;
    while at < left.len()
        invariant
            at <= left@.len(),
            left@.len() == right@.len(),
            forall|i: int|
                0 <= i < at ==> lower_byte(#[trigger] left@[i]) == lower_byte(right@[i]),
        decreases left@.len() - at,
    {
        if lower(left[at]) != lower(right[at]) {
            return false;
        }
        at += 1;
    }
    true
}

fn same_bytes(left: &[u8], right: &[u8]) -> (same: bool)
    ensures
        same == (left@ == right@),
{
    if left.len() != right.len() {
        return false;
    }
    let mut at: usize = 0;
    while at < left.len()
        invariant
            at <= left@.len(),
            left@.len() == right@.len(),
            forall|i: int| 0 <= i < at ==> left@[i] == right@[i],
        decreases left@.len() - at,
    {
        if left[at] != right[at] {
            return false;
        }
        at += 1;
    }
    assert(left@ =~= right@);
    true
}

/// Takes the payload out of its frame.
pub fn unframe_cache(bytes: &[u8]) -> (payload: Option<Vec<u8>>)
    ensures
        match unframed(bytes@) {
            Some(found) => payload is Some && payload->Some_0@ == found,
            None => payload is None,
        },
{
    let magic = magic_bytes();
    let start: usize = magic.len();
    if bytes.len() < start || bytes.len() - start < 65 {
        return None;
    }
    let head = vstd::slice::slice_subrange(bytes, 0, start);
    assert(head@ =~= bytes@.take(start as int));
    if !same_bytes(head, magic) || bytes[start + 64] != LINE_BREAK {
        return None;
    }
    let declared = vstd::slice::slice_subrange(bytes, start, start + 64);
    let payload = vstd::slice::slice_subrange(bytes, start + 65, bytes.len());
    assert(payload@ =~= bytes@.skip(start + 65));
    let digest = digest_text(payload);
    let digits = bytes_of_digest(digest.as_str());
    if equal_bytes_but_for_case(digits.as_slice(), declared) {
        Some(vstd::slice::slice_to_vec(payload))
    } else {
        None
    }
}

proof fn lemma_framed(payload: Seq<u8>)
    requires
        sha256_text(payload).len() == 64,
    ensures
        unframed(framed(payload)) == Some(payload),
{
    let start = cache_magic().len() as int;
    let bytes = framed(payload);
    assert(bytes.take(start) =~= cache_magic());
    assert(bytes.skip(start + 65) =~= payload);
    assert(bytes.subrange(start, start + 64) =~= digest_bytes(sha256_text(payload)));
    assert(bytes[start + 64] == LINE_BREAK);
}

/// The payload that comes out of a frame has the declared digest, so that a
/// payload with any other digest does not come out.
pub proof fn unframed_payload_has_its_digest(bytes: Seq<u8>)
    ensures
        unframed(bytes) matches Some(payload) ==> {
            let start = cache_magic().len() as int;
            &&& bytes == cache_magic() + bytes.subrange(start, start + 64) + seq![LINE_BREAK]
                + payload
            &&& same_but_for_case(
                digest_bytes(sha256_text(payload)),
                bytes.subrange(start, start + 64),
            )
        },
{
    if let Some(payload) = unframed(bytes) {
        let start = cache_magic().len() as int;
        let whole = cache_magic() + bytes.subrange(start, start + 64) + seq![LINE_BREAK] + payload;
        assert(bytes.len() == whole.len());
        assert forall|i: int| 0 <= i < bytes.len() implies bytes[i] == #[trigger] whole[i] by {
            if i < start {
                assert(bytes.take(start)[i] == cache_magic()[i]);
            }
        }
        assert(bytes =~= whole);
    }
}

/// What a decoded library cache says of itself.
#[verifier::ext_equal]
pub struct CacheHeadView {
    pub format_version: u8,
    pub database_path: Seq<char>,
    pub database_identity: Seq<char>,
    pub database_sha256: Seq<char>,
    pub metadata_count: int,
    pub route_track_count: int,
}

/// What a decoded library cache says of itself: the metadata and the tracks for
/// routing are kept apart.
#[derive(Debug, PartialEq, Eq)]
pub struct CacheHead {
    pub format_version: u8,
    pub database_path: String,
    pub database_identity: String,
    pub database_sha256: String,
    pub metadata_count: usize,
    pub route_track_count: usize,
}

impl View for CacheHead {
    type V = CacheHeadView;

    open spec fn view(&self) -> CacheHeadView {
        CacheHeadView {
            format_version: self.format_version,
            database_path: self.database_path@,
            database_identity: self.database_identity@,
            database_sha256: self.database_sha256@,
            metadata_count: self.metadata_count as int,
            route_track_count: self.route_track_count as int,
        }
    }
}

/// Whether a cache belongs to a database: its version, path and identity are
/// the asked ones, its digest is the declared one, and it has as many tracks for
/// routing as entries of metadata.
pub open spec fn cache_fits(head: CacheHeadView, database: ArtifactView) -> bool {
    &&& head.format_version == LIBRARY_CACHE_VERSION
    &&& head.database_path == database.path
    &&& database.cache_identity == Some(head.database_identity)
    &&& hash_refusal(database, "database"@, head.database_sha256) is None
    &&& head.metadata_count == head.route_track_count
}

/// Decides whether a cache belongs to a database.
pub fn accept_cache(head: &CacheHead, database: &Artifact) -> (fits: bool)
    ensures
        fits == cache_fits(head@, database@),
{
    let identity = match &database.cache_identity {
        Some(identity) => identity,
        None => {
            return false;
        },
    };
    head.format_version == LIBRARY_CACHE_VERSION && head.database_path == database.path
        && head.database_identity == *identity && verify_artifact_hash(
        database,
        "database",
        head.database_sha256.as_str(),
    ).is_ok() && head.metadata_count == head.route_track_count
}

/// What is loaded from the bytes of a cache for a database: the payload, where
/// it comes out of its frame and what it says of itself fits. `head_of` reads
/// what a payload says of itself.
pub open spec fn loaded(
    bytes: Seq<u8>,
    head_of: spec_fn(Seq<u8>) -> Option<CacheHeadView>,
    database: ArtifactView,
) -> Option<Seq<u8>> {
    match unframed(bytes) {
        Some(payload) => match head_of(payload) {
            Some(head) => if cache_fits(head, database) {
                Some(payload)
            } else {
                None
            },
            None => None,
        },
        None => None,
    }
}

/// The bytes of a cache with another payload behind the frame.
pub open spec fn changed(payload: Seq<u8>, other: Seq<u8>) -> Seq<u8> {
    cache_magic() + digest_bytes(sha256_text(payload)) + seq![LINE_BREAK] + other
}

/// A stored library is read back for the database that it was stored for. It is
/// not read back where the database has another identity or none, another path
/// or another declared digest, where the format is another one, or where the
/// payload was changed to one with another digest. The digest of the stored
/// payload has 64 digits, as every digest has.
pub proof fn stored_libraries_serve_their_database_alone(
    payload: Seq<u8>,
    head: CacheHeadView,
    head_of: spec_fn(Seq<u8>) -> Option<CacheHeadView>,
    database: ArtifactView,
    other: Seq<u8>,
)
    ensures
        sha256_text(payload).len() == 64 && head_of(payload) == Some(head) ==> {
            let stored = framed(payload);
            let served = loaded(stored, head_of, database);
            &&& cache_fits(head, database) ==> served == Some(payload)
            &&& database.cache_identity != Some(head.database_identity) ==> served is None
            &&& database.path != head.database_path ==> served is None
            &&& head.format_version != LIBRARY_CACHE_VERSION ==> served is None
            &&& head.metadata_count != head.route_track_count ==> served is None
            &&& database.sha256 matches Some(declared) ==> (ascii_lowered(declared)
                != ascii_lowered(head.database_sha256) ==> served is None)
            &&& !same_but_for_case(
                digest_bytes(sha256_text(other)),
                digest_bytes(sha256_text(payload)),
            ) ==> loaded(changed(payload, other), head_of, database) is None
        },
{
    if sha256_text(payload).len() == 64 {
        lemma_framed(payload);
        let start = cache_magic().len() as int;
        let bytes = changed(payload, other);
        assert(bytes.skip(start + 65) =~= other);
        assert(bytes.subrange(start, start + 64) =~= digest_bytes(sha256_text(payload)));
    }
}

/// The name of the cache file for a database.
pub open spec fn cache_file_name(database_path: Seq<char>) -> Seq<char> {
    "library-"@ + sha256_text(vstd::utf8::encode_utf8(database_path)) + ".bin"@
}

/// Names the cache file for a database.
pub fn library_cache_name(database_path: &str) -> (name: String)
    ensures
        name@ == cache_file_name(database_path@),
{
    let key = digest_text(database_path.as_bytes());
    text_around("library-", key.as_str(), ".bin")
}

// The inventory of local candidates.

/// The rows that an inventory allows, and what it was made for.
#[derive(Debug, PartialEq, Eq)]
pub struct LocalCandidateInventory {
    pub schema_identity: String,
    pub database_cache_identity: String,
    pub allowed_row_ids: Vec<u64>,
}

/// The schema of inventories.
pub open spec fn inventory_schema() -> Seq<char> {
    "lms-local-candidate-inventory-v1"@
}

/// Why an inventory is not even read, if so.
pub open spec fn inventory_refusal(artifact: ArtifactView, database: ArtifactView) -> Option<
    FailureView,
> {
    if artifact.schema_identity != Some(inventory_schema()) {
        Some(
            FailureView {
                code: "CANDIDATE_INVENTORY_SCHEMA_MISMATCH"@,
                message:
                    "artifacts.local_candidate_inventory must declare lms-local-candidate-inventory-v1"@,
            },
        )
    } else if database.cache_identity is None {
        Some(
            FailureView {
                code: "CANDIDATE_INVENTORY_DATABASE_IDENTITY_REQUIRED"@,
                message:
                    "the database cache identity is required when a local candidate inventory is supplied"@,
            },
        )
    } else {
        None
    }
}

/// Checks whether an inventory may be read.
pub fn check_inventory(artifact: &Artifact, database: &Artifact) -> (checked: Result<
    (),
    CommandFailure,
>)
    ensures
        match inventory_refusal(artifact@, database@) {
            None => checked is Ok,
            Some(failure) => checked is Err && checked->Err_0@ == failure,
        },
{
    let declared: bool = match &artifact.schema_identity {
        Some(identity) => is_text(identity.as_str(), "lms-local-candidate-inventory-v1"),
        None => false,
    };
    if !declared {
        return Err(
            CommandFailure::plain(
                "CANDIDATE_INVENTORY_SCHEMA_MISMATCH",
                "artifacts.local_candidate_inventory must declare lms-local-candidate-inventory-v1",
            ),
        );
    }
    if database.cache_identity.is_none() {
        return Err(
            CommandFailure::plain(
                "CANDIDATE_INVENTORY_DATABASE_IDENTITY_REQUIRED",
                "the database cache identity is required when a local candidate inventory is supplied",
            ),
        );
    }
    Ok(())
}

/// The first row at or after `at` that is not among the known ones, or their
/// number.
pub open spec fn first_unknown(rows: Seq<u64>, known: Set<u64>, at: int) -> int
    decreases rows.len() - at,
{
    if at >= rows.len() {
        rows.len() as int
    } else if !known.contains(rows[at]) {
        at
    } else {
        first_unknown(rows, known, at + 1)
    }
}

/// The rows among the first `count`.
pub open spec fn row_set(rows: Seq<u64>, count: int) -> Set<u64>
    decreases count,
{
    if count <= 0 {
        Set::empty()
    } else {
        row_set(rows, count - 1).insert(rows[count - 1])
    }
}

/// Why the content of an inventory is refused, if so. Of a trusted one the rows
/// are not held against the library.
pub open spec fn content_refusal(
    inventory: LocalCandidateInventory,
    database_identity: Option<Seq<char>>,
    library_rows: Seq<u64>,
    trusted: bool,
) -> Option<FailureView> {
    let known = row_set(library_rows, library_rows.len() as int);
    let rows = inventory.allowed_row_ids@;
    let unknown = first_unknown(rows, known, 0);
    if inventory.schema_identity@ != inventory_schema() {
        Some(
            FailureView {
                code: "CANDIDATE_INVENTORY_SCHEMA_MISMATCH"@,
                message:
                    "the local candidate inventory payload has an unsupported schema identity"@,
            },
        )
    } else if Some(inventory.database_cache_identity@) != database_identity {
        Some(
            FailureView {
                code: "CANDIDATE_INVENTORY_DATABASE_MISMATCH"@,
                message:
                    "the local candidate inventory was generated for a different bliss.db identity"@,
            },
        )
    } else if !trusted && unknown < rows.len() {
        Some(
            FailureView {
                code: "CANDIDATE_INVENTORY_UNKNOWN_ROW"@,
                message: "local candidate inventory contains unknown or unusable Bliss row "@
                    + decimal(rows[unknown] as int) + ""@,
            },
        )
    } else {
        None
    }
}

fn collect_rows(rows: &[u64]) -> (set: HashSet<u64>)
    ensures
        set@ == row_set(rows@, rows@.len() as int),
{
    broadcast use vstd::std_specs::hash::group_hash_axioms;

    let mut set: HashSet<u64> = HashSet::new();
    let mut at: usize = 0;
    assert(set@ =~= row_set(rows@, 0));
    while at < rows.len()
        invariant
            at <= rows@.len(),
            set@ == row_set(rows@, at as int),
        decreases rows@.len() - at,
    {
        set.insert(rows[at]);
        at += 1;
    }
    set
}

/// Checks the content of an inventory against the database that it was made
/// for, and collects its rows.
pub fn accept_inventory(
    inventory: &LocalCandidateInventory,
    database: &Artifact,
    library_rows: &[u64],
    trusted: bool,
) -> (accepted: Result<HashSet<u64>, CommandFailure>)
    ensures
        match content_refusal(*inventory, database@.cache_identity, library_rows@, trusted) {
            None => accepted is Ok && accepted->Ok_0@ == row_set(
                inventory.allowed_row_ids@,
                inventory.allowed_row_ids@.len() as int,
            ),
            Some(failure) => accepted is Err && accepted->Err_0@ == failure,
        },
{
    broadcast use vstd::std_specs::hash::group_hash_axioms;

    if !is_text(inventory.schema_identity.as_str(), "lms-local-candidate-inventory-v1") {
        return Err(
            CommandFailure::plain(
                "CANDIDATE_INVENTORY_SCHEMA_MISMATCH",
                "the local candidate inventory payload has an unsupported schema identity",
            ),
        );
    }
    let same: bool = match &database.cache_identity {
        Some(identity) => *identity == inventory.database_cache_identity,
        None => false,
    };
    if !same {
        return Err(
            CommandFailure::plain(
                "CANDIDATE_INVENTORY_DATABASE_MISMATCH",
                "the local candidate inventory was generated for a different bliss.db identity",
            ),
        );
    }
    let rows = inventory.allowed_row_ids.as_slice();
    if trusted {
        return Ok(collect_rows(rows));
    }
    let known = collect_rows(library_rows);
    let mut at: usize = 0;
    while at < rows.len()
        invariant
            at <= rows@.len(),
            !trusted,
            rows@ == inventory.allowed_row_ids@,
            known@ == row_set(library_rows@, library_rows@.len() as int),
            inventory.schema_identity@ == inventory_schema(),
            Some(inventory.database_cache_identity@) == database@.cache_identity,
            first_unknown(rows@, known@, 0) == first_unknown(rows@, known@, at as int),
        decreases rows@.len() - at,
    {
        broadcast use vstd::std_specs::hash::group_hash_axioms;

        if !known.contains(&rows[at]) {
            return Err(
                CommandFailure::new(
                    "CANDIDATE_INVENTORY_UNKNOWN_ROW",
                    text_with_number(
                        "local candidate inventory contains unknown or unusable Bliss row ",
                        rows[at],
                        "",
                    ),
                ),
            );
        }
        at += 1;
    }
    Ok(collect_rows(rows))
}

/// An accepted inventory that is not taken on trust names only rows of the
/// library.
pub proof fn accepted_rows_are_known(
    inventory: LocalCandidateInventory,
    database_identity: Option<Seq<char>>,
    library_rows: Seq<u64>,
    row: u64,
)
    requires
        content_refusal(inventory, database_identity, library_rows, false) is None,
        row_set(inventory.allowed_row_ids@, inventory.allowed_row_ids@.len() as int).contains(row),
    ensures
        library_rows.contains(row),
{
    let known = row_set(library_rows, library_rows.len() as int);
    let rows = inventory.allowed_row_ids@;
    lemma_row_member(rows, row, rows.len() as int);
    lemma_first_unknown(rows, known, 0);
    let i = choose|i: int| 0 <= i < rows.len() && rows[i] == row;
    assert(known.contains(rows[i]));
    lemma_row_member(library_rows, row, library_rows.len() as int);
}

proof fn lemma_row_member(rows: Seq<u64>, row: u64, count: int)
    requires
        0 <= count <= rows.len(),
    ensures
        row_set(rows, count).contains(row) == exists|i: int| 0 <= i < count && rows[i] == row,
    decreases count,
{
    if count > 0 {
        lemma_row_member(rows, row, count - 1);
        if rows[count - 1] == row {
            assert(0 <= count - 1 < count && rows[count - 1] == row);
        }
    }
}

proof fn lemma_first_unknown(rows: Seq<u64>, known: Set<u64>, at: int)
    requires
        0 <= at <= rows.len(),
    ensures
        at <= first_unknown(rows, known, at) <= rows.len(),
        forall|i: int|
            at <= i < first_unknown(rows, known, at) ==> known.contains(#[trigger] rows[i]),
    decreases rows.len() - at,
{
    if at < rows.len() && known.contains(rows[at]) {
        lemma_first_unknown(rows, known, at + 1);
    }
}

} // verus!
