//! Documents in JSON, held against their schemas.

use crate::command::{failed, CommandFailure, FailureView};
use crate::sequences::views;
use crate::text::{text_around, text_around_two};
use serde_json::Value;
use vstd::prelude::*;

verus! {

/// What is wrong with a document as JSON, if anything.
pub uninterp spec fn json_fault(document: Seq<u8>) -> Option<Seq<char>>;

/// Whether a document satisfies a schema, where the schema can be used and the
/// document is JSON.
pub uninterp spec fn schema_accepts(schema: Seq<char>, document: Seq<u8>) -> Option<bool>;

/// Calls `serde_json::from_slice` for a `Value` and gives the text of its error.
/// Whether and how the parse fails is a function of the bytes alone; which
/// function stays unsaid.
#[verifier::external_body]
pub(crate) fn find_json_fault(document: &[u8]) -> (fault: Option<String>)
    ensures
        match fault {
            Some(text) => json_fault(document@) == Some(text@),
            None => json_fault(document@) is None,
        },
{
    serde_json::from_slice::<Value>(document).err().map(|error| error.to_string())
}

/// Calls `jsonschema::validator_for` on a schema and `Validator::iter_errors` on
/// a document, both parsed by `serde_json`, and gives the texts of the errors.
/// There is no list where the schema or the document cannot be parsed or the
/// schema does not compile, and the list is empty where the document satisfies
/// the schema. Which of these holds is a function of schema and document alone.
/// The texts and their order stay unsaid: the validator walks hash maps whose
/// order a process seeds.
#[verifier::external_body]
pub(crate) fn find_faults(schema: &str, document: &[u8]) -> (found: Option<Vec<String>>)
    ensures
        match found {
            Some(texts) => schema_accepts(schema@, document@) == Some(texts@.len() == 0),
            None => schema_accepts(schema@, document@) is None,
        },
{
    let schema: Value = serde_json::from_str(schema).ok()?;
    let document: Value = serde_json::from_slice(document).ok()?;
    let validator = jsonschema::validator_for(&schema).ok()?;
    Some(validator.iter_errors(&document).map(|error| error.to_string()).collect())
}

/// The texts with separators between them.
pub open spec fn joined(texts: Seq<Seq<char>>) -> Seq<char>
    decreases texts.len(),
{
    if texts.len() == 0 {
        seq![]
    } else if texts.len() == 1 {
        texts[0]
    } else {
        joined(texts.drop_last()) + "; "@ + texts.last()
    }
}

/// The refusal of a document that does not satisfy its schema.
pub open spec fn faulty(kind: Seq<char>, faults: Seq<Seq<char>>) -> FailureView {
    failed(
        "INVALID_REQUEST"@,
        ""@ + kind + " schema validation failed: "@ + joined(faults) + ""@,
    )
}

/// Refuses a document for what was found in it.
pub fn refuse_faulty(kind: &str, faults: &[String]) -> (failure: CommandFailure)
    ensures
        failure@ == faulty(kind@, views(faults@)),
{
    let ghost all = views(faults@);
    let mut text = String::new();
    let mut at: usize = 0;
    assert(text@ =~= joined(all.take(0)));
    while at < faults.len()
        invariant
            at <= faults@.len(),
            all == views(faults@),
            text@ =~= joined(all.take(at as int)),
        decreases faults@.len() - at,
    {
        assert(all[at as int] == faults@[at as int]@);
        assert(all.take(at + 1).drop_last() =~= all.take(at as int));
        if at > 0 {
            text.append("; ");
        }
        text.append(faults[at].as_str());
        at += 1;
    }
    assert(all.take(all.len() as int) =~= all);
    CommandFailure::new(
        "INVALID_REQUEST",
        text_around_two("", kind, " schema validation failed: ", text.as_str(), ""),
    )
}

/// The refusal of a document that is not JSON.
pub open spec fn not_json(kind: Seq<char>, fault: Seq<char>) -> FailureView {
    failed("INVALID_JSON"@, "invalid "@ + kind + " JSON: "@ + fault + ""@)
}

/// The refusal of a schema that cannot be used.
pub open spec fn unusable_schema(kind: Seq<char>) -> FailureView {
    failed("INTERNAL_ERROR"@, "the "@ + kind + " schema cannot be used"@)
}

/// Whether checking a document may come to an outcome. Only a trusted document
/// is not held against the schema.
pub open spec fn document_checked(
    schema: Seq<char>,
    document: Seq<u8>,
    kind: Seq<char>,
    trusted: bool,
    checked: Result<(), FailureView>,
) -> bool {
    match json_fault(document) {
        Some(fault) => checked == Err::<(), FailureView>(not_json(kind, fault)),
        None => if trusted {
            checked is Ok
        } else {
            match schema_accepts(schema, document) {
                None => checked == Err::<(), FailureView>(unusable_schema(kind)),
                Some(true) => checked is Ok,
                Some(false) => exists|faults: Seq<Seq<char>>|
                    faults.len() > 0 && checked == Err::<(), FailureView>(
                        #[trigger] faulty(kind, faults),
                    ),
            }
        },
    }
}

/// Checks the bytes of a document: whether they are JSON, and whether they
/// satisfy the schema.
pub fn check_document(schema: &str, document: &[u8], kind: &str, trusted: bool) -> (checked: Result<
    (),
    CommandFailure,
>)
    ensures
        document_checked(
            schema@,
            document@,
            kind@,
            trusted,
            match checked {
                Ok(done) => Ok(done),
                Err(failure) => Err(failure@),
            },
        ),
{
    if let Some(fault) = find_json_fault(document) {
        return Err(
            CommandFailure::new(
                "INVALID_JSON",
                text_around_two("invalid ", kind, " JSON: ", fault.as_str(), ""),
            ),
        );
    }
    if trusted {
        return Ok(());
    }
    match find_faults(schema, document) {
        None => Err(
            CommandFailure::new(
                "INTERNAL_ERROR",
                text_around("the ", kind, " schema cannot be used"),
            ),
        ),
        Some(faults) => {
            if faults.len() == 0 {
                Ok(())
            } else {
                assert(views(faults@).len() > 0);
                Err(refuse_faulty(kind, faults.as_slice()))
            }
        },
    }
}

/// A document that is not trusted passes exactly where it is JSON and satisfies
/// its schema, and whatever passes passes as a trusted one too.
pub proof fn documents_pass_by_their_schema(
    schema: Seq<char>,
    document: Seq<u8>,
    kind: Seq<char>,
    checked: Result<(), FailureView>,
)
    requires
        document_checked(schema, document, kind, false, checked),
    ensures
        checked is Ok <==> json_fault(document) is None && schema_accepts(schema, document)
            == Some(true),
        checked is Ok ==> document_checked(schema, document, kind, true, checked),
{
}

} // verus!
