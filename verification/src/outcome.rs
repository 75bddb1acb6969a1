//! What a front end shows for one file: success with the repaired bytes,
//! nothing to recover, or the error.

use vstd::prelude::*;
use crate::model::RepairError;
use crate::pdf::{fix_outcome, fix_pdf_annotations};

verus! {

/// The result of one file, as a front end presents it.
#[derive(PartialEq, Eq, Clone, Debug)]
pub enum PDFFixResult {
    Success { output: Vec<u8>, number_of_fixed_annotions: u128, download_filename: String },
    NoAnnotationsFixed,
    Error(RepairError),
}

/// The text with every occurrence of `from` replaced by `to`, found from
/// left to right without overlap.
pub open spec fn replaced(text: Seq<char>, from: Seq<char>, to: Seq<char>) -> Seq<char>
    decreases text.len(),
{
    if from.len() == 0 || text.len() < from.len() {
        text
    } else if text.take(from.len() as int) == from {
        to + replaced(text.skip(from.len() as int), from, to)
    } else {
        Seq::empty().push(text[0]) + replaced(text.skip(1), from, to)
    }
}

/// The name under which a repaired file is offered.
pub open spec fn recovered_name(file_name: Seq<char>) -> Seq<char> {
    replaced(file_name, ".pdf"@, "_recovered.pdf"@)
}

/// Calls `str::replace` with a pattern that is not empty: every match of
/// the pattern, from left to right, gives way to the replacement.
#[verifier::external_body]
fn replace_all(text: &str, from: &str, to: &str) -> (out: String)
    requires
        from@.len() > 0,
    ensures
        out@ == replaced(text@, from@, to@),
{
    text.replace(from, to)
}

/// The presentation of an outcome of `fix_pdf_annotations` for a file of
/// the given name.
pub open spec fn presented(
    outcome: Result<(Vec<u8>, u128), RepairError>,
    file_name: Seq<char>,
    result: PDFFixResult,
) -> bool {
    match outcome {
        Err(e) => result == PDFFixResult::Error(e),
        Ok((bytes, count)) => if count == 0 {
            result == PDFFixResult::NoAnnotationsFixed
        } else {
            match result {
                PDFFixResult::Success { output, number_of_fixed_annotions, download_filename } => {
                    &&& output == bytes
                    &&& number_of_fixed_annotions == count
                    &&& download_filename@ == recovered_name(file_name)
                },
                _ => false,
            }
        },
    }
}

/// Presents an outcome: an error as it is, a count of zero as nothing
/// recovered, and any other count as a success that carries the bytes, the
/// count and the name for the repaired file.
pub fn present(outcome: Result<(Vec<u8>, u128), RepairError>, file_name: &str) -> (result:
    PDFFixResult)
    ensures
        presented(outcome, file_name@, result),
{
    match outcome {
        Err(e) => PDFFixResult::Error(e),
        Ok((bytes, count)) => {
            if count == 0 {
                PDFFixResult::NoAnnotationsFixed
            } else {
                proof {
                    reveal_strlit(".pdf");
                }
                PDFFixResult::Success {
                    output: bytes,
                    number_of_fixed_annotions: count,
                    download_filename: replace_all(file_name, ".pdf", "_recovered.pdf"),
                }
            }
        },
    }
}

/// Repairs the file and presents the outcome.
pub fn fix_pdf(file: Vec<u8>, file_name: String) -> (result: PDFFixResult)
    ensures
        exists|outcome: Result<(Vec<u8>, u128), RepairError>|
            #[trigger] fix_outcome(outcome) && presented(outcome, file_name@, result),
{
    let outcome = fix_pdf_annotations(file.as_slice());
    let ghost seen = outcome;
    let result = present(outcome, file_name.as_str());
    assert(fix_outcome(seen) && presented(seen, file_name@, result));
    result
}

} // verus!
