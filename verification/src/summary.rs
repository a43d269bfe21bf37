//! From the lines of a log to its summary.

use crate::reader::{read_csv, read_outcome};
use crate::record::{LogError, LogErrorView, Output, OutputView};
use crate::reducer::{average, average_outcome};
use vstd::prelude::*;
use vstd::string::*;

verus! {

/// What summarizing the log with the lines `lines` gives: the means of its
/// records, or the first reason why there are none.
pub open spec fn summary_outcome(
    description: Seq<char>,
    score: Seq<char>,
    lines: Seq<Option<Seq<char>>>,
) -> Result<OutputView, LogErrorView> {
    match read_outcome(lines) {
        Ok(records) => average_outcome(description, score, records),
        Err(e) => Err(e),
    }
}

/// Reads the records of a log and averages them. Nothing is averaged where
/// the log cannot be read, and a log of at most two lines, which has no
/// record, is `LogError::EmptyInput`.
pub fn summarize(description: &String, score: &String, lines: &Vec<Option<String>>) -> (result:
    Result<Output, LogError>)
    ensures
        match result {
            Ok(summary) => summary_outcome(description@, score@, lines.deep_view()) == Ok::<
                OutputView,
                LogErrorView,
            >(summary@),
            Err(e) => summary_outcome(description@, score@, lines.deep_view()) == Err::<
                OutputView,
                LogErrorView,
            >(e@),
        },
        lines.len() <= 2 ==> result == Err::<Output, LogError>(LogError::EmptyInput),
{
    match read_csv(lines) {
        Ok(records) => average(description, score, &records),
        Err(e) => Err(e),
    }
}

} // verus!
