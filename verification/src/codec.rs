//! The boundary to the `csv` crate: what it reads from a text and what it
//! writes for a record. Nothing here is proved; the contracts state what the
//! crate is relied on for.

use vstd::prelude::*;

verus! {

/// The error of the `csv` crate. Nothing is known of a value of it.
#[verifier::external_type_specification]
#[verifier::external_body]
pub struct ExCsvError(csv::Error);

/// The records that a `csv::Reader` in its default configuration, but with
/// the first record handed out like the others, reads from `text`, each as
/// the sequence of its fields; `None` where it reports an error at any record.
pub uninterp spec fn csv_rows(text: Seq<char>) -> Option<Seq<Seq<Seq<char>>>>;

/// The bytes that a `csv::Writer` in its default configuration writes for
/// one record with the fields `fields`, terminator included.
pub uninterp spec fn csv_line(fields: Seq<Seq<char>>) -> Seq<u8>;

/// Reads all records of `text` with `csv::Reader::records`, after
/// `csv::ReaderBuilder::has_headers(false)` and `from_reader` on the bytes of
/// `text`. The contract claims that the outcome is a function of the text,
/// named `csv_rows`, that the first error ends the reading, and that an empty
/// text holds no record and is no error.
#[verifier::external_body]
pub(crate) fn parse_rows(text: &str) -> (rows: Result<Vec<Vec<String>>, csv::Error>)
    ensures
        match rows {
            Ok(read) => csv_rows(text@) == Some(read.deep_view()),
            Err(_) => csv_rows(text@) is None,
        },
        text@.len() == 0 ==> rows is Ok && rows->Ok_0@.len() == 0,
{
    let mut reader = csv::ReaderBuilder::new().has_headers(false).from_reader(text.as_bytes());
    reader.records().map(|row| row.map(|r| r.iter().map(String::from).collect())).collect()
}

/// Writes one record with `csv::Writer::write_record` to a writer made by
/// `csv::Writer::from_writer` over an empty buffer, and hands back the buffer
/// after `flush`. The contract claims that the crate reports no error: the
/// writer can fail only where the buffer under it fails to take bytes, which
/// a `Vec<u8>` never does, or where a record differs in length from the
/// first one written, and this one is the first. It claims further that the
/// bytes are a function of the fields, named `csv_line`, and that there is
/// at least one byte, since a record ends with its terminator.
#[verifier::external_body]
pub(crate) fn encode_row(fields: &Vec<String>) -> (line: Result<Vec<u8>, csv::Error>)
    ensures
        line is Ok,
        line matches Ok(bytes) ==> bytes@ == csv_line(fields.deep_view()) && bytes@.len() > 0,
{
    let mut writer = csv::Writer::from_writer(Vec::new());
    writer.write_record(fields)?;
    writer.flush()?;
    Ok(writer.get_ref().clone())
}

} // verus!
