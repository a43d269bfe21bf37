//! The bytes that a summary adds to a results file, and the header that goes
//! before the first of them.

use crate::codec::{csv_line, encode_row};
use crate::record::{Column, LogError, Output, OutputView};
use vstd::prelude::*;
use vstd::string::*;

verus! {

/// The names of the columns of a results file, in the order of the file.
pub open spec fn header_names() -> Seq<Seq<char>> {
    seq![
        "description"@,
        "score"@,
        Column::GpuTemp.name(),
        Column::GpuCoreClock.name(),
        Column::GpuMemClock.name(),
        Column::GpuVramUsed.name(),
        Column::GpuPower.name(),
    ]
}

/// The fields of `record`, in the order of the file.
pub open spec fn record_fields(record: OutputView) -> Seq<Seq<char>> {
    seq![
        record.description,
        record.score,
        record.gpu_temp,
        record.gpu_core_clock,
        record.gpu_mem_clock,
        record.gpu_vram_used,
        record.gpu_power,
    ]
}

/// What one append adds to a file: the row, with the header before it where
/// the file is empty.
pub open spec fn framed(is_empty: bool, header_line: Seq<u8>, row_line: Seq<u8>) -> Seq<u8> {
    if is_empty {
        header_line + row_line
    } else {
        row_line
    }
}

/// The contents of a file after one append. Whether the file is empty is
/// read off its length and nothing else.
pub open spec fn file_after(file: Seq<u8>, header_line: Seq<u8>, row_line: Seq<u8>) -> Seq<u8> {
    file + framed(file.len() == 0, header_line, row_line)
}

/// The contents of a file after the rows `rows` were appended one by one.
pub open spec fn file_after_all(file: Seq<u8>, header_line: Seq<u8>, rows: Seq<Seq<u8>>) -> Seq<
    u8,
>
    decreases rows.len(),
{
    if rows.len() == 0 {
        file
    } else {
        file_after(file_after_all(file, header_line, rows.drop_last()), header_line, rows.last())
    }
}

/// The rows `rows` one after the other.
pub open spec fn concatenated(rows: Seq<Seq<u8>>) -> Seq<u8>
    decreases rows.len(),
{
    if rows.len() == 0 {
        Seq::empty()
    } else {
        concatenated(rows.drop_last()) + rows.last()
    }
}

/// However many rows are appended to a file that starts empty, the file
/// holds the header once, at its head, and then the rows in the order of the
/// appends.
pub proof fn lemma_header_written_once(header_line: Seq<u8>, rows: Seq<Seq<u8>>)
    requires
        header_line.len() > 0,
        rows.len() > 0,
    ensures
        file_after_all(Seq::empty(), header_line, rows) == header_line + concatenated(rows),
    decreases rows.len(),
{
    let before = rows.drop_last();
    if before.len() == 0 {
        assert(file_after_all(Seq::empty(), header_line, before) == Seq::<u8>::empty());
        assert(concatenated(before) == Seq::<u8>::empty());
        assert(header_line + (Seq::<u8>::empty() + rows.last()) == Seq::<u8>::empty() + (
        header_line + rows.last()));
    } else {
        lemma_header_written_once(header_line, before);
        assert((header_line + concatenated(before)) + rows.last() == header_line + (concatenated(
            before,
        ) + rows.last()));
    }
}

/// Appending to a file that holds anything adds the row and nothing else.
pub proof fn lemma_append_keeps_contents(file: Seq<u8>, header_line: Seq<u8>, row_line: Seq<u8>)
    requires
        file.len() > 0,
    ensures
        file_after(file, header_line, row_line) == file + row_line,
{
}

fn extend(out: &mut Vec<u8>, bytes: &Vec<u8>)
    ensures
        final(out)@ == old(out)@ + bytes@,
{
    let mut i: usize = 0;
    while i < bytes.len()
        invariant
            i <= bytes.len(),
            out@ == old(out)@ + bytes@.take(i as int),
        decreases bytes.len() - i,
    {
        out.push(bytes[i]);
        assert(bytes@.take(i + 1) == bytes@.take(i as int).push(bytes@[i as int]));
        i += 1;
    }
    assert(bytes@.take(i as int) == bytes@);
}

/// Puts together what one append adds to a file from the encoded header and
/// the encoded row: the header goes first where the file is empty, and is
/// left out otherwise.
pub fn frame(is_empty: bool, header_line: &Vec<u8>, row_line: &Vec<u8>) -> (bytes: Vec<u8>)
    ensures
        bytes@ == framed(is_empty, header_line@, row_line@),
{
    let mut bytes: Vec<u8> = Vec::new();
    if is_empty {
        extend(&mut bytes, header_line);
    }
    extend(&mut bytes, row_line);
    bytes
}

fn header_row() -> (names: Vec<String>)
    ensures
        names.deep_view() == header_names(),
{
    let mut names: Vec<String> = Vec::new();
    names.push(String::from_str("description"));
    names.push(String::from_str("score"));
    names.push(String::from_str(Column::GpuTemp.title()));
    names.push(String::from_str(Column::GpuCoreClock.title()));
    names.push(String::from_str(Column::GpuMemClock.title()));
    names.push(String::from_str(Column::GpuVramUsed.title()));
    names.push(String::from_str(Column::GpuPower.title()));
    assert(names.deep_view() =~= header_names());
    names
}

fn record_row(output: &Output) -> (fields: Vec<String>)
    ensures
        fields.deep_view() == record_fields(output@),
{
    let mut fields: Vec<String> = Vec::new();
    fields.push(output.description.clone());
    fields.push(output.score.clone());
    fields.push(output.gpu_temp.clone());
    fields.push(output.gpu_core_clock.clone());
    fields.push(output.gpu_mem_clock.clone());
    fields.push(output.gpu_vram_used.clone());
    fields.push(output.gpu_power.clone());
    assert(fields.deep_view() =~= record_fields(output@));
    fields
}

/// Encodes what appending `output` adds to a results file: one CSV row, and
/// before it the header row where `is_empty` says that the file holds
/// nothing yet. The caller appends the bytes as they are.
///
/// Encoding into memory does not fail, so the result is always `Ok`. The row
/// is never empty, and neither is the header where it is written.
pub fn write_csv(output: &Output, is_empty: bool) -> (result: Result<Vec<u8>, LogError>)
    ensures
        result is Ok,
        result matches Ok(bytes) ==> bytes@ == framed(
            is_empty,
            csv_line(header_names()),
            csv_line(record_fields(output@)),
        ),
        csv_line(record_fields(output@)).len() > 0,
        is_empty ==> csv_line(header_names()).len() > 0,
{
    let row_line = match encode_row(&record_row(output)) {
        Ok(line) => line,
        Err(_) => {
            return Err(LogError::Write);
        },
    };
    if !is_empty {
        return Ok(row_line);
    }
    let header_line = match encode_row(&header_row()) {
        Ok(line) => line,
        Err(_) => {
            return Err(LogError::Write);
        },
    };
    Ok(frame(is_empty, &header_line, &row_line))
}

} // verus!
