//! From the lines of a log to its records.

use crate::codec::{csv_rows, parse_rows};
use crate::record::{Column, LogError, LogErrorView, Output, OutputView};
use vstd::prelude::*;
use vstd::string::*;

verus! {

/// How many lines at the head of a log are preamble and never read.
pub const PREAMBLE_LINES: usize = 2;

/// The lines of `lines` that could be read, in order.
pub open spec fn readable(lines: Seq<Option<Seq<char>>>) -> Seq<Seq<char>>
    decreases lines.len(),
{
    if lines.len() == 0 {
        Seq::empty()
    } else {
        match lines.last() {
            Some(line) => readable(lines.drop_last()).push(line),
            None => readable(lines.drop_last()),
        }
    }
}

/// The lines of `lines` with a line feed between each two.
pub open spec fn joined(lines: Seq<Seq<char>>) -> Seq<char>
    decreases lines.len(),
{
    if lines.len() == 0 {
        Seq::empty()
    } else if lines.len() == 1 {
        lines[0]
    } else {
        joined(lines.drop_last()) + seq!['\n'] + lines.last()
    }
}

/// The tabular part of a log: what follows its first two lines, without the
/// lines that could not be read, joined by line feeds.
pub open spec fn body_text(lines: Seq<Option<Seq<char>>>) -> Seq<char> {
    if lines.len() <= 2 {
        Seq::empty()
    } else {
        joined(readable(lines.skip(2)))
    }
}

/// Joins the lines of a log after its preamble into the text of its table.
/// A line that could not be read is `None`; it counts as a line of the
/// preamble where it is one of the first two, and is left out otherwise.
pub fn table_text(lines: &Vec<Option<String>>) -> (body: String)
    ensures
        body@ == body_text(lines.deep_view()),
{
    let ghost all = lines.deep_view();
    let mut body = String::new();
    let mut first = true;
    let mut i: usize = PREAMBLE_LINES;
    if lines.len() <= PREAMBLE_LINES {
        return body;
    }
    assert(all.subrange(2, 2) == Seq::<Option<Seq<char>>>::empty());
    while i < lines.len()
        invariant
            2 <= i <= lines.len(),
            all == lines.deep_view(),
            body@ == joined(readable(all.subrange(2, i as int))),
            first <==> readable(all.subrange(2, i as int)).len() == 0,
        decreases lines.len() - i,
    {
        let ghost before = all.subrange(2, i as int);
        let ghost after = all.subrange(2, i + 1);
        assert(after.drop_last() == before);
        assert(after.last() == lines[i as int].deep_view());
        match &lines[i] {
            Some(line) => {
                assert(readable(after).drop_last() == readable(before));
                if !first {
                    proof {
                        reveal_strlit("\n");
                    }
                    body.append("\n");
                }
                body.append(line.as_str());
                first = false;
            },
            None => {},
        }
        i += 1;
    }
    assert(all.subrange(2, i as int) == all.skip(2));
    body
}


/// Whether `name` stands in `header` at index `i` and nowhere else.
pub open spec fn is_sole_position(header: Seq<Seq<char>>, name: Seq<char>, i: int) -> bool {
    &&& 0 <= i < header.len()
    &&& header[i] == name
    &&& forall|j: int| 0 <= j < header.len() && #[trigger] header[j] == name ==> j == i
}

/// The index at which `name` stands in `header`, if it stands there exactly
/// once.
pub open spec fn sole_position(header: Seq<Seq<char>>, name: Seq<char>) -> Option<int> {
    if exists|i: int| is_sole_position(header, name, i) {
        Some(choose|i: int| is_sole_position(header, name, i))
    } else {
        None
    }
}

/// Whether `header` names each of the five numeric columns exactly once.
pub open spec fn header_maps(header: Seq<Seq<char>>) -> bool {
    &&& sole_position(header, Column::GpuTemp.name()) is Some
    &&& sole_position(header, Column::GpuCoreClock.name()) is Some
    &&& sole_position(header, Column::GpuMemClock.name()) is Some
    &&& sole_position(header, Column::GpuVramUsed.name()) is Some
    &&& sole_position(header, Column::GpuPower.name()) is Some
}

/// The field of `row` under the column that `header` names `column`.
pub open spec fn cell(header: Seq<Seq<char>>, row: Seq<Seq<char>>, column: Column) -> Seq<char> {
    row[sole_position(header, column.name())->0]
}

/// The record that a data row gives under `header`: its five readings by
/// the names of their columns, with an empty description and score.
pub open spec fn row_record(header: Seq<Seq<char>>, row: Seq<Seq<char>>) -> OutputView {
    OutputView {
        description: Seq::empty(),
        score: Seq::empty(),
        gpu_temp: cell(header, row, Column::GpuTemp),
        gpu_core_clock: cell(header, row, Column::GpuCoreClock),
        gpu_mem_clock: cell(header, row, Column::GpuMemClock),
        gpu_vram_used: cell(header, row, Column::GpuVramUsed),
        gpu_power: cell(header, row, Column::GpuPower),
    }
}

/// Whether every data row of `rows` has as many fields as the header row.
pub open spec fn rows_fill_header(rows: Seq<Seq<Seq<char>>>) -> bool {
    forall|i: int| 1 <= i < rows.len() ==> (#[trigger] rows[i]).len() == rows[0].len()
}

/// The records of a table whose first row is the header. A table without a
/// data row has no record, whatever its header. Otherwise the header has to
/// name each numeric column exactly once and every data row has to have as
/// many fields as the header; columns of other names are passed over.
pub open spec fn rows_outcome(rows: Seq<Seq<Seq<char>>>) -> Result<Seq<OutputView>, LogErrorView> {
    if rows.len() <= 1 {
        Ok(Seq::empty())
    } else if header_maps(rows[0]) && rows_fill_header(rows) {
        Ok(Seq::new((rows.len() - 1) as nat, |i: int| row_record(rows[0], rows[i + 1])))
    } else {
        Err(LogErrorView::Parse)
    }
}

/// The records of the log with the lines `lines`.
pub open spec fn read_outcome(lines: Seq<Option<Seq<char>>>) -> Result<
    Seq<OutputView>,
    LogErrorView,
> {
    match csv_rows(body_text(lines)) {
        Some(rows) => rows_outcome(rows),
        None => Err(LogErrorView::Parse),
    }
}

fn find_column(header: &Vec<String>, column: Column) -> (position: Option<usize>)
    ensures
        match position {
            Some(i) => sole_position(header.deep_view(), column.name()) == Some(i as int),
            None => sole_position(header.deep_view(), column.name()) is None,
        },
{
    let ghost names = header.deep_view();
    let name = String::from_str(column.title());
    let mut found: Option<usize> = None;
    let mut i: usize = 0;
    while i < header.len()
        invariant
            i <= header.len(),
            names == header.deep_view(),
            name@ == column.name(),
            match found {
                Some(at) => at < i && names[at as int] == name@ && forall|j: int|
                    0 <= j < i && #[trigger] names[j] == name@ ==> j == at,
                None => forall|j: int| 0 <= j < i ==> #[trigger] names[j] != name@,
            },
        decreases header.len() - i,
    {
        assert(names[i as int] == header[i as int]@);
        if header[i] == name {
            match found {
                Some(at) => {
                    assert forall|k: int| !is_sole_position(names, name@, k) by {
                        if is_sole_position(names, name@, k) {
                            assert(names[at as int] == name@);
                            assert(names[i as int] == name@);
                        }
                    }
                    return None;
                },
                None => {
                    found = Some(i);
                },
            }
        }
        i += 1;
    }
    match found {
        Some(at) => {
            assert(is_sole_position(names, name@, at as int));
        },
        None => {},
    }
    found
}

/// Maps the rows of a table, the header row first, onto records.
pub fn records_from_rows(rows: &Vec<Vec<String>>) -> (result: Result<Vec<Output>, LogError>)
    ensures
        match result {
            Ok(records) => rows_outcome(rows.deep_view()) == Ok::<Seq<OutputView>, LogErrorView>(
                records.deep_view(),
            ),
            Err(e) => rows_outcome(rows.deep_view()) == Err::<Seq<OutputView>, LogErrorView>(e@),
        },
{
    let ghost table = rows.deep_view();
    let mut records: Vec<Output> = Vec::new();
    if rows.len() <= 1 {
        assert(records.deep_view() == Seq::<OutputView>::empty());
        return Ok(records);
    }
    let header = &rows[0];
    assert(table[0] == header.deep_view());
    let temp = match find_column(header, Column::GpuTemp) {
        Some(at) => at,
        None => {
            return Err(LogError::Parse);
        },
    };
    let core_clock = match find_column(header, Column::GpuCoreClock) {
        Some(at) => at,
        None => {
            return Err(LogError::Parse);
        },
    };
    let mem_clock = match find_column(header, Column::GpuMemClock) {
        Some(at) => at,
        None => {
            return Err(LogError::Parse);
        },
    };
    let vram_used = match find_column(header, Column::GpuVramUsed) {
        Some(at) => at,
        None => {
            return Err(LogError::Parse);
        },
    };
    let power = match find_column(header, Column::GpuPower) {
        Some(at) => at,
        None => {
            return Err(LogError::Parse);
        },
    };
    let mut i: usize = 1;
    while i < rows.len()
        invariant
            1 <= i <= rows.len(),
            table == rows.deep_view(),
            header.deep_view() == table[0],
            header_maps(table[0]),
            sole_position(table[0], Column::GpuTemp.name()) == Some(temp as int),
            sole_position(table[0], Column::GpuCoreClock.name()) == Some(core_clock as int),
            sole_position(table[0], Column::GpuMemClock.name()) == Some(mem_clock as int),
            sole_position(table[0], Column::GpuVramUsed.name()) == Some(vram_used as int),
            sole_position(table[0], Column::GpuPower.name()) == Some(power as int),
            temp < header.len(),
            core_clock < header.len(),
            mem_clock < header.len(),
            vram_used < header.len(),
            power < header.len(),
            forall|j: int| 1 <= j < i ==> (#[trigger] table[j]).len() == table[0].len(),
            records.len() == i - 1,
            forall|j: int|
                0 <= j < i - 1 ==> (#[trigger] records[j])@ == row_record(table[0], table[j + 1]),
        decreases rows.len() - i,
    {
        let row = &rows[i];
        assert(table[i as int] == row.deep_view());
        if row.len() != header.len() {
            return Err(LogError::Parse);
        }
        let record = Output {
            description: String::new(),
            score: String::new(),
            gpu_temp: row[temp].clone(),
            gpu_core_clock: row[core_clock].clone(),
            gpu_mem_clock: row[mem_clock].clone(),
            gpu_vram_used: row[vram_used].clone(),
            gpu_power: row[power].clone(),
        };
        assert(record@ == row_record(table[0], table[i as int]));
        records.push(record);
        i += 1;
    }
    assert(records.deep_view() == Seq::new(
        (table.len() - 1) as nat,
        |i: int| row_record(table[0], table[i + 1]),
    ));
    Ok(records)
}

/// Reads the records of a log from its lines: drops the first two lines,
/// reads the rest as CSV with a header row, and maps each data row onto a
/// record by the names of the five numeric columns.
///
/// A log of at most two lines has no record. The result is
/// `LogError::Parse` where the rest is not well-formed CSV, or where there
/// is a data row and the header does not name each numeric column exactly
/// once.
pub fn read_csv(lines: &Vec<Option<String>>) -> (result: Result<Vec<Output>, LogError>)
    ensures
        match result {
            Ok(records) => read_outcome(lines.deep_view()) == Ok::<Seq<OutputView>, LogErrorView>(
                records.deep_view(),
            ),
            Err(e) => read_outcome(lines.deep_view()) == Err::<Seq<OutputView>, LogErrorView>(e@),
        },
        lines.len() <= 2 ==> result is Ok && result->Ok_0.len() == 0,
{
    let body = table_text(lines);
    match parse_rows(body.as_str()) {
        Ok(rows) => {
            let result = records_from_rows(&rows);
            proof {
                if lines.len() <= 2 {
                    assert(rows.deep_view().len() == 0);
                    assert(result->Ok_0.deep_view().len() == 0);
                }
            }
            result
        },
        Err(_) => Err(LogError::Parse),
    }
}

} // verus!
