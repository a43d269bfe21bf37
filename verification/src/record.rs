//! The summary record, its numeric columns, and the errors of the library.

use vstd::prelude::*;
use vstd::string::*;

verus! {

/// One row of telemetry, or the summary of many: a label, a score, and five
/// readings, each held as the decimal text that stands in the file.
#[derive(Debug, Clone, PartialEq, Eq)]
pub struct Output {
    pub description: String,
    pub score: String,
    pub gpu_temp: String,
    pub gpu_core_clock: String,
    pub gpu_mem_clock: String,
    pub gpu_vram_used: String,
    pub gpu_power: String,
}

/// What an `Output` holds, as sequences of characters.
pub struct OutputView {
    pub description: Seq<char>,
    pub score: Seq<char>,
    pub gpu_temp: Seq<char>,
    pub gpu_core_clock: Seq<char>,
    pub gpu_mem_clock: Seq<char>,
    pub gpu_vram_used: Seq<char>,
    pub gpu_power: Seq<char>,
}

impl View for Output {
    type V = OutputView;

    open spec fn view(&self) -> OutputView {
        OutputView {
            description: self.description@,
            score: self.score@,
            gpu_temp: self.gpu_temp@,
            gpu_core_clock: self.gpu_core_clock@,
            gpu_mem_clock: self.gpu_mem_clock@,
            gpu_vram_used: self.gpu_vram_used@,
            gpu_power: self.gpu_power@,
        }
    }
}

impl DeepView for Output {
    type V = OutputView;

    open spec fn deep_view(&self) -> OutputView {
        self@
    }
}

/// The five numeric columns of a record.
#[derive(Debug, Clone, Copy, PartialEq, Eq, Structural)]
pub enum Column {
    GpuTemp,
    GpuCoreClock,
    GpuMemClock,
    GpuVramUsed,
    GpuPower,
}

impl Column {
    /// The name of the column in a header row.
    pub open spec fn name(self) -> Seq<char> {
        match self {
            Column::GpuTemp => "gpu_temp"@,
            Column::GpuCoreClock => "gpu_core_clock"@,
            Column::GpuMemClock => "gpu_mem_clock"@,
            Column::GpuVramUsed => "gpu_vram_used"@,
            Column::GpuPower => "gpu_power"@,
        }
    }

    /// The text that `record` holds in this column.
    pub open spec fn text_in(self, record: OutputView) -> Seq<char> {
        match self {
            Column::GpuTemp => record.gpu_temp,
            Column::GpuCoreClock => record.gpu_core_clock,
            Column::GpuMemClock => record.gpu_mem_clock,
            Column::GpuVramUsed => record.gpu_vram_used,
            Column::GpuPower => record.gpu_power,
        }
    }

    /// The name of the column in a header row.
    pub fn title(self) -> (title: &'static str)
        ensures
            title@ == self.name(),
    {
        match self {
            Column::GpuTemp => "gpu_temp",
            Column::GpuCoreClock => "gpu_core_clock",
            Column::GpuMemClock => "gpu_mem_clock",
            Column::GpuVramUsed => "gpu_vram_used",
            Column::GpuPower => "gpu_power",
        }
    }

    /// The text that `record` holds in this column.
    pub fn field(self, record: &Output) -> (text: &String)
        ensures
            text@ == self.text_in(record@),
    {
        match self {
            Column::GpuTemp => &record.gpu_temp,
            Column::GpuCoreClock => &record.gpu_core_clock,
            Column::GpuMemClock => &record.gpu_mem_clock,
            Column::GpuVramUsed => &record.gpu_vram_used,
            Column::GpuPower => &record.gpu_power,
        }
    }
}

/// Why a log could not be read, averaged or framed.
#[derive(Debug, Clone, PartialEq, Eq)]
pub enum LogError {
    /// The rows are not well-formed CSV, or a data row cannot be mapped onto
    /// the five numeric columns.
    Parse,
    /// The text of a reading writes no number; `field` is its column and
    /// `value` the text.
    NumericParse { field: Column, value: String },
    /// There is no record to average.
    EmptyInput,
    /// A row could not be encoded. Encoding into memory does not fail, so
    /// nothing in this library gives this error; it is what the `Err` of
    /// `write_csv` would hold.
    Write,
}

/// What a `LogError` holds, as sequences of characters.
pub enum LogErrorView {
    Parse,
    NumericParse { field: Column, value: Seq<char> },
    EmptyInput,
    Write,
}

impl View for LogError {
    type V = LogErrorView;

    open spec fn view(&self) -> LogErrorView {
        match self {
            LogError::Parse => LogErrorView::Parse,
            LogError::NumericParse { field, value } => LogErrorView::NumericParse {
                field: *field,
                value: value@,
            },
            LogError::EmptyInput => LogErrorView::EmptyInput,
            LogError::Write => LogErrorView::Write,
        }
    }
}

} // verus!
