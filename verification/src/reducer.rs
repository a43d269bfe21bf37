//! The mean of each numeric column over the records of a log.
//!
//! The readings of a column are counted in a unit that fits the column: a
//! power of ten seventeen places below the first digit of the largest
//! reading. Every reading then counts fewer than ten to the power of
//! eighteen units, the sum is exact integer arithmetic, and what is cut off
//! of a reading or of the mean is less than one unit, which is less than one
//! part in ten to the power of seventeen of the largest reading.

use crate::decimal::{
    format_number, lemma_reading_digits, lemma_text_round_trip, lemma_units_at_least,
    lemma_units_bound, measure, number_text, parse_number, reading, Magnitude, Numeral,
    ORDER_BOUND,
};
use crate::record::{Column, LogError, LogErrorView, Output, OutputView};
use vstd::prelude::*;
use vstd::string::*;

verus! {

/// How many places below the first digit of the largest reading of a column
/// its unit stands.
pub const PLACES_KEPT: i64 = 17;

/// The reading that `record` holds in `column`, if its text writes one.
pub open spec fn reading_of(record: OutputView, column: Column) -> Option<Numeral> {
    reading(column.text_in(record))
}

/// The first column of `record` whose text writes no reading, in the order
/// in which the columns of a record are read.
pub open spec fn row_fault(record: OutputView) -> Option<Column> {
    if reading_of(record, Column::GpuTemp) is None {
        Some(Column::GpuTemp)
    } else if reading_of(record, Column::GpuCoreClock) is None {
        Some(Column::GpuCoreClock)
    } else if reading_of(record, Column::GpuMemClock) is None {
        Some(Column::GpuMemClock)
    } else if reading_of(record, Column::GpuPower) is None {
        Some(Column::GpuPower)
    } else if reading_of(record, Column::GpuVramUsed) is None {
        Some(Column::GpuVramUsed)
    } else {
        None
    }
}

/// How many records at the start of `records` hold five readings each.
pub open spec fn clean_run(records: Seq<OutputView>) -> int
    decreases records.len(),
{
    if records.len() > 0 && row_fault(records[0]) is None {
        1 + clean_run(records.drop_first())
    } else {
        0
    }
}

/// The greater of `greatest`, the greatest order so far, and the order of
/// `n`. Zero has no order and changes nothing.
pub open spec fn widened(greatest: Option<int>, n: Numeral) -> Option<int> {
    if n.is_zero() {
        greatest
    } else {
        match greatest {
            Some(o) => Some(if n.order() > o { n.order() } else { o }),
            None => Some(n.order()),
        }
    }
}

/// The order of the largest reading of `column`, or `None` where every
/// reading is zero.
pub open spec fn column_order(records: Seq<OutputView>, column: Column) -> Option<int>
    decreases records.len(),
{
    if records.len() == 0 {
        None
    } else {
        let rest = column_order(records.drop_last(), column);
        match reading_of(records.last(), column) {
            Some(n) => widened(rest, n),
            None => rest,
        }
    }
}

/// The power of ten of the unit that fits readings of which the largest
/// has the order `order`: seventeen places below it, but not below
/// `-ORDER_BOUND`.
pub open spec fn unit_for(order: Option<int>) -> int {
    match order {
        Some(o) => if o - PLACES_KEPT >= -ORDER_BOUND {
            o - PLACES_KEPT
        } else {
            -ORDER_BOUND as int
        },
        None => 0,
    }
}

/// The power of ten of the unit in which `column` is summed.
pub open spec fn column_unit(records: Seq<OutputView>, column: Column) -> int {
    unit_for(column_order(records, column))
}

/// The sum of the readings of `column` over `records`, each in whole units
/// of ten to the power of `unit`. A text that writes no reading counts as
/// zero.
pub open spec fn column_total(records: Seq<OutputView>, column: Column, unit: int) -> int
    decreases records.len(),
{
    if records.len() == 0 {
        0
    } else {
        column_total(records.drop_last(), column, unit) + match reading_of(
            records.last(),
            column,
        ) {
            Some(n) => n.units(unit),
            None => 0,
        }
    }
}

/// The mean of `count` readings that sum to `total`, in whole units: the
/// quotient, rounded towards zero.
pub open spec fn mean_units(total: int, count: int) -> int {
    if total >= 0 {
        total / count
    } else {
        -((-total) / count)
    }
}

/// The mean of `column` over `records`, in whole units of the column.
pub open spec fn column_mean(records: Seq<OutputView>, column: Column) -> int {
    mean_units(
        column_total(records, column, column_unit(records, column)),
        records.len() as int,
    )
}

/// The text of the mean of `column` over `records`.
pub open spec fn mean_text(records: Seq<OutputView>, column: Column) -> Seq<char> {
    number_text(column_mean(records, column), column_unit(records, column))
}

/// What averaging `records` gives: the summary record under the given
/// description and score, or the reason why there is none.
pub open spec fn average_outcome(
    description: Seq<char>,
    score: Seq<char>,
    records: Seq<OutputView>,
) -> Result<OutputView, LogErrorView> {
    let k = clean_run(records);
    if records.len() == 0 {
        Err(LogErrorView::EmptyInput)
    } else if k < records.len() {
        let field = row_fault(records[k])->0;
        Err(LogErrorView::NumericParse { field, value: field.text_in(records[k]) })
    } else {
        Ok(
            OutputView {
                description,
                score,
                gpu_temp: mean_text(records, Column::GpuTemp),
                gpu_core_clock: mean_text(records, Column::GpuCoreClock),
                gpu_mem_clock: mean_text(records, Column::GpuMemClock),
                gpu_vram_used: mean_text(records, Column::GpuVramUsed),
                gpu_power: mean_text(records, Column::GpuPower),
            },
        )
    }
}

proof fn lemma_clean_run(records: Seq<OutputView>, k: int)
    requires
        0 <= k <= records.len(),
        forall|i: int| 0 <= i < k ==> row_fault(#[trigger] records[i]) is None,
        k < records.len() ==> row_fault(records[k]) is Some,
    ensures
        clean_run(records) == k,
    decreases k,
{
    if k > 0 {
        lemma_clean_run(records.drop_first(), k - 1);
    }
}

proof fn lemma_clean_run_prefix(records: Seq<OutputView>)
    ensures
        0 <= clean_run(records) <= records.len(),
        forall|i: int| 0 <= i < clean_run(records) ==> row_fault(#[trigger] records[i]) is None,
    decreases records.len(),
{
    if records.len() > 0 && row_fault(records[0]) is None {
        let rest = records.drop_first();
        lemma_clean_run_prefix(rest);
        assert forall|i: int| 0 <= i < clean_run(records) implies row_fault(
            #[trigger] records[i],
        ) is None by {
            if i > 0 {
                assert(records[i] == rest[i - 1]);
            }
        }
    }
}

/// No reading of a column has a greater order than the column, and the
/// order of the column keeps within `ORDER_BOUND`.
proof fn lemma_order_greatest(records: Seq<OutputView>, column: Column, i: int)
    requires
        0 <= i < records.len(),
    ensures
        column_order(records, column) matches Some(o) ==> o <= ORDER_BOUND,
        reading_of(records[i], column) matches Some(n) ==> n.is_zero() || (column_order(
            records,
            column,
        ) matches Some(o) && n.order() <= o),
    decreases records.len(),
{
    let rest = records.drop_last();
    if rest.len() > 0 {
        lemma_order_greatest(rest, column, if i < rest.len() { i } else { 0 });
    } else {
        assert(column_order(rest, column) is None);
    }
    if i < rest.len() {
        assert(rest[i] == records[i]);
    } else {
        assert(records.last() == records[i]);
    }
    match reading_of(records.last(), column) {
        Some(n) => {
            assert(n.in_range());
            assert(column_order(records, column) == widened(column_order(rest, column), n));
        },
        None => {},
    }
}

/// Whether `unit` fits every reading of `column`: none has its first digit
/// more than seventeen places above the unit.
pub open spec fn unit_fits(records: Seq<OutputView>, column: Column, unit: int) -> bool {
    forall|i: int|
        0 <= i < records.len() ==> (reading_of(#[trigger] records[i], column) matches Some(n)
            ==> n.is_zero() || unit >= n.order() - PLACES_KEPT)
}

proof fn lemma_column_unit_fits(records: Seq<OutputView>, column: Column)
    ensures
        unit_fits(records, column, column_unit(records, column)),
        -ORDER_BOUND <= column_unit(records, column) <= ORDER_BOUND - PLACES_KEPT,
{
    assert forall|i: int| 0 <= i < records.len() implies (reading_of(
        #[trigger] records[i],
        column,
    ) matches Some(n) ==> n.is_zero() || column_unit(records, column) >= n.order()
        - PLACES_KEPT) by {
        lemma_order_greatest(records, column, i);
    }
    if records.len() > 0 {
        lemma_order_greatest(records, column, 0);
    }
}

/// The mean lies within one unit of the exact quotient, on the side of zero:
/// `count` times the mean differs from `total` by less than `count`, and
/// never exceeds it in size.
pub proof fn lemma_mean_within_one_unit(total: int, count: int)
    requires
        count > 0,
    ensures
        total >= 0 ==> count * mean_units(total, count) <= total < count * (mean_units(
            total,
            count,
        ) + 1),
        total < 0 ==> count * (mean_units(total, count) - 1) < total <= count * mean_units(
            total,
            count,
        ),
{
    let size = if total >= 0 { total } else { -total };
    vstd::arithmetic::div_mod::lemma_fundamental_div_mod(size, count);
    vstd::arithmetic::div_mod::lemma_mod_bound(size, count);
    assert(count * (size / count + 1) == count * (size / count) + count) by (nonlinear_arith);
    assert(count * (-(size / count)) == -(count * (size / count))) by (nonlinear_arith);
    assert(count * (-(size / count) - 1) == -(count * (size / count)) - count)
        by (nonlinear_arith);
}

proof fn lemma_mean_bounds(total: int, count: int, bound: int)
    requires
        count > 0,
        bound >= 0,
        -(count * bound) <= total <= count * bound,
    ensures
        -bound <= mean_units(total, count) <= bound,
{
    lemma_mean_within_one_unit(total, count);
    let mean = mean_units(total, count);
    if total >= 0 {
        assert(0 <= mean <= bound) by (nonlinear_arith)
            requires
                count > 0,
                count * mean <= total,
                total < count * (mean + 1),
                0 <= total <= count * bound,
        ;
    } else {
        assert(-bound <= mean <= 0) by (nonlinear_arith)
            requires
                count > 0,
                count * (mean - 1) < total,
                total <= count * mean,
                -(count * bound) <= total < 0,
        ;
    }
}

/// The reading of `records` at `i` is one of the largest of `column`: it is
/// not zero and its order is the order of the column.
pub open spec fn is_largest(records: Seq<OutputView>, column: Column, i: int) -> bool {
    &&& 0 <= i < records.len()
    &&& reading_of(records[i], column) matches Some(n) && !n.is_zero() && column_order(
        records,
        column,
    ) == Some(n.order())
}

proof fn lemma_order_attained(records: Seq<OutputView>, column: Column) -> (i: int)
    requires
        column_order(records, column) is Some,
    ensures
        is_largest(records, column, i),
    decreases records.len(),
{
    let rest = records.drop_last();
    let last = records.len() - 1;
    assert(records.last() == records[last]);
    match reading_of(records.last(), column) {
        Some(n) => {
            if !n.is_zero() && column_order(records, column) == Some(n.order()) {
                last
            } else {
                let i = lemma_order_attained(rest, column);
                assert(rest[i] == records[i]);
                i
            }
        },
        None => {
            let i = lemma_order_attained(rest, column);
            assert(rest[i] == records[i]);
            i
        },
    }
}

/// The unit of a column is fine against its largest reading. Where some
/// reading of the column is not zero and the unit stands above
/// `-ORDER_BOUND`, a largest reading counts at least ten to the power of
/// seventeen units. What is cut off of each reading and of the mean, less
/// than one unit each, is therefore less than one part in ten to the power
/// of seventeen of the largest reading.
pub proof fn lemma_unit_is_fine(records: Seq<OutputView>, column: Column) -> (i: int)
    requires
        column_order(records, column) matches Some(o) && o - PLACES_KEPT >= -ORDER_BOUND,
    ensures
        is_largest(records, column, i),
        ({
            let units = reading_of(records[i], column)->0.units(column_unit(records, column));
            units >= 100_000_000_000_000_000 || units <= -100_000_000_000_000_000
        }),
{
    let i = lemma_order_attained(records, column);
    lemma_reading_digits(column.text_in(records[i]));
    lemma_units_at_least(reading_of(records[i], column)->0, column_unit(records, column));
    i
}

/// A summary holds the means of its records. Where there is a record and
/// every text writes a reading, averaging succeeds and carries the
/// description and the score over, and each numeric field of the summary
/// writes exactly the mean of its column: a whole number of units of the
/// column that lies within one unit of the sum of the column divided by the
/// number of records, on the side of zero.
pub proof fn lemma_summary_holds_the_means(
    description: Seq<char>,
    score: Seq<char>,
    records: Seq<OutputView>,
    column: Column,
)
    requires
        records.len() > 0,
        clean_run(records) == records.len(),
    ensures
        average_outcome(description, score, records) matches Ok(summary) && {
            let count = records.len() as int;
            let unit = column_unit(records, column);
            let total = column_total(records, column, unit);
            let mean = column_mean(records, column);
            &&& summary.description == description
            &&& summary.score == score
            &&& reading(column.text_in(summary)) matches Some(n) && n.denotes(mean, unit)
            &&& total >= 0 ==> count * mean <= total < count * (mean + 1)
            &&& total < 0 ==> count * (mean - 1) < total <= count * mean
            &&& unit_fits(records, column, unit)
        },
{
    let count = records.len() as int;
    let unit = column_unit(records, column);
    let total = column_total(records, column, unit);
    lemma_column_unit_fits(records, column);
    lemma_total_bounds(records, column, unit);
    lemma_mean_bounds(total, count, 999_999_999_999_999_999);
    lemma_mean_within_one_unit(total, count);
    lemma_text_round_trip(mean_units(total, count), unit);
}

proof fn lemma_total_bounds(records: Seq<OutputView>, column: Column, unit: int)
    requires
        unit_fits(records, column, unit),
    ensures
        -(records.len() * 999_999_999_999_999_999) <= column_total(records, column, unit)
            <= records.len() * 999_999_999_999_999_999,
    decreases records.len(),
{
    if records.len() > 0 {
        let rest = records.drop_last();
        assert forall|i: int| 0 <= i < rest.len() implies (reading_of(
            #[trigger] rest[i],
            column,
        ) matches Some(n) ==> n.is_zero() || unit >= n.order() - PLACES_KEPT) by {
            assert(rest[i] == records[i]);
        }
        lemma_total_bounds(rest, column, unit);
        assert(records.last() == records[records.len() - 1]);
        match reading_of(records.last(), column) {
            Some(n) => {
                lemma_reading_digits(column.text_in(records.last()));
                lemma_units_bound(n, unit);
            },
            None => {},
        }
    }
}


/// The order of a column so far, as a number of the model.
spec fn as_order(order: Option<i64>) -> Option<int> {
    match order {
        Some(o) => Some(o as int),
        None => None,
    }
}

/// Measures what `row` holds in `column` and widens `greatest`, the greatest
/// order of the column so far, by it.
fn measure_field(row: &Output, column: Column, greatest: Option<i64>) -> (result: Result<
    Option<i64>,
    LogError,
>)
    ensures
        match result {
            Ok(wider) => reading_of(row@, column) matches Some(n) && as_order(wider) == widened(
                as_order(greatest),
                n,
            ),
            Err(e) => reading_of(row@, column) is None && e@ == (LogErrorView::NumericParse {
                field: column,
                value: column.text_in(row@),
            }),
        },
{
    let text = column.field(row);
    match measure(text.as_str()) {
        None => Err(LogError::NumericParse { field: column, value: text.clone() }),
        Some(Magnitude::Zero) => Ok(greatest),
        Some(Magnitude::Order(order)) => Ok(
            match greatest {
                Some(o) => if order > o {
                    Some(order)
                } else {
                    Some(o)
                },
                None => Some(order),
            },
        ),
    }
}

fn mean_of(total: i128, count: usize) -> (mean: i64)
    requires
        count > 0,
        -(count * 999_999_999_999_999_999) <= total <= count * 999_999_999_999_999_999,
    ensures
        mean == mean_units(total as int, count as int),
{
    let n: u128 = count as u128;
    let size: u128 = if total >= 0 { total as u128 } else { (-total) as u128 };
    let quotient: u128 = size / n;
    proof {
        lemma_mean_bounds(total as int, count as int, 999_999_999_999_999_999);
    }
    if total >= 0 {
        quotient as i64
    } else {
        -(quotient as i64)
    }
}

/// Sums `column` over `output` in the unit that fits it and writes the mean.
fn write_mean(output: &Vec<Output>, column: Column, greatest: Option<i64>) -> (text: String)
    requires
        output.len() > 0,
        forall|i: int|
            0 <= i < output.len() ==> reading_of(
                #[trigger] output.deep_view()[i],
                column,
            ) is Some,
        as_order(greatest) == column_order(output.deep_view(), column),
    ensures
        text@ == mean_text(output.deep_view(), column),
{
    let ghost records = output.deep_view();
    proof {
        lemma_column_unit_fits(records, column);
    }
    let unit: i64 = match greatest {
        Some(o) => if o as i128 - PLACES_KEPT as i128 >= -(ORDER_BOUND as i128) {
            o - PLACES_KEPT
        } else {
            -ORDER_BOUND
        },
        None => 0,
    };
    assert(unit == column_unit(records, column));
    let count = output.len();
    let mut total: i128 = 0;
    let mut i: usize = 0;
    while i < count
        invariant
            i <= count,
            count == output.len(),
            records == output.deep_view(),
            unit_fits(records, column, unit as int),
            forall|j: int| 0 <= j < count ==> reading_of(#[trigger] records[j], column) is Some,
            total == column_total(records.take(i as int), column, unit as int),
            -(i * 999_999_999_999_999_999) <= total <= i * 999_999_999_999_999_999,
        decreases count - i,
    {
        let row = &output[i];
        proof {
            assert(records[i as int] == row@);
            assert(records.take(i + 1).drop_last() == records.take(i as int));
            assert(records.take(i + 1).last() == records[i as int]);
            lemma_reading_digits(column.text_in(row@));
            lemma_units_bound(reading_of(row@, column)->0, unit as int);
        }
        match parse_number(column.field(row).as_str(), unit) {
            Some(units) => {
                total = total + units as i128;
            },
            None => {
                assert(false);
            },
        }
        i += 1;
    }
    assert(records.take(count as int) == records);
    format_number(mean_of(total, count), unit)
}

/// Averages the five numeric columns of `output` into one record that
/// carries `description` and `score`.
///
/// Each column is summed in a unit of its own, a power of ten seventeen
/// places below the first digit of its largest reading, in which every
/// reading is cut to a whole number; the mean is the sum divided by the
/// number of records, rounded towards zero to a whole number of units. With
/// no record the result is `LogError::EmptyInput`. Where a text writes no
/// reading the result is `LogError::NumericParse` for the first such text,
/// going record by record and, within a record, in the order temperature,
/// core clock, memory clock, power, memory used.
pub fn average(description: &String, score: &String, output: &Vec<Output>) -> (result: Result<
    Output,
    LogError,
>)
    ensures
        match result {
            Ok(mean) => average_outcome(description@, score@, output.deep_view()) == Ok::<
                OutputView,
                LogErrorView,
            >(mean@),
            Err(e) => average_outcome(description@, score@, output.deep_view()) == Err::<
                OutputView,
                LogErrorView,
            >(e@),
        },
        result is Ok <==> output.len() > 0 && clean_run(output.deep_view()) == output.len(),
        output.len() == 0 ==> result == Err::<Output, LogError>(LogError::EmptyInput),
{
    let ghost records = output.deep_view();
    let count = output.len();
    if count == 0 {
        return Err(LogError::EmptyInput);
    }
    let mut temp: Option<i64> = None;
    let mut core_clock: Option<i64> = None;
    let mut mem_clock: Option<i64> = None;
    let mut vram_used: Option<i64> = None;
    let mut power: Option<i64> = None;
    let mut i: usize = 0;
    while i < count
        invariant
            i <= count,
            count == output.len(),
            records == output.deep_view(),
            forall|j: int| 0 <= j < i ==> row_fault(#[trigger] records[j]) is None,
            as_order(temp) == column_order(records.take(i as int), Column::GpuTemp),
            as_order(core_clock) == column_order(records.take(i as int), Column::GpuCoreClock),
            as_order(mem_clock) == column_order(records.take(i as int), Column::GpuMemClock),
            as_order(vram_used) == column_order(records.take(i as int), Column::GpuVramUsed),
            as_order(power) == column_order(records.take(i as int), Column::GpuPower),
        decreases count - i,
    {
        let row = &output[i];
        proof {
            assert(records[i as int] == row@);
            assert(records.take(i + 1).drop_last() == records.take(i as int));
            assert(records.take(i + 1).last() == records[i as int]);
            if row_fault(row@) is Some {
                lemma_clean_run(records, i as int);
            }
        }
        temp = measure_field(row, Column::GpuTemp, temp)?;
        core_clock = measure_field(row, Column::GpuCoreClock, core_clock)?;
        mem_clock = measure_field(row, Column::GpuMemClock, mem_clock)?;
        power = measure_field(row, Column::GpuPower, power)?;
        vram_used = measure_field(row, Column::GpuVramUsed, vram_used)?;
        i += 1;
    }
    proof {
        lemma_clean_run(records, count as int);
        assert(records.take(count as int) == records);
        assert forall|j: int| 0 <= j < count implies reading_of(
            #[trigger] records[j],
            Column::GpuTemp,
        ) is Some && reading_of(records[j], Column::GpuCoreClock) is Some && reading_of(
            records[j],
            Column::GpuMemClock,
        ) is Some && reading_of(records[j], Column::GpuVramUsed) is Some && reading_of(
            records[j],
            Column::GpuPower,
        ) is Some by {
            assert(row_fault(records[j]) is None);
        }
    }
    Ok(
        Output {
            description: description.clone(),
            score: score.clone(),
            gpu_temp: write_mean(output, Column::GpuTemp, temp),
            gpu_core_clock: write_mean(output, Column::GpuCoreClock, core_clock),
            gpu_mem_clock: write_mean(output, Column::GpuMemClock, mem_clock),
            gpu_vram_used: write_mean(output, Column::GpuVramUsed, vram_used),
            gpu_power: write_mean(output, Column::GpuPower, power),
        },
    )
}

} // verus!
