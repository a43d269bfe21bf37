//! Decimal numerals and their values.
//!
//! The text of a reading is a decimal numeral: an optional sign, digits with
//! an optional point among them, and optionally an exponent, as in `61`,
//! `-0.25`, `.5` or `1.5e3`. Its value is exact: its digits, read as one
//! whole number, times a power of ten. There is no text for an infinite
//! value or for one that is not a number.
//!
//! Arithmetic is done on whole numbers of a unit that is itself a power of
//! ten and that the caller chooses to fit the values at hand, so that sums
//! are exact integer arithmetic whatever the size of the values.

use vstd::prelude::*;
use vstd::string::*;

verus! {

/// The widest power of ten that a numeral may reach, up or down: its last
/// digit stands no lower than ten to the power of `-ORDER_BOUND`, and its
/// first digit that is not zero no higher than ten to the power of
/// `ORDER_BOUND`.
pub const ORDER_BOUND: i64 = 1_000_000_000_000_000_000;

/// Whether `c` is one of the ten decimal digits.
pub open spec fn is_digit(c: char) -> bool {
    '0' <= c <= '9'
}

/// The number that the digit `c` stands for.
pub open spec fn digit_value(c: char) -> int {
    c as int - '0' as int
}

/// Whether every character of `s` is a digit.
pub open spec fn all_digits(s: Seq<char>) -> bool {
    forall|i: int| 0 <= i < s.len() ==> is_digit(#[trigger] s[i])
}

/// The natural number that a string of digits writes in base ten.
pub open spec fn digits_value(s: Seq<char>) -> int
    decreases s.len(),
{
    if s.len() == 0 {
        0
    } else {
        10 * digits_value(s.drop_last()) + digit_value(s.last())
    }
}

/// The length of the longest prefix of `s` that is made of digits.
pub open spec fn digit_run(s: Seq<char>) -> int
    decreases s.len(),
{
    if s.len() > 0 && is_digit(s[0]) {
        1 + digit_run(s.drop_first())
    } else {
        0
    }
}

/// Ten to the power of `n`.
pub open spec fn pow10(n: nat) -> int
    decreases n,
{
    if n == 0 {
        1
    } else {
        10 * pow10((n - 1) as nat)
    }
}

/// `n` times ten to the power of `shift`, rounded down to a whole number.
pub open spec fn scaled(n: int, shift: int) -> int {
    if shift >= 0 {
        n * pow10(shift as nat)
    } else {
        n / pow10((-shift) as nat)
    }
}

/// Whether `s` starts with a sign.
pub open spec fn has_sign(s: Seq<char>) -> bool {
    s.len() > 0 && (s[0] == '-' || s[0] == '+')
}

/// Whether `s` starts with a minus sign.
pub open spec fn is_negative(s: Seq<char>) -> bool {
    s.len() > 0 && s[0] == '-'
}

/// `s` without the sign that it may start with.
pub open spec fn unsigned(s: Seq<char>) -> Seq<char> {
    if has_sign(s) {
        s.skip(1)
    } else {
        s
    }
}

/// The power of ten that the rest of a numeral after its digits asks for:
/// zero where nothing follows, and otherwise the number behind an `e` or `E`,
/// which is an optional sign and at least one digit. `None` for any other
/// rest.
pub open spec fn exponent_value(tail: Seq<char>) -> Option<int> {
    if tail.len() == 0 {
        Some(0)
    } else if tail[0] == 'e' || tail[0] == 'E' {
        let digits = unsigned(tail.skip(1));
        if digits.len() > 0 && all_digits(digits) {
            Some(
                if is_negative(tail.skip(1)) {
                    -digits_value(digits)
                } else {
                    digits_value(digits)
                },
            )
        } else {
            None
        }
    } else {
        None
    }
}

/// The length of the longest prefix of `s` that is made of zeros.
pub open spec fn zero_run(s: Seq<char>) -> int
    decreases s.len(),
{
    if s.len() > 0 && s[0] == '0' {
        1 + zero_run(s.drop_first())
    } else {
        0
    }
}

/// A decimal numeral taken apart: its value is the number that `digits`
/// writes, times ten to the power of `exponent`, with a minus sign where
/// `negative` holds.
pub struct Numeral {
    pub negative: bool,
    pub digits: Seq<char>,
    pub exponent: int,
}

impl Numeral {
    /// Whether the value is zero: every digit is.
    pub open spec fn is_zero(self) -> bool {
        zero_run(self.digits) == self.digits.len()
    }

    /// The power of ten at which the first digit that is not zero stands.
    /// A value that is not zero lies between ten to this power and ten times
    /// as much.
    pub open spec fn order(self) -> int {
        self.exponent + self.digits.len() - zero_run(self.digits) - 1
    }

    /// Whether the numeral keeps within `ORDER_BOUND`. Zero always does.
    pub open spec fn in_range(self) -> bool {
        self.is_zero() || (self.exponent >= -ORDER_BOUND && self.order() <= ORDER_BOUND)
    }

    /// The value in units of ten to the power of `unit`, rounded towards
    /// zero to a whole number.
    pub open spec fn units(self, unit: int) -> int {
        let size = scaled(digits_value(self.digits), self.exponent - unit);
        if self.negative {
            -size
        } else {
            size
        }
    }

    /// Whether the value is exactly `units` units of ten to the power of
    /// `unit`.
    pub open spec fn denotes(self, units: int, unit: int) -> bool {
        let size = if units < 0 { -units } else { units };
        &&& units != 0 ==> self.negative == (units < 0)
        &&& if self.exponent >= unit {
            digits_value(self.digits) * pow10((self.exponent - unit) as nat) == size
        } else {
            digits_value(self.digits) == size * pow10((unit - self.exponent) as nat)
        }
    }
}

/// The numeral that `s` writes, if it is well formed: an optional sign,
/// digits, optionally a point and more digits, with at least one digit in
/// all, and optionally an exponent. The digits before and after the point
/// are read as one number, and each digit after the point takes one off the
/// exponent.
pub open spec fn numeral(s: Seq<char>) -> Option<Numeral> {
    let body = unsigned(s);
    let k = digit_run(body);
    let pointed = k < body.len() && body[k] == '.';
    let after = body.skip(if pointed { k + 1 } else { k });
    let f = if pointed { digit_run(after) } else { 0 };
    if k + f == 0 {
        None
    } else {
        match exponent_value(after.skip(f)) {
            Some(e) => Some(
                Numeral {
                    negative: is_negative(s),
                    digits: body.take(k) + after.take(f),
                    exponent: e - f,
                },
            ),
            None => None,
        }
    }
}

/// The numeral that the text of a reading writes, or `None` where the text
/// is no numeral or does not keep within `ORDER_BOUND`.
pub open spec fn reading(s: Seq<char>) -> Option<Numeral> {
    match numeral(s) {
        Some(n) => if n.in_range() {
            Some(n)
        } else {
            None
        },
        None => None,
    }
}

proof fn lemma_digit_run(s: Seq<char>, k: int)
    requires
        0 <= k <= s.len(),
        forall|i: int| 0 <= i < k ==> is_digit(#[trigger] s[i]),
        k < s.len() ==> !is_digit(s[k]),
    ensures
        digit_run(s) == k,
    decreases k,
{
    if k > 0 {
        lemma_digit_run(s.drop_first(), k - 1);
    }
}

proof fn lemma_digit_run_prefix(s: Seq<char>)
    ensures
        0 <= digit_run(s) <= s.len(),
        forall|i: int| 0 <= i < digit_run(s) ==> is_digit(#[trigger] s[i]),
        digit_run(s) < s.len() ==> !is_digit(s[digit_run(s)]),
    decreases s.len(),
{
    if s.len() > 0 && is_digit(s[0]) {
        let t = s.drop_first();
        lemma_digit_run_prefix(t);
        assert forall|i: int| 0 <= i < digit_run(s) implies is_digit(#[trigger] s[i]) by {
            if i > 0 {
                assert(s[i] == t[i - 1]);
            }
        }
        if digit_run(s) < s.len() {
            assert(s[digit_run(s)] == t[digit_run(t)]);
        }
    }
}

proof fn lemma_pow10_positive(n: nat)
    ensures
        pow10(n) > 0,
    decreases n,
{
    if n > 0 {
        lemma_pow10_positive((n - 1) as nat);
    }
}

proof fn lemma_pow10_adds(a: nat, b: nat)
    ensures
        pow10(a + b) == pow10(a) * pow10(b),
    decreases b,
{
    if b == 0 {
        assert(pow10(a) * 1 == pow10(a));
    } else {
        lemma_pow10_adds(a, (b - 1) as nat);
        assert(a + b - 1 == a + (b - 1));
        assert(10 * (pow10(a) * pow10((b - 1) as nat)) == pow10(a) * (10 * pow10((b - 1) as nat)))
            by (nonlinear_arith);
    }
}

proof fn lemma_pow10_increases(a: nat, b: nat)
    requires
        a <= b,
    ensures
        pow10(a) <= pow10(b),
    decreases b,
{
    if a < b {
        lemma_pow10_increases(a, (b - 1) as nat);
        lemma_pow10_positive((b - 1) as nat);
    }
}

proof fn lemma_digits_value_bounds(s: Seq<char>)
    requires
        all_digits(s),
    ensures
        0 <= digits_value(s) < pow10(s.len()),
    decreases s.len(),
{
    if s.len() > 0 {
        assert(is_digit(s.last()));
        lemma_digits_value_bounds(s.drop_last());
    }
}

proof fn lemma_digits_extend(s: Seq<char>, to: int)
    requires
        0 <= to < s.len(),
    ensures
        digits_value(s.take(to + 1)) == 10 * digits_value(s.take(to)) + digit_value(s[to]),
{
    assert(s.take(to + 1).drop_last() == s.take(to));
}

proof fn lemma_digits_concat(a: Seq<char>, b: Seq<char>)
    ensures
        digits_value(a + b) == digits_value(a) * pow10(b.len()) + digits_value(b),
    decreases b.len(),
{
    if b.len() == 0 {
        assert(a + b == a);
    } else {
        lemma_digits_concat(a, b.drop_last());
        assert((a + b).drop_last() == a + b.drop_last());
        assert(10 * (digits_value(a) * pow10((b.len() - 1) as nat)) == digits_value(a) * (10
            * pow10((b.len() - 1) as nat))) by (nonlinear_arith);
    }
}

/// Cutting digits off the end of a numeral divides its value by a power of
/// ten.
proof fn lemma_digits_take(s: Seq<char>, j: int)
    requires
        all_digits(s),
        0 <= j <= s.len(),
    ensures
        digits_value(s.take(j)) == digits_value(s) / pow10((s.len() - j) as nat),
    decreases s.len() - j,
{
    if j == s.len() {
        assert(s.take(j) == s);
    } else {
        lemma_digits_take(s, j + 1);
        lemma_digits_extend(s, j);
        let cut = pow10((s.len() - j - 1) as nat);
        lemma_pow10_positive((s.len() - j - 1) as nat);
        assert(all_digits(s.take(j))) by {
            assert forall|i: int| 0 <= i < s.take(j).len() implies is_digit(
                #[trigger] s.take(j)[i],
            ) by {
                assert(s.take(j)[i] == s[i]);
            }
        }
        lemma_digits_value_bounds(s.take(j));
        lemma_digits_value_bounds(s);
        assert(is_digit(s[j]));
        let v = digits_value(s.take(j));
        let d = digit_value(s[j]);
        assert((10 * v + d) / 10 == v);
        vstd::arithmetic::div_mod::lemma_div_denominator(digits_value(s), cut, 10);
        assert(cut * 10 == pow10((s.len() - j) as nat));
    }
}

/// A numeral is written in ASCII.
proof fn lemma_number_is_ascii(s: Seq<char>)
    requires
        numeral(s) is Some,
    ensures
        vstd::utf8::is_ascii_chars(s),
{
    let body = unsigned(s);
    let k = digit_run(body);
    let pointed = k < body.len() && body[k] == '.';
    let p = if pointed { k + 1 } else { k };
    let after = body.skip(p);
    let f = if pointed { digit_run(after) } else { 0 };
    let tail = after.skip(f);
    lemma_digit_run_prefix(body);
    lemma_digit_run_prefix(after);
    let shift: int = if has_sign(s) { 1 } else { 0 };
    assert forall|i: int| 0 <= i < s.len() implies '\0' <= #[trigger] s[i] <= '\u{7f}' by {
        if i >= shift {
            let j = i - shift;
            assert(body[j] == s[i]);
            if j < k {
                assert(is_digit(body[j]));
            } else if j >= p {
                let m = j - p;
                assert(after[m] == body[j]);
                if m < f {
                    assert(is_digit(after[m]));
                } else {
                    let t = m - f;
                    assert(tail[t] == after[m]);
                    if t > 0 {
                        let signed = tail.skip(1);
                        assert(signed[t - 1] == tail[t]);
                        let digits = unsigned(signed);
                        if has_sign(signed) {
                            if t > 1 {
                                assert(digits[t - 2] == signed[t - 1]);
                                assert(is_digit(digits[t - 2]));
                            }
                        } else {
                            assert(is_digit(digits[t - 1]));
                        }
                    }
                }
            }
        }
    }
}

/// A numeral that is moved down by at least as many places as it has digits
/// is worth nothing.
proof fn lemma_scaled_far_down(digits: Seq<char>, shift: int)
    requires
        all_digits(digits),
        -shift >= digits.len(),
        shift < 0,
    ensures
        scaled(digits_value(digits), shift) == 0,
{
    lemma_digits_value_bounds(digits);
    lemma_pow10_increases(digits.len(), (-shift) as nat);
    vstd::arithmetic::div_mod::lemma_basic_div(digits_value(digits), pow10((-shift) as nat));
}

const PLUS: u8 = 43;

const MINUS: u8 = 45;

const POINT: u8 = 46;

const DIGIT_ZERO: u8 = 48;

const DIGIT_NINE: u8 = 57;

const UPPER_E: u8 = 69;

const LOWER_E: u8 = 101;

/// The bound at which the scanner stops counting units: a number held at
/// the bound is the bound or more, and so beyond `i64::MAX`.
const UNITS_BOUND: u128 = 10_000_000_000_000_000_000;

/// The bound at which the scanner stops counting an exponent. A numeral
/// with an exponent held at the bound is zero or beyond `ORDER_BOUND`,
/// however many digits it has.
const EXPONENT_BOUND: i128 = 100_000_000_000_000_000_000;

/// Whether `bytes` are the characters of the ASCII text `text`, one byte
/// each.
spec fn spells(bytes: Seq<u8>, text: Seq<char>) -> bool {
    &&& bytes.len() == text.len()
    &&& forall|i: int| 0 <= i < text.len() ==> '\0' <= #[trigger] text[i] <= '\u{7f}'
    &&& forall|i: int| 0 <= i < text.len() ==> #[trigger] bytes[i] == text[i] as u8
}

/// Whether `units` holds `value` as the scanner counts it: exactly below the
/// bound, and at the bound for every value from the bound on.
spec fn holds(units: u128, value: int) -> bool {
    &&& units <= UNITS_BOUND
    &&& units < UNITS_BOUND ==> units == value
    &&& units == UNITS_BOUND ==> value >= UNITS_BOUND
}

/// Whether `held` holds the exponent `e`: exactly inside the bounds, and at
/// a bound for every exponent from that bound outwards.
spec fn holds_exponent(held: i128, e: int) -> bool {
    &&& -EXPONENT_BOUND <= held <= EXPONENT_BOUND
    &&& -EXPONENT_BOUND < held < EXPONENT_BOUND ==> held == e
    &&& held == EXPONENT_BOUND ==> e >= EXPONENT_BOUND
    &&& held == -EXPONENT_BOUND ==> e <= -EXPONENT_BOUND
}

fn is_digit_byte(byte: u8) -> (digit: bool)
    ensures
        digit == (DIGIT_ZERO <= byte <= DIGIT_NINE),
{
    DIGIT_ZERO <= byte && byte <= DIGIT_NINE
}

/// The end of the digits that start at `from`.
fn digits_end(bytes: &[u8], from: usize, Ghost(text): Ghost<Seq<char>>) -> (end: usize)
    requires
        spells(bytes@, text),
        from <= bytes.len(),
    ensures
        from <= end <= bytes.len(),
        digit_run(text.skip(from as int)) == end - from,
{
    let n = bytes.len();
    let mut end: usize = from;
    while end < n && is_digit_byte(bytes[end])
        invariant
            spells(bytes@, text),
            n == bytes.len(),
            from <= end <= n,
            forall|j: int| from <= j < end ==> is_digit(#[trigger] text[j]),
        decreases n - end,
    {
        end += 1;
    }
    proof {
        let rest = text.skip(from as int);
        assert forall|j: int| 0 <= j < end - from implies is_digit(#[trigger] rest[j]) by {
            assert(rest[j] == text[j + from]);
        }
        if end < n {
            assert(rest[end - from] == text[end as int]);
        }
        lemma_digit_run(rest, end - from);
    }
    end
}

/// Reads what follows the digits of a numeral, from `from` to the end.
#[verifier::loop_isolation(false)]
fn read_exponent(bytes: &[u8], from: usize, Ghost(text): Ghost<Seq<char>>) -> (held: Option<
    i128,
>)
    requires
        spells(bytes@, text),
        from <= bytes.len(),
    ensures
        match held {
            Some(h) => exponent_value(text.skip(from as int)) matches Some(e) && holds_exponent(
                h,
                e,
            ),
            None => exponent_value(text.skip(from as int)) is None,
        },
{
    let n = bytes.len();
    let ghost tail = text.skip(from as int);
    if from == n {
        return Some(0);
    }
    assert(tail[0] == text[from as int]);
    if bytes[from] != LOWER_E && bytes[from] != UPPER_E {
        return None;
    }
    let ghost signed = tail.skip(1);
    assert(signed == text.skip(from + 1));
    let mut c: usize = from + 1;
    let mut negative = false;
    if c < n {
        assert(signed[0] == text[c as int]);
        if bytes[c] == MINUS || bytes[c] == PLUS {
            negative = bytes[c] == MINUS;
            c += 1;
        }
    }
    let start = c;
    let ghost written = unsigned(signed);
    assert(written == text.skip(start as int));
    assert(negative == is_negative(signed));
    if c == n {
        return None;
    }
    let mut size: i128 = 0;
    while c < n
        invariant
            spells(bytes@, text),
            n == bytes.len(),
            start <= c <= n,
            written == text.skip(start as int),
            forall|j: int| start <= j < c ==> is_digit(#[trigger] text[j]),
            0 <= size <= EXPONENT_BOUND,
            size < EXPONENT_BOUND ==> size == digits_value(written.take(c - start)),
            size == EXPONENT_BOUND ==> digits_value(written.take(c - start)) >= EXPONENT_BOUND,
            exponent_value(tail) is Some ==> all_digits(written),
        decreases n - c,
    {
        assert(written[c - start] == text[c as int]);
        if !is_digit_byte(bytes[c]) {
            assert(!is_digit(written[c - start]));
            return None;
        }
        let d: i128 = (bytes[c] - DIGIT_ZERO) as i128;
        proof {
            lemma_digits_extend(written, c - start);
        }
        size = if size >= EXPONENT_BOUND / 10 {
            EXPONENT_BOUND
        } else {
            size * 10 + d
        };
        c += 1;
    }
    proof {
        assert(written.take(c - start) == written);
        assert forall|j: int| 0 <= j < written.len() implies is_digit(#[trigger] written[j]) by {
            assert(written[j] == text[j + start]);
        }
    }
    if negative {
        Some(-size)
    } else {
        Some(size)
    }
}

/// Counts on from `units`, which holds the value of the digits `before`,
/// over the digits from `from` to `to`.
fn read_digits(
    bytes: &[u8],
    from: usize,
    to: usize,
    units: u128,
    Ghost(text): Ghost<Seq<char>>,
    Ghost(before): Ghost<Seq<char>>,
) -> (counted: u128)
    requires
        spells(bytes@, text),
        from <= to <= bytes.len(),
        forall|j: int| from <= j < to ==> is_digit(#[trigger] text[j]),
        holds(units, digits_value(before)),
    ensures
        holds(counted, digits_value(before + text.subrange(from as int, to as int))),
{
    let ghost run = text.subrange(from as int, to as int);
    let mut counted: u128 = units;
    let mut i: usize = from;
    assert(before + run.take(0) == before);
    while i < to
        invariant
            spells(bytes@, text),
            from <= i <= to <= bytes.len(),
            run == text.subrange(from as int, to as int),
            forall|j: int| from <= j < to ==> is_digit(#[trigger] text[j]),
            holds(counted, digits_value(before + run.take(i - from))),
        decreases to - i,
    {
        assert(is_digit(text[i as int]));
        let d: u128 = (bytes[i] - DIGIT_ZERO) as u128;
        proof {
            let longer = before + run.take(i - from + 1);
            assert(longer.drop_last() == before + run.take(i - from));
            assert(longer.last() == text[i as int]);
        }
        counted = if counted >= UNITS_BOUND / 10 {
            UNITS_BOUND
        } else {
            counted * 10 + d
        };
        i += 1;
    }
    assert(run.take(to - from) == run);
    counted
}

/// Moves `units`, which holds `value`, up by `shift` places.
fn raise(units: u128, shift: i128, Ghost(value): Ghost<int>) -> (raised: u128)
    requires
        holds(units, value),
        value >= 0,
        shift >= 0,
    ensures
        holds(raised, scaled(value, shift as int)),
{
    let mut raised: u128 = units;
    let mut rest: i128 = shift;
    assert(value * pow10(0) == value) by {
        assert(pow10(0) == 1);
    }
    while rest > 0 && 0 < raised && raised < UNITS_BOUND
        invariant
            0 <= rest <= shift,
            value >= 0,
            holds(raised, scaled(value, shift - rest)),
        decreases rest,
    {
        proof {
            let done = (shift - rest) as nat;
            assert(pow10(done + 1) == 10 * pow10(done));
            assert(value * (10 * pow10(done)) == 10 * (value * pow10(done)))
                by (nonlinear_arith);
        }
        raised = if raised >= UNITS_BOUND / 10 {
            UNITS_BOUND
        } else {
            raised * 10
        };
        rest -= 1;
    }
    proof {
        let done = (shift - rest) as nat;
        lemma_pow10_positive(done);
        lemma_pow10_increases(done, shift as nat);
        if raised == 0 {
            assert(value == 0) by (nonlinear_arith)
                requires
                    value * pow10(done) == 0,
                    pow10(done) > 0,
            ;
            assert(value * pow10(shift as nat) == 0) by (nonlinear_arith)
                requires
                    value == 0,
            ;
        } else if raised == UNITS_BOUND {
            assert(value * pow10(shift as nat) >= value * pow10(done)) by (nonlinear_arith)
                requires
                    value >= 0,
                    pow10(shift as nat) >= pow10(done),
            ;
        }
    }
    raised
}

/// Counts the units of the digits from `start` to `a` and from `first` to
/// `b`, read as one number and moved by `shift` places.
fn collect(
    bytes: &[u8],
    start: usize,
    a: usize,
    first: usize,
    b: usize,
    shift: i128,
    Ghost(text): Ghost<Seq<char>>,
) -> (units: u128)
    requires
        spells(bytes@, text),
        start <= a <= first <= b <= bytes.len(),
        forall|j: int| start <= j < a ==> is_digit(#[trigger] text[j]),
        forall|j: int| first <= j < b ==> is_digit(#[trigger] text[j]),
        -2 * EXPONENT_BOUND <= shift <= 2 * EXPONENT_BOUND,
    ensures
        holds(
            units,
            scaled(
                digits_value(
                    text.subrange(start as int, a as int) + text.subrange(first as int, b as int),
                ),
                shift as int,
            ),
        ),
{
    let ghost front = text.subrange(start as int, a as int);
    let ghost back = text.subrange(first as int, b as int);
    let ghost digits = front + back;
    let count: usize = (a - start) + (b - first);
    let take: usize = if shift >= 0 {
        count
    } else if -shift >= count as i128 {
        0
    } else {
        (count as i128 + shift) as usize
    };
    let whole: usize = if take < a - start { take } else { a - start };
    let part: usize = take - whole;
    let counted = read_digits(bytes, start, start + whole, 0, Ghost(text), Ghost(Seq::empty()));
    let ghost before = text.subrange(start as int, start + whole);
    assert(Seq::<char>::empty() + before == before);
    let counted = read_digits(bytes, first, first + part, counted, Ghost(text), Ghost(before));
    proof {
        assert(before + text.subrange(first as int, first + part) == digits.take(take as int));
        assert(all_digits(digits));
        lemma_digits_take(digits, take as int);
        lemma_digits_value_bounds(digits);
    }
    if shift > 0 {
        assert(digits.take(take as int) == digits);
        raise(counted, shift, Ghost(digits_value(digits)))
    } else {
        proof {
            if shift == 0 {
                assert(digits.take(take as int) == digits);
                assert(pow10(0) == 1);
                assert(digits_value(digits) * 1 == digits_value(digits));
            } else if -shift >= count {
                lemma_scaled_far_down(digits, shift as int);
                assert(digits.take(0) == Seq::<char>::empty());
            }
        }
        counted
    }
}

/// The digits of `text` from `start` to `a` and from `first` to `b`, read
/// as one string.
spec fn digits_between(text: Seq<char>, start: int, a: int, first: int, b: int) -> Seq<char> {
    text.subrange(start, a) + text.subrange(first, b)
}

/// The numeral that `text` writes, given where its digits end: those
/// before the point at `a`, and those after it, which start at `first`, at
/// `b`.
#[verifier::rlimit(40)]
proof fn lemma_numeral_parts(text: Seq<char>, start: int, a: int, first: int, b: int)
    requires
        start == (if has_sign(text) { 1int } else { 0int }),
        start <= a <= first <= b <= text.len(),
        digit_run(text.skip(start)) == a - start,
        first == a || (first == a + 1 && text[a] == '.'),
        first == a ==> b == a && (a == text.len() || text[a] != '.'),
        first == a + 1 ==> digit_run(text.skip(first)) == b - first,
    ensures
        forall|j: int| start <= j < a ==> is_digit(#[trigger] text[j]),
        forall|j: int| first <= j < b ==> is_digit(#[trigger] text[j]),
        all_digits(digits_between(text, start, a, first, b)),
        numeral(text) == if a - start + (b - first) == 0 {
            None
        } else {
            match exponent_value(text.skip(b)) {
                Some(e) => Some(
                    Numeral {
                        negative: is_negative(text),
                        digits: digits_between(text, start, a, first, b),
                        exponent: e - (b - first),
                    },
                ),
                None => None,
            }
        },
{
    let body = text.skip(start);
    assert(body == unsigned(text));
    let k = a - start;
    let pointed = first == a + 1;
    let f = b - first;
    let digits = digits_between(text, start, a, first, b);
    if a < text.len() {
        assert(body[k] == text[a]);
    }
    let after = body.skip(if pointed { k + 1 } else { k });
    assert(after == text.skip(first));
    assert(after.skip(f) == text.skip(b));
    assert(body.take(k) == text.subrange(start, a));
    assert(after.take(f) == text.subrange(first, b));
    lemma_digit_run_prefix(body);
    if pointed {
        lemma_digit_run_prefix(after);
    }
    assert forall|j: int| start <= j < a implies is_digit(#[trigger] text[j]) by {
        assert(body[j - start] == text[j]);
    }
    assert forall|j: int| first <= j < b implies is_digit(#[trigger] text[j]) by {
        assert(after[j - first] == text[j]);
    }
    assert forall|j: int| 0 <= j < digits.len() implies is_digit(#[trigger] digits[j]) by {
        if j < k {
            assert(digits[j] == text[start + j]);
        } else {
            assert(digits[j] == text[first + j - k]);
        }
    }
}

proof fn lemma_zero_run(s: Seq<char>, k: int)
    requires
        0 <= k <= s.len(),
        forall|i: int| 0 <= i < k ==> #[trigger] s[i] == '0',
        k < s.len() ==> s[k] != '0',
    ensures
        zero_run(s) == k,
    decreases k,
{
    if k > 0 {
        lemma_zero_run(s.drop_first(), k - 1);
    }
}

proof fn lemma_zero_run_prefix(s: Seq<char>)
    ensures
        0 <= zero_run(s) <= s.len(),
        forall|i: int| 0 <= i < zero_run(s) ==> #[trigger] s[i] == '0',
        zero_run(s) < s.len() ==> s[zero_run(s)] != '0',
    decreases s.len(),
{
    if s.len() > 0 && s[0] == '0' {
        let t = s.drop_first();
        lemma_zero_run_prefix(t);
        assert forall|i: int| 0 <= i < zero_run(s) implies #[trigger] s[i] == '0' by {
            if i > 0 {
                assert(s[i] == t[i - 1]);
            }
        }
        if zero_run(s) < s.len() {
            assert(s[zero_run(s)] == t[zero_run(t)]);
        }
    }
}

/// Zeros in front of a numeral add nothing to its value: the value is less
/// than ten to the power of the number of digits from the first that is not
/// zero.
proof fn lemma_value_below(s: Seq<char>)
    requires
        all_digits(s),
    ensures
        0 <= digits_value(s) < pow10((s.len() - zero_run(s)) as nat),
        zero_run(s) == s.len() ==> digits_value(s) == 0,
{
    lemma_zero_run_prefix(s);
    let z = zero_run(s);
    let zeros = s.take(z);
    let rest = s.skip(z);
    assert(s == zeros + rest);
    lemma_digits_concat(zeros, rest);
    lemma_zeros_value(zeros);
    assert(all_digits(rest)) by {
        assert forall|i: int| 0 <= i < rest.len() implies is_digit(#[trigger] rest[i]) by {
            assert(rest[i] == s[i + z]);
        }
    }
    lemma_digits_value_bounds(rest);
    assert(0 * pow10(rest.len()) == 0);
    if z == s.len() {
        assert(pow10(0) == 1);
    }
}

proof fn lemma_zeros_value(s: Seq<char>)
    requires
        forall|i: int| 0 <= i < s.len() ==> #[trigger] s[i] == '0',
    ensures
        digits_value(s) == 0,
    decreases s.len(),
{
    if s.len() > 0 {
        lemma_zeros_value(s.drop_last());
    }
}

/// A numeral that is not zero counts fewer than ten to the power of eighteen
/// units where the unit is no more than seventeen places below its order.
pub proof fn lemma_units_bound(n: Numeral, unit: int)
    requires
        all_digits(n.digits),
        n.is_zero() || unit >= n.order() - 17,
    ensures
        -1_000_000_000_000_000_000 < n.units(unit) < 1_000_000_000_000_000_000,
        n.is_zero() ==> n.units(unit) == 0,
{
    let value = digits_value(n.digits);
    let shift = n.exponent - unit;
    lemma_value_below(n.digits);
    lemma_zero_run_prefix(n.digits);
    assert(pow10(18) == 1_000_000_000_000_000_000) by {
        reveal_with_fuel(pow10, 19);
    }
    if n.is_zero() {
        if shift >= 0 {
            assert(0 * pow10(shift as nat) == 0);
        } else {
            lemma_pow10_positive((-shift) as nat);
            vstd::arithmetic::div_mod::lemma_basic_div(0, pow10((-shift) as nat));
        }
    } else {
        let sig = (n.digits.len() - zero_run(n.digits)) as nat;
        assert(shift <= 18 - sig);
        if shift >= 0 {
            lemma_pow10_adds(sig, shift as nat);
            lemma_pow10_increases(sig + shift as nat, 18);
            lemma_pow10_positive(shift as nat);
            assert(value * pow10(shift as nat) < pow10(sig) * pow10(shift as nat))
                by (nonlinear_arith)
                requires
                    0 <= value < pow10(sig),
                    pow10(shift as nat) > 0,
            ;
        } else {
            let k = (-shift) as nat;
            let cut = pow10(k);
            lemma_pow10_positive(k);
            vstd::arithmetic::div_mod::lemma_fundamental_div_mod(value, cut);
            vstd::arithmetic::div_mod::lemma_mod_bound(value, cut);
            if sig <= k {
                lemma_pow10_increases(sig, k);
                vstd::arithmetic::div_mod::lemma_basic_div(value, cut);
            } else {
                let room = (sig - k) as nat;
                lemma_pow10_adds(k, room);
                lemma_pow10_increases(room, 18);
                assert(value / cut < pow10(room)) by (nonlinear_arith)
                    requires
                        cut > 0,
                        value == cut * (value / cut) + value % cut,
                        0 <= value % cut,
                        value < cut * pow10(room),
                ;
                vstd::arithmetic::div_mod::lemma_div_pos_is_pos(value, cut);
            }
        }
        if shift >= 0 {
            lemma_pow10_positive(shift as nat);
            assert(value * pow10(shift as nat) >= 0) by (nonlinear_arith)
                requires
                    value >= 0,
                    pow10(shift as nat) > 0,
            ;
        }
    }
}

/// The end of the zeros that start at `from`, looking no further than `to`.
fn zeros_end(bytes: &[u8], from: usize, to: usize, Ghost(text): Ghost<Seq<char>>) -> (end: usize)
    requires
        spells(bytes@, text),
        from <= to <= bytes.len(),
    ensures
        from <= end <= to,
        zero_run(text.subrange(from as int, to as int)) == end - from,
{
    let mut end: usize = from;
    while end < to && bytes[end] == DIGIT_ZERO
        invariant
            spells(bytes@, text),
            from <= end <= to <= bytes.len(),
            forall|j: int| from <= j < end ==> #[trigger] text[j] == '0',
        decreases to - end,
    {
        end += 1;
    }
    proof {
        let run = text.subrange(from as int, to as int);
        assert forall|j: int| 0 <= j < end - from implies #[trigger] run[j] == '0' by {
            assert(run[j] == text[j + from]);
        }
        if end < to {
            assert(run[end - from] == text[end as int]);
        }
        lemma_zero_run(run, end - from);
    }
    end
}

proof fn lemma_zero_run_concat(x: Seq<char>, y: Seq<char>)
    ensures
        zero_run(x + y) == if zero_run(x) == x.len() {
            x.len() + zero_run(y)
        } else {
            zero_run(x)
        },
    decreases x.len(),
{
    if x.len() == 0 {
        assert(x + y == y);
    } else {
        assert((x + y).drop_first() == x.drop_first() + y);
        lemma_zero_run_concat(x.drop_first(), y);
    }
}

/// Where the parts of a numeral stand in its text.
struct Located {
    negative: bool,
    start: usize,
    a: usize,
    first: usize,
    b: usize,
    /// The exponent as written, held within its bounds.
    held: i128,
}

/// Finds the parts of the numeral of `text`.
#[verifier::rlimit(40)]
fn locate(bytes: &[u8], Ghost(text): Ghost<Seq<char>>) -> (found: Option<Located>)
    requires
        spells(bytes@, text),
    ensures
        match found {
            Some(l) => {
                &&& numeral(text) matches Some(n)
                &&& l.start <= l.a <= l.first <= l.b <= bytes.len()
                &&& forall|j: int| l.start <= j < l.a ==> is_digit(#[trigger] text[j])
                &&& forall|j: int| l.first <= j < l.b ==> is_digit(#[trigger] text[j])
                &&& n.digits == digits_between(
                    text,
                    l.start as int,
                    l.a as int,
                    l.first as int,
                    l.b as int,
                )
                &&& all_digits(n.digits)
                &&& n.negative == l.negative
                &&& holds_exponent(l.held, n.exponent + (l.b - l.first))
            },
            None => numeral(text) is None,
        },
{
    let n = bytes.len();
    let negative = n > 0 && bytes[0] == MINUS;
    let start: usize = if n > 0 && (bytes[0] == MINUS || bytes[0] == PLUS) { 1 } else { 0 };
    assert(negative == is_negative(text));
    let a = digits_end(bytes, start, Ghost(text));
    let pointed = a < n && bytes[a] == POINT;
    let first: usize = if pointed { a + 1 } else { a };
    let b = if pointed { digits_end(bytes, first, Ghost(text)) } else { first };
    proof {
        lemma_numeral_parts(text, start as int, a as int, first as int, b as int);
    }
    if a - start == 0 && b - first == 0 {
        return None;
    }
    match read_exponent(bytes, b, Ghost(text)) {
        Some(held) => Some(Located { negative, start, a, first, b, held }),
        None => None,
    }
}

/// Counts the zeros in front of the digits from `start` to `a` and from
/// `first` to `b`, read as one string.
fn leading_zeros(
    bytes: &[u8],
    start: usize,
    a: usize,
    first: usize,
    b: usize,
    Ghost(text): Ghost<Seq<char>>,
) -> (zeros: usize)
    requires
        spells(bytes@, text),
        start <= a <= first <= b <= bytes.len(),
    ensures
        zeros == zero_run(digits_between(text, start as int, a as int, first as int, b as int)),
        zeros <= (a - start) + (b - first),
{
    proof {
        lemma_zero_run_concat(
            text.subrange(start as int, a as int),
            text.subrange(first as int, b as int),
        );
    }
    let front = zeros_end(bytes, start, a, Ghost(text));
    if front == a {
        let back = zeros_end(bytes, first, b, Ghost(text));
        (a - start) + (back - first)
    } else {
        front - start
    }
}

/// A numeral whose exponent is held at a bound, and that is not zero, does
/// not keep within `ORDER_BOUND`.
proof fn lemma_beyond_bounds(n: Numeral, held: i128, f: int)
    requires
        0 <= f <= n.digits.len() <= usize::MAX,
        0 <= zero_run(n.digits) < n.digits.len(),
        holds_exponent(held, n.exponent + f),
        held <= -EXPONENT_BOUND || held >= EXPONENT_BOUND,
    ensures
        !n.in_range(),
{
}

/// Where the parts of a reading stand in its text, and how far it reaches.
struct Parts {
    negative: bool,
    start: usize,
    a: usize,
    first: usize,
    b: usize,
    /// How many digits there are from the first that is not zero.
    significant: usize,
    /// The power of ten of the last digit, for a reading that is not zero.
    exponent: i128,
}

/// Takes the reading of `text` apart.
#[verifier::rlimit(40)]
fn inspect(bytes: &[u8], Ghost(text): Ghost<Seq<char>>) -> (parts: Option<Parts>)
    requires
        spells(bytes@, text),
    ensures
        match parts {
            Some(p) => {
                &&& reading(text) matches Some(n)
                &&& p.start <= p.a <= p.first <= p.b <= bytes.len()
                &&& forall|j: int| p.start <= j < p.a ==> is_digit(#[trigger] text[j])
                &&& forall|j: int| p.first <= j < p.b ==> is_digit(#[trigger] text[j])
                &&& n.digits == digits_between(
                    text,
                    p.start as int,
                    p.a as int,
                    p.first as int,
                    p.b as int,
                )
                &&& all_digits(n.digits)
                &&& n.negative == p.negative
                &&& p.significant == n.digits.len() - zero_run(n.digits)
                &&& !n.is_zero() ==> p.exponent == n.exponent
            },
            None => reading(text) is None,
        },
{
    let l = match locate(bytes, Ghost(text)) {
        Some(l) => l,
        None => {
            return None;
        },
    };
    let ghost n = numeral(text)->0;
    let zeros = leading_zeros(bytes, l.start, l.a, l.first, l.b, Ghost(text));
    let significant: usize = (l.a - l.start) + (l.b - l.first) - zeros;
    let exponent: i128 = l.held - (l.b - l.first) as i128;
    if significant > 0 {
        if l.held <= -EXPONENT_BOUND || l.held >= EXPONENT_BOUND {
            proof {
                lemma_beyond_bounds(n, l.held, l.b - l.first);
            }
            return None;
        }
        if exponent < -(ORDER_BOUND as i128) || exponent + significant as i128 - 1
            > ORDER_BOUND as i128 {
            return None;
        }
    }
    Some(
        Parts {
            negative: l.negative,
            start: l.start,
            a: l.a,
            first: l.first,
            b: l.b,
            significant,
            exponent,
        },
    )
}

/// How far a reading reaches.
#[derive(Debug, Clone, Copy, PartialEq, Eq)]
pub enum Magnitude {
    /// The value is zero.
    Zero,
    /// The value is not zero, and its first digit that is not zero stands at
    /// this power of ten.
    Order(i64),
}

/// Says whether `text` writes a reading and, if it does, how far it reaches.
pub fn measure(text: &str) -> (magnitude: Option<Magnitude>)
    ensures
        match magnitude {
            Some(Magnitude::Zero) => reading(text@) matches Some(n) && n.is_zero(),
            Some(Magnitude::Order(o)) => reading(text@) matches Some(n) && !n.is_zero() && o
                == n.order(),
            None => reading(text@) is None,
        },
{
    if !text.is_ascii() {
        proof {
            if numeral(text@) is Some {
                lemma_number_is_ascii(text@);
            }
        }
        return None;
    }
    let bytes = text.as_bytes();
    proof {
        is_ascii_spec_bytes(text);
    }
    assert(spells(bytes@, text@));
    match inspect(bytes, Ghost(text@)) {
        Some(parts) => {
            if parts.significant == 0 {
                Some(Magnitude::Zero)
            } else {
                Some(Magnitude::Order((parts.exponent + parts.significant as i128 - 1) as i64))
            }
        },
        None => None,
    }
}

/// Reads the text of a reading as a whole number of units of ten to the
/// power of `unit`, rounded towards zero. The result is `None` where the
/// text writes no reading, and where the number of units is beyond
/// `i64::MAX` in size.
pub fn parse_number(text: &str, unit: i64) -> (value: Option<i64>)
    ensures
        match value {
            Some(v) => reading(text@) matches Some(n) && n.units(unit as int) == v,
            None => reading(text@) matches Some(n) ==> n.units(unit as int) > i64::MAX
                || n.units(unit as int) < -i64::MAX,
        },
{
    if !text.is_ascii() {
        proof {
            if numeral(text@) is Some {
                lemma_number_is_ascii(text@);
            }
        }
        return None;
    }
    let bytes = text.as_bytes();
    proof {
        is_ascii_spec_bytes(text);
    }
    assert(spells(bytes@, text@));
    let parts = match inspect(bytes, Ghost(text@)) {
        Some(parts) => parts,
        None => {
            return None;
        },
    };
    let ghost n = reading(text@)->0;
    if parts.significant == 0 {
        proof {
            lemma_units_bound(n, unit as int);
        }
        return Some(0);
    }
    let shift: i128 = parts.exponent - unit as i128;
    let units = collect(bytes, parts.start, parts.a, parts.first, parts.b, shift, Ghost(text@));
    if units > i64::MAX as u128 {
        None
    } else if parts.negative {
        Some(-(units as i64))
    } else {
        Some(units as i64)
    }
}

/// The character that writes the digit `d`.
pub open spec fn digit_char(d: int) -> char {
    if d == 0 {
        '0'
    } else if d == 1 {
        '1'
    } else if d == 2 {
        '2'
    } else if d == 3 {
        '3'
    } else if d == 4 {
        '4'
    } else if d == 5 {
        '5'
    } else if d == 6 {
        '6'
    } else if d == 7 {
        '7'
    } else if d == 8 {
        '8'
    } else {
        '9'
    }
}

/// The digits of `n` in base ten, without leading zeros; `0` is one digit.
pub open spec fn digits_of(n: nat) -> Seq<char>
    decreases n,
{
    if n < 10 {
        seq![digit_char(n as int)]
    } else {
        digits_of(n / 10).push(digit_char(n as int % 10))
    }
}

/// The digits after the point of a fraction of `f` units that has `places`
/// decimal places, from the first place down to the last digit that is not
/// zero.
pub open spec fn fraction_text(f: nat, places: nat) -> Seq<char>
    decreases places,
{
    if f == 0 || places == 0 {
        Seq::empty()
    } else {
        seq![digit_char(f as int / pow10((places - 1) as nat))] + fraction_text(
            (f as int % pow10((places - 1) as nat)) as nat,
            (places - 1) as nat,
        )
    }
}

/// The text of `units` units of ten to the power of `unit`. Zero is `0`.
/// Where the unit is one or a fraction of up to thirty places, the text is
/// a plain decimal: a minus sign if the value is negative, the whole part,
/// and, unless the fraction is zero, a point and the digits of the fraction
/// without trailing zeros. For any other unit the text is the number of
/// units, followed by `e` and the power of ten of the unit.
pub open spec fn number_text(units: int, unit: int) -> Seq<char> {
    let size: nat = if units < 0 { (-units) as nat } else { units as nat };
    let sign: Seq<char> = if units < 0 { seq!['-'] } else { Seq::empty() };
    if units == 0 {
        seq!['0']
    } else if -30 <= unit <= 0 {
        let places = (-unit) as nat;
        let whole = (size as int / pow10(places)) as nat;
        let frac = (size as int % pow10(places)) as nat;
        if frac == 0 {
            sign + digits_of(whole)
        } else {
            sign + digits_of(whole) + seq!['.'] + fraction_text(frac, places)
        }
    } else {
        let power: nat = if unit < 0 { (-unit) as nat } else { unit as nat };
        let exponent_sign: Seq<char> = if unit < 0 { seq!['-'] } else { Seq::empty() };
        sign + digits_of(size) + seq!['e'] + exponent_sign + digits_of(power)
    }
}

fn digit_str(d: u64) -> (s: &'static str)
    requires
        d < 10,
    ensures
        s@ == seq![digit_char(d as int)],
{
    proof {
        reveal_strlit("0");
        reveal_strlit("1");
        reveal_strlit("2");
        reveal_strlit("3");
        reveal_strlit("4");
        reveal_strlit("5");
        reveal_strlit("6");
        reveal_strlit("7");
        reveal_strlit("8");
        reveal_strlit("9");
    }
    let s = if d == 0 {
        "0"
    } else if d == 1 {
        "1"
    } else if d == 2 {
        "2"
    } else if d == 3 {
        "3"
    } else if d == 4 {
        "4"
    } else if d == 5 {
        "5"
    } else if d == 6 {
        "6"
    } else if d == 7 {
        "7"
    } else if d == 8 {
        "8"
    } else {
        "9"
    };
    assert(s@ =~= seq![digit_char(d as int)]);
    s
}

fn push_digits(out: &mut String, n: u64)
    ensures
        final(out)@ == old(out)@ + digits_of(n as nat),
    decreases n,
{
    if n >= 10 {
        push_digits(out, n / 10);
    }
    out.append(digit_str(n % 10));
}

fn ten_to(n: u32) -> (power: u128)
    requires
        n <= 30,
    ensures
        power == pow10(n as nat),
        power <= 1_000_000_000_000_000_000_000_000_000_000,
{
    let mut power: u128 = 1;
    let mut i: u32 = 0;
    proof {
        lemma_pow10_increases(0, 30);
        assert(pow10(30) == 1_000_000_000_000_000_000_000_000_000_000) by {
            reveal_with_fuel(pow10, 31);
        }
    }
    while i < n
        invariant
            i <= n <= 30,
            power == pow10(i as nat),
            pow10(30) == 1_000_000_000_000_000_000_000_000_000_000,
        decreases n - i,
    {
        proof {
            lemma_pow10_increases((i + 1) as nat, 30);
        }
        power = power * 10;
        i += 1;
    }
    proof {
        lemma_pow10_increases(n as nat, 30);
    }
    power
}

proof fn lemma_leading_digit(f: int, weight: int)
    requires
        weight > 0,
        0 <= f < 10 * weight,
    ensures
        0 <= f / weight < 10,
        0 <= f % weight < weight,
        f == weight * (f / weight) + f % weight,
{
    vstd::arithmetic::div_mod::lemma_fundamental_div_mod(f, weight);
    vstd::arithmetic::div_mod::lemma_mod_bound(f, weight);
    assert(0 <= f / weight < 10) by (nonlinear_arith)
        requires
            weight > 0,
            0 <= f < 10 * weight,
            f == weight * (f / weight) + f % weight,
            0 <= f % weight < weight,
    ;
}

fn push_fraction(out: &mut String, f: u128, places: u32, weight: u128)
    requires
        1 <= places <= 30,
        weight == pow10((places - 1) as nat),
        f < 10 * weight,
    ensures
        final(out)@ == old(out)@ + fraction_text(f as nat, places as nat),
    decreases places,
{
    proof {
        lemma_pow10_positive((places - 1) as nat);
        lemma_leading_digit(f as int, weight as int);
    }
    if f != 0 {
        out.append(digit_str((f / weight) as u64));
        if places > 1 {
            push_fraction(out, f % weight, places - 1, weight / 10);
        } else {
            assert(fraction_text((f % weight) as nat, 0) == Seq::<char>::empty());
        }
    }
}

/// Writes `units` units of ten to the power of `unit` as text.
pub fn format_number(units: i64, unit: i64) -> (text: String)
    ensures
        text@ == number_text(units as int, unit as int),
{
    let mut text = String::new();
    if units == 0 {
        proof {
            reveal_strlit("0");
        }
        text.append("0");
        return text;
    }
    let size: u64 = if units < 0 { (-(units as i128)) as u64 } else { units as u64 };
    if units < 0 {
        proof {
            reveal_strlit("-");
        }
        text.append("-");
    }
    if -30 <= unit && unit <= 0 {
        let places: u32 = (-unit) as u32;
        let weight = ten_to(places);
        proof {
            lemma_pow10_positive(places as nat);
        }
        let whole = size as u128 / weight;
        let frac = size as u128 % weight;
        push_digits(&mut text, whole as u64);
        if frac != 0 {
            proof {
                reveal_strlit(".");
                assert(places >= 1) by {
                    if places == 0 {
                        assert(pow10(0) == 1);
                    }
                }
            }
            text.append(".");
            push_fraction(&mut text, frac, places, weight / 10);
        }
    } else {
        push_digits(&mut text, size);
        proof {
            reveal_strlit("e");
        }
        text.append("e");
        if unit < 0 {
            proof {
                reveal_strlit("-");
            }
            text.append("-");
        }
        let ghost before = text@;
        let power: u64 = if unit < 0 { (-(unit as i128)) as u64 } else { unit as u64 };
        push_digits(&mut text, power);
        assert(text@ == number_text(units as int, unit as int));
    }
    text
}

proof fn lemma_digits_of(n: nat)
    ensures
        digits_of(n).len() > 0,
        all_digits(digits_of(n)),
        digits_value(digits_of(n)) == n,
        n > 0 ==> n >= pow10((digits_of(n).len() - 1) as nat),
    decreases n,
{
    let text = digits_of(n);
    if n < 10 {
        assert(text.drop_last() == Seq::<char>::empty());
        assert(digits_value(text.drop_last()) == 0);
        assert(text.last() == digit_char(n as int));
        assert(pow10(0) == 1);
    } else {
        lemma_digits_of(n / 10);
        assert(text.drop_last() == digits_of(n / 10));
        assert(text.last() == digit_char(n as int % 10));
    }
}

/// A number below ten to the power of eighteen has at most eighteen digits.
proof fn lemma_digits_of_length(n: nat)
    requires
        n < 1_000_000_000_000_000_000,
    ensures
        0 < digits_of(n).len() <= 18,
{
    lemma_digits_of(n);
    let len = digits_of(n).len();
    assert(pow10(18) == 1_000_000_000_000_000_000) by {
        reveal_with_fuel(pow10, 19);
    }
    if len > 18 {
        lemma_pow10_increases(18, (len - 1) as nat);
    }
}

proof fn lemma_fraction_text(f: nat, places: nat)
    requires
        f < pow10(places),
    ensures
        all_digits(fraction_text(f, places)),
        fraction_text(f, places).len() <= places,
        digits_value(fraction_text(f, places)) * pow10(
            (places - fraction_text(f, places).len()) as nat,
        ) == f,
    decreases places,
{
    let text = fraction_text(f, places);
    if f != 0 && places != 0 {
        let weight = pow10((places - 1) as nat);
        lemma_pow10_positive((places - 1) as nat);
        lemma_leading_digit(f as int, weight);
        let d = f as int / weight;
        let first = seq![digit_char(d)];
        let rest = fraction_text((f as int % weight) as nat, (places - 1) as nat);
        lemma_fraction_text((f as int % weight) as nat, (places - 1) as nat);
        assert(text == first + rest);
        assert forall|i: int| 0 <= i < text.len() implies is_digit(#[trigger] text[i]) by {
            if i > 0 {
                assert(text[i] == rest[i - 1]);
            }
        }
        let room = (places - text.len()) as nat;
        lemma_digits_concat(first, rest);
        assert(digits_value(first) == d) by {
            assert(first.drop_last() == Seq::<char>::empty());
            assert(digits_value(first.drop_last()) == 0);
            assert(first.last() == digit_char(d));
        }
        lemma_pow10_adds(rest.len(), room);
        assert(rest.len() + room == places - 1);
        let up = pow10(rest.len());
        let side = pow10(room);
        let low = digits_value(rest);
        assert((d * up + low) * side == d * (up * side) + low * side) by (nonlinear_arith);
    } else {
        assert(digits_value(text) == 0);
        assert(0 * pow10((places - text.len()) as nat) == 0);
        if f != 0 {
            assert(pow10(0) == 1);
        }
    }
}

#[verifier::rlimit(40)]
proof fn lemma_round_trip_plain(units: int, unit: int)
    requires
        units != 0,
        -1_000_000_000_000_000_000 < units < 1_000_000_000_000_000_000,
        -30 <= unit <= 0,
    ensures
        reading(number_text(units, unit)) matches Some(n) && n.denotes(units, unit),
{
    let size: nat = if units < 0 { (-units) as nat } else { units as nat };
    let places = (-unit) as nat;
    let cut = pow10(places);
    lemma_pow10_positive(places);
    vstd::arithmetic::div_mod::lemma_fundamental_div_mod(size as int, cut);
    vstd::arithmetic::div_mod::lemma_mod_bound(size as int, cut);
    vstd::arithmetic::div_mod::lemma_div_pos_is_pos(size as int, cut);
    let whole_n = (size as int / cut) as nat;
    let frac_n = (size as int % cut) as nat;
    assert(whole_n <= size) by (nonlinear_arith)
        requires
            cut >= 1,
            size == cut * whole_n + frac_n,
            whole_n >= 0,
            frac_n >= 0,
    ;
    let whole = digits_of(whole_n);
    let frac = fraction_text(frac_n, places);
    let ending: Seq<char> = if frac_n == 0 { Seq::empty() } else { seq!['.'] + frac };
    let body = whole + ending;
    let text = number_text(units, unit);
    lemma_digits_of(whole_n);
    lemma_digits_of_length(whole_n);
    lemma_fraction_text(frac_n, places);
    assert(is_digit(whole[0]));
    if units < 0 {
        assert(text == seq!['-'] + body);
        assert(text.skip(1) == body);
    } else {
        assert(text == body);
        assert(text[0] == whole[0]);
    }
    assert(unsigned(text) == body);
    assert(is_negative(text) == (units < 0));
    let k = whole.len() as int;
    assert forall|i: int| 0 <= i < k implies is_digit(#[trigger] body[i]) by {
        assert(body[i] == whole[i]);
    }
    if frac_n != 0 {
        assert(body[k] == '.');
    }
    lemma_digit_run(body, k);
    assert(body.take(k) == whole);
    let pointed = frac_n != 0;
    let after = body.skip(if pointed { k + 1 } else { k });
    assert(after == if pointed { frac } else { Seq::<char>::empty() });
    lemma_digit_run(after, after.len() as int);
    let g = after.len() as int;
    assert(after.skip(g) == Seq::<char>::empty());
    assert(after.take(g) == after);
    assert(exponent_value(after.skip(g)) == Some(0int));
    let n = Numeral { negative: units < 0, digits: whole + after, exponent: -g };
    assert(numeral(text) == Some(n));
    lemma_zero_run_prefix(n.digits);
    assert(n.in_range());
    lemma_digits_concat(whole, after);
    lemma_pow10_adds(after.len(), (places - g) as nat);
    let high = digits_value(whole);
    let low = digits_value(after);
    let up = pow10(after.len());
    let side = pow10((places - g) as nat);
    assert((high * up + low) * side == high * (up * side) + low * side) by (nonlinear_arith);
    if !pointed {
        assert(low == 0);
        assert(0 * side == 0);
    }
    assert(cut * whole_n == whole_n * cut) by (nonlinear_arith);
}

/// What follows the digits in the text of a power of ten is read as that
/// power.
proof fn lemma_exponent_text(unit: int)
    ensures
        ({
            let power: nat = if unit < 0 { (-unit) as nat } else { unit as nat };
            let exponent_sign: Seq<char> = if unit < 0 { seq!['-'] } else { Seq::empty() };
            exponent_value(seq!['e'] + exponent_sign + digits_of(power)) == Some(unit)
        }),
{
    let power: nat = if unit < 0 { (-unit) as nat } else { unit as nat };
    let exponent_sign: Seq<char> = if unit < 0 { seq!['-'] } else { Seq::empty() };
    let written = digits_of(power);
    let signed = exponent_sign + written;
    let tail = seq!['e'] + exponent_sign + written;
    lemma_digits_of(power);
    assert(is_digit(written[0]));
    assert(tail[0] == 'e');
    assert(tail.skip(1) == signed);
    if unit < 0 {
        assert(signed[0] == '-');
        assert(signed.skip(1) == written);
    } else {
        assert(signed == written);
    }
    assert(unsigned(signed) == written);
}

/// The numeral of a text that is a sign, digits, and a rest that starts
/// with neither a digit nor a point.
proof fn lemma_numeral_of_whole(negative: bool, count: Seq<char>, tail: Seq<char>)
    requires
        count.len() > 0,
        all_digits(count),
        tail.len() > 0,
        !is_digit(tail[0]),
        tail[0] != '.',
        exponent_value(tail) is Some,
    ensures
        ({
            let sign: Seq<char> = if negative { seq!['-'] } else { Seq::empty() };
            numeral(sign + count + tail) == Some(
                Numeral { negative, digits: count, exponent: exponent_value(tail)->0 },
            )
        }),
{
    let sign: Seq<char> = if negative { seq!['-'] } else { Seq::empty() };
    let body = count + tail;
    let text = sign + count + tail;
    assert(is_digit(count[0]));
    if negative {
        assert(text == seq!['-'] + body);
        assert(text.skip(1) == body);
    } else {
        assert(text == body);
        assert(text[0] == count[0]);
    }
    assert(unsigned(text) == body);
    assert(is_negative(text) == negative);
    let k = count.len() as int;
    assert forall|i: int| 0 <= i < k implies is_digit(#[trigger] body[i]) by {
        assert(body[i] == count[i]);
    }
    assert(body[k] == tail[0]);
    lemma_digit_run(body, k);
    assert(body.take(k) == count);
    let after = body.skip(k);
    assert(after == tail);
    assert(after.skip(0) == tail);
    assert(after.take(0) == Seq::<char>::empty());
    assert(count + Seq::<char>::empty() == count);
}

proof fn lemma_round_trip_powered(units: int, unit: int)
    requires
        units != 0,
        -1_000_000_000_000_000_000 < units < 1_000_000_000_000_000_000,
        -ORDER_BOUND <= unit <= ORDER_BOUND - 17,
        unit < -30 || unit > 0,
    ensures
        reading(number_text(units, unit)) matches Some(n) && n.denotes(units, unit),
{
    let size: nat = if units < 0 { (-units) as nat } else { units as nat };
    let power: nat = if unit < 0 { (-unit) as nat } else { unit as nat };
    let sign: Seq<char> = if units < 0 { seq!['-'] } else { Seq::empty() };
    let exponent_sign: Seq<char> = if unit < 0 { seq!['-'] } else { Seq::empty() };
    let count = digits_of(size);
    let tail = seq!['e'] + exponent_sign + digits_of(power);
    lemma_digits_of(size);
    lemma_digits_of_length(size);
    lemma_exponent_text(unit);
    assert(tail[0] == 'e');
    lemma_numeral_of_whole(units < 0, count, tail);
    assert(number_text(units, unit) == sign + count + tail);
    let n = Numeral { negative: units < 0, digits: count, exponent: unit };
    lemma_zero_run_prefix(count);
    assert(n.in_range());
    assert(pow10(0) == 1);
    assert(size * 1 == size);
}

/// Reading back the text of a value gives the value: the text of `units`
/// units of ten to the power of `unit` writes a reading that is exactly that
/// many units, for every number of units below ten to the power of eighteen
/// in size and every unit that leaves such a number within `ORDER_BOUND`.
pub proof fn lemma_text_round_trip(units: int, unit: int)
    requires
        -1_000_000_000_000_000_000 < units < 1_000_000_000_000_000_000,
        -ORDER_BOUND <= unit <= ORDER_BOUND - 17,
    ensures
        reading(number_text(units, unit)) matches Some(n) && n.denotes(units, unit),
{
    if units == 0 {
        let text = seq!['0'];
        assert(!has_sign(text));
        assert(unsigned(text) == text);
        lemma_digit_run(text, 1);
        assert(text.skip(1) == Seq::<char>::empty());
        assert(text.skip(1).skip(0) == Seq::<char>::empty());
        assert(text.skip(1).take(0) == Seq::<char>::empty());
        assert(text.take(1) == text);
        assert(text + Seq::<char>::empty() == text);
        let n = Numeral { negative: false, digits: text, exponent: 0 };
        assert(numeral(text) == Some(n));
        lemma_zero_run(text, 1);
        lemma_zeros_value(text);
        if 0 >= unit {
            assert(0 * pow10((0 - unit) as nat) == 0);
        } else {
            assert(0 * pow10((unit - 0) as nat) == 0);
        }
    } else if -30 <= unit <= 0 {
        lemma_round_trip_plain(units, unit);
    } else {
        lemma_round_trip_powered(units, unit);
    }
}

/// A numeral that is not zero is worth at least ten to the power of the
/// number of digits behind the first that is not zero.
proof fn lemma_value_at_least(s: Seq<char>)
    requires
        all_digits(s),
        zero_run(s) < s.len(),
    ensures
        digits_value(s) >= pow10((s.len() - zero_run(s) - 1) as nat),
{
    lemma_zero_run_prefix(s);
    let z = zero_run(s);
    let zeros = s.take(z);
    let rest = s.skip(z);
    assert(s == zeros + rest);
    lemma_digits_concat(zeros, rest);
    lemma_zeros_value(zeros);
    assert(0 * pow10(rest.len()) == 0);
    let first = rest.take(1);
    let behind = rest.skip(1);
    assert(rest == first + behind);
    lemma_digits_concat(first, behind);
    assert(first[0] == s[z]);
    assert(is_digit(s[z]));
    assert(digits_value(first) >= 1) by {
        assert(first.drop_last() == Seq::<char>::empty());
        assert(digits_value(first.drop_last()) == 0);
        assert(first.last() == s[z]);
    }
    assert(all_digits(behind)) by {
        assert forall|i: int| 0 <= i < behind.len() implies is_digit(#[trigger] behind[i]) by {
            assert(behind[i] == s[i + z + 1]);
        }
    }
    lemma_digits_value_bounds(behind);
    lemma_pow10_positive(behind.len());
    assert(digits_value(first) * pow10(behind.len()) >= pow10(behind.len()))
        by (nonlinear_arith)
        requires
            digits_value(first) >= 1,
            pow10(behind.len()) > 0,
    ;
}

/// A numeral that is not zero counts at least ten to the power of seventeen
/// units where the unit is seventeen places or more below its order.
pub proof fn lemma_units_at_least(n: Numeral, unit: int)
    requires
        all_digits(n.digits),
        !n.is_zero(),
        unit <= n.order() - 17,
    ensures
        n.units(unit) >= 100_000_000_000_000_000 || n.units(unit) <= -100_000_000_000_000_000,
{
    let value = digits_value(n.digits);
    let shift = n.exponent - unit;
    lemma_zero_run_prefix(n.digits);
    lemma_value_at_least(n.digits);
    let low = (n.digits.len() - zero_run(n.digits) - 1) as nat;
    assert(pow10(17) == 100_000_000_000_000_000) by {
        reveal_with_fuel(pow10, 18);
    }
    assert(low + shift >= 17);
    if shift >= 0 {
        lemma_pow10_adds(low, shift as nat);
        lemma_pow10_increases(17, low + shift as nat);
        lemma_pow10_positive(shift as nat);
        assert(value * pow10(shift as nat) >= pow10(low) * pow10(shift as nat))
            by (nonlinear_arith)
            requires
                value >= pow10(low),
                pow10(shift as nat) > 0,
        ;
    } else {
        let k = (-shift) as nat;
        let cut = pow10(k);
        let room = (low - k) as nat;
        lemma_pow10_positive(k);
        lemma_pow10_adds(k, room);
        lemma_pow10_increases(17, room);
        vstd::arithmetic::div_mod::lemma_fundamental_div_mod(value, cut);
        vstd::arithmetic::div_mod::lemma_mod_bound(value, cut);
        assert(value / cut >= pow10(room)) by (nonlinear_arith)
            requires
                cut > 0,
                value == cut * (value / cut) + value % cut,
                0 <= value % cut < cut,
                value >= cut * pow10(room),
        ;
    }
}

/// The digits of a reading are digits.
pub proof fn lemma_reading_digits(s: Seq<char>)
    ensures
        reading(s) matches Some(n) ==> all_digits(n.digits),
{
    let body = unsigned(s);
    let k = digit_run(body);
    let pointed = k < body.len() && body[k] == '.';
    let after = body.skip(if pointed { k + 1 } else { k });
    let f = if pointed { digit_run(after) } else { 0 };
    let digits = body.take(k) + after.take(f);
    lemma_digit_run_prefix(body);
    lemma_digit_run_prefix(after);
    assert forall|j: int| 0 <= j < digits.len() implies is_digit(#[trigger] digits[j]) by {
        if j < k {
            assert(digits[j] == body[j]);
        } else {
            assert(digits[j] == after[j - k]);
        }
    }
}

} // verus!
