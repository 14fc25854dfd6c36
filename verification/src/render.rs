//! The texts of column values: decimals, identifiers, dates, times and bytes.
//!
//! The texts come from the crates `rust_decimal`, `uuid`, `chrono` and `base64`; what each text
//! is, is stated here. Decimals that `rust_decimal` has no room for, and offsets, are written
//! here too.
use vstd::arithmetic::power::pow;
use vstd::prelude::*;

use crate::text;

verus! {

// ---------------------------------------------------------------------------
// Digits
// ---------------------------------------------------------------------------

/// The character of a decimal digit.
pub open spec fn digit(d: int) -> char {
    ('0' as u32 + d) as char
}

/// A number in decimal, without leading zeros.
pub open spec fn decimal(n: nat) -> Seq<char>
    decreases n,
{
    if n < 10 {
        seq![digit(n as int)]
    } else {
        decimal(n / 10).push(digit((n % 10) as int))
    }
}

/// An integer in decimal, with a minus sign if it is negative.
pub open spec fn signed_decimal(i: int) -> Seq<char> {
    if i < 0 {
        seq!['-'] + decimal((-i) as nat)
    } else {
        decimal(i as nat)
    }
}

/// The last `width` decimal digits of a number.
pub open spec fn padded(n: nat, width: nat) -> Seq<char>
    decreases width,
{
    if width == 0 {
        Seq::empty()
    } else {
        padded(n / 10, (width - 1) as nat).push(digit((n % 10) as int))
    }
}

// ---------------------------------------------------------------------------
// Decimals
// ---------------------------------------------------------------------------

/// A decimal number: `mantissa` divided by ten to the power `scale`, with at most 38 decimal
/// places.
#[derive(Clone, Copy, Debug, PartialEq, Eq)]
pub struct Exact {
    mantissa: i128,
    scale: u32,
}

/// Whether there is a decimal number with this mantissa and this many decimal places.
pub open spec fn valid_exact(mantissa: int, scale: int) -> bool {
    &&& i128::MIN <= mantissa <= i128::MAX
    &&& 0 <= scale <= 38
}

/// Whether a decimal number has at most 96 bits of mantissa and at most 28 decimal places.
pub open spec fn is_short(mantissa: int, scale: int) -> bool {
    &&& -0xffff_ffff_ffff_ffff_ffff_ffff <= mantissa <= 0xffff_ffff_ffff_ffff_ffff_ffff
    &&& 0 <= scale <= 28
}

/// The text of a decimal number: all its decimal places, trailing zeros too.
pub open spec fn exact_text(mantissa: int, scale: nat) -> Seq<char> {
    let size = if mantissa < 0 {
        -mantissa
    } else {
        mantissa
    };
    let sign = if mantissa < 0 {
        seq!['-']
    } else {
        Seq::empty()
    };
    if scale == 0 {
        sign + decimal(size as nat)
    } else {
        sign + decimal((size / pow(10, scale)) as nat).push('.') + padded(
            (size % pow(10, scale)) as nat,
            scale,
        )
    }
}

impl Exact {
    /// The mantissa.
    pub closed spec fn spec_mantissa(self) -> i128 {
        self.mantissa
    }

    /// The number of decimal places.
    pub closed spec fn spec_scale(self) -> u32 {
        self.scale
    }

    #[verifier::type_invariant]
    spec fn wf(self) -> bool {
        valid_exact(self.mantissa as int, self.scale as int)
    }

    /// The number with the given mantissa and number of decimal places, if there is one.
    pub fn new(mantissa: i128, scale: u32) -> (r: Option<Exact>)
        ensures
            match r {
                Some(d) => valid_exact(mantissa as int, scale as int) && d.spec_mantissa()
                    == mantissa && d.spec_scale() == scale,
                None => !valid_exact(mantissa as int, scale as int),
            },
    {
        if scale <= 38 {
            Some(Exact { mantissa, scale })
        } else {
            None
        }
    }

    /// The text of the number.
    pub fn text(&self) -> (r: String)
        ensures
            r@ == exact_text(self.spec_mantissa() as int, self.spec_scale() as nat),
    {
        proof {
            use_type_invariant(self);
        }
        if -0xffff_ffff_ffff_ffff_ffff_ffffi128 <= self.mantissa && self.mantissa
            <= 0xffff_ffff_ffff_ffff_ffff_ffffi128 && self.scale <= 28 {
            format_exact(self.mantissa, self.scale)
        } else {
            format_long(self.mantissa, self.scale)
        }
    }
}

/// The character of a decimal digit.
fn digit_char(d: u8) -> (r: char)
    requires
        d < 10,
    ensures
        r == digit(d as int),
{
    (48 + d) as char
}

/// A number in decimal, without leading zeros.
fn decimal_chars(n: u128) -> (r: Vec<char>)
    ensures
        r@ == decimal(n as nat),
    decreases n,
{
    let mut out: Vec<char> = if n < 10 {
        Vec::new()
    } else {
        decimal_chars(n / 10)
    };
    out.push(digit_char((n % 10) as u8));
    assert(n < 10 ==> out@ =~= decimal(n as nat));
    out
}

/// The last `width` decimal digits of a number.
fn padded_chars(n: u128, width: u32) -> (r: Vec<char>)
    ensures
        r@ == padded(n as nat, width as nat),
    decreases width,
{
    if width == 0 {
        let none: Vec<char> = Vec::new();
        assert(none@ =~= padded(n as nat, 0));
        none
    } else {
        let mut out = padded_chars(n / 10, width - 1);
        out.push(digit_char((n % 10) as u8));
        out
    }
}

/// The powers of ten that decimals need fit 128 bits.
proof fn lemma_largest_power()
    ensures
        pow(10, 38) == 100_000_000_000_000_000_000_000_000_000_000_000_000int,
{
    assert(pow(10, 9) == 1_000_000_000 && pow(10, 2) == 100) by {
        reveal(pow);
        reveal_with_fuel(pow, 10);
    }
    vstd::arithmetic::power::lemma_pow_adds(10, 9, 9);
    vstd::arithmetic::power::lemma_pow_adds(10, 18, 18);
    vstd::arithmetic::power::lemma_pow_adds(10, 36, 2);
    let (a, b, c, d) = (pow(10, 9), pow(10, 18), pow(10, 36), pow(10, 2));
    assert(c * d == 100_000_000_000_000_000_000_000_000_000_000_000_000int) by (nonlinear_arith)
        requires
            a == 1_000_000_000,
            b == a * a,
            c == b * b,
            d == 100,
    ;
}

/// Ten to the power `scale`.
fn power_of_ten(scale: u32) -> (r: u128)
    requires
        scale <= 38,
    ensures
        r == pow(10, scale as nat),
        r > 0,
{
    let mut r: u128 = 1;
    proof {
        vstd::arithmetic::power::lemma_pow0(10);
        vstd::arithmetic::power::lemma_pow_positive(10, scale as nat);
    }
    for i in 0..scale
        invariant
            scale <= 38,
            r == pow(10, i as nat),
    {
        proof {
            vstd::arithmetic::power::lemma_pow1(10);
            vstd::arithmetic::power::lemma_pow_adds(10, i as nat, 1);
            vstd::arithmetic::power::lemma_pow_increases(10, (i + 1) as nat, 38);
            lemma_largest_power();
        }
        r = r * 10;
    }
    r
}

/// The text of a decimal number, of whatever size.
fn format_long(mantissa: i128, scale: u32) -> (r: String)
    requires
        valid_exact(mantissa as int, scale as int),
    ensures
        r@ == exact_text(mantissa as int, scale as nat),
{
    let mut out: Vec<char> = Vec::new();
    let size: u128 = if mantissa < 0 {
        out.push('-');
        (-(mantissa + 1)) as u128 + 1
    } else {
        mantissa as u128
    };
    let ghost sign = out@;
    if scale == 0 {
        text::append(&mut out, &decimal_chars(size));
        assert(out@ =~= exact_text(mantissa as int, scale as nat));
    } else {
        let unit = power_of_ten(scale);
        text::append(&mut out, &decimal_chars(size / unit));
        out.push('.');
        text::append(&mut out, &padded_chars(size % unit, scale));
        assert(out@ =~= exact_text(mantissa as int, scale as nat));
    }
    text::string_of(&out)
}

/// `to_string` of `rust_decimal::Decimal`, on the number that
/// `Decimal::from_i128_with_scale` makes of a mantissa and a scale. It writes all the decimal
/// places that the scale gives. A scale over 28 or a mantissa of more than 96 bits would panic.
#[verifier::external_body]
fn format_exact(mantissa: i128, scale: u32) -> (r: String)
    requires
        is_short(mantissa as int, scale as int),
    ensures
        r@ == exact_text(mantissa as int, scale as nat),
{
    rust_decimal::Decimal::from_i128_with_scale(mantissa, scale).to_string()
}

// ---------------------------------------------------------------------------
// Universally unique identifiers
// ---------------------------------------------------------------------------

/// The character of a hexadecimal digit.
pub open spec fn hex_digit(d: int) -> char {
    if d < 10 {
        digit(d)
    } else {
        ('a' as u32 + (d - 10)) as char
    }
}

/// Bytes in hexadecimal, two digits each.
pub open spec fn hex(bytes: Seq<u8>) -> Seq<char> {
    Seq::new(
        2 * bytes.len(),
        |i: int|
            hex_digit(
                if i % 2 == 0 {
                    bytes[i / 2] as int / 16
                } else {
                    bytes[i / 2] as int % 16
                },
            ),
    )
}

/// The text of an identifier of sixteen bytes: hexadecimal in groups of 4, 2, 2, 2 and 6 bytes
/// with hyphens between them.
pub open spec fn uuid_text(b: Seq<u8>) -> Seq<char> {
    hex(b.subrange(0, 4)).push('-') + hex(b.subrange(4, 6)).push('-') + hex(
        b.subrange(6, 8),
    ).push('-') + hex(b.subrange(8, 10)).push('-') + hex(b.subrange(10, 16))
}

/// `to_string` of `uuid::Uuid`, on the identifier that `Uuid::from_bytes` makes of its bytes:
/// the hyphenated form in lower case.
#[verifier::external_body]
pub(crate) fn format_uuid(bytes: [u8; 16]) -> (r: String)
    ensures
        r@ == uuid_text(bytes@),
{
    uuid::Uuid::from_bytes(bytes).to_string()
}

// ---------------------------------------------------------------------------
// Dates and times
// ---------------------------------------------------------------------------

/// Whether a year of the Gregorian calendar has a 29th of February.
pub open spec fn leap_year(year: int) -> bool {
    year % 4 == 0 && (year % 100 != 0 || year % 400 == 0)
}

/// How many days a month has.
pub open spec fn days_in_month(year: int, month: int) -> int {
    if month == 2 {
        if leap_year(year) {
            29
        } else {
            28
        }
    } else if month == 4 || month == 6 || month == 9 || month == 11 {
        30
    } else {
        31
    }
}

/// Whether there is such a day, in a year that dates can have.
pub open spec fn valid_date(year: int, month: int, day: int) -> bool {
    &&& -262_143 <= year <= 262_142
    &&& 1 <= month <= 12
    &&& 1 <= day <= days_in_month(year, month)
}

/// The text of a year: four digits, or a sign and at least four digits for a year that is not
/// within 0 and 9999.
pub open spec fn year_text(year: int) -> Seq<char> {
    if year < -9999 {
        seq!['-'] + decimal((-year) as nat)
    } else if year < 0 {
        seq!['-'] + padded((-year) as nat, 4)
    } else if year <= 9999 {
        padded(year as nat, 4)
    } else {
        seq!['+'] + decimal(year as nat)
    }
}

/// The text of a date: year, month and day with hyphens between them.
pub open spec fn date_text(year: int, month: int, day: int) -> Seq<char> {
    year_text(year).push('-') + padded(month as nat, 2).push('-') + padded(day as nat, 2)
}

/// The decimal places of a second: none, or a point and 3, 6 or 9 digits, as few as will do.
pub open spec fn fraction_text(nanos: int) -> Seq<char> {
    if nanos == 0 {
        Seq::empty()
    } else if nanos % 1_000_000 == 0 {
        seq!['.'] + padded((nanos / 1_000_000) as nat, 3)
    } else if nanos % 1_000 == 0 {
        seq!['.'] + padded((nanos / 1_000) as nat, 6)
    } else {
        seq!['.'] + padded(nanos as nat, 9)
    }
}

/// The text of a time of day, given as seconds since midnight and nanoseconds: hours, minutes
/// and seconds with colons between them, then the decimal places.
pub open spec fn time_text(secs: int, nanos: int) -> Seq<char> {
    padded((secs / 3600) as nat, 2).push(':') + padded((secs / 60 % 60) as nat, 2).push(':')
        + padded((secs % 60) as nat, 2) + fraction_text(nanos)
}

/// A day of the Gregorian calendar.
#[derive(Clone, Copy, Debug, PartialEq, Eq)]
pub struct Date {
    year: i32,
    month: u32,
    day: u32,
}

impl Date {
    /// The year.
    pub closed spec fn spec_year(self) -> i32 {
        self.year
    }

    /// The month, from 1 on.
    pub closed spec fn spec_month(self) -> u32 {
        self.month
    }

    /// The day of the month, from 1 on.
    pub closed spec fn spec_day(self) -> u32 {
        self.day
    }

    /// The text of the date.
    pub open spec fn spec_text(self) -> Seq<char> {
        date_text(self.spec_year() as int, self.spec_month() as int, self.spec_day() as int)
    }

    #[verifier::type_invariant]
    spec fn wf(self) -> bool {
        valid_date(self.year as int, self.month as int, self.day as int)
    }

    /// The given day, if there is such a day.
    pub fn new(year: i32, month: u32, day: u32) -> (r: Option<Date>)
        ensures
            match r {
                Some(d) => valid_date(year as int, month as int, day as int) && d.spec_year()
                    == year && d.spec_month() == month && d.spec_day() == day,
                None => !valid_date(year as int, month as int, day as int),
            },
    {
        if year < -262_143 || year > 262_142 || month < 1 || month > 12 {
            return None;
        }
        // A multiple of the calendar's period makes the year positive.
        let shifted: u32 = (year + 400 * 656) as u32;
        assert(shifted % 4 == year as int % 4 && shifted % 100 == year as int % 100 && shifted % 400
            == year as int % 400);
        let leap = shifted % 4 == 0 && (shifted % 100 != 0 || shifted % 400 == 0);
        let days: u32 = if month == 2 {
            if leap {
                29
            } else {
                28
            }
        } else if month == 4 || month == 6 || month == 9 || month == 11 {
            30
        } else {
            31
        };
        if 1 <= day && day <= days {
            Some(Date { year, month, day })
        } else {
            None
        }
    }

    /// The text of the date.
    pub fn text(&self) -> (r: String)
        ensures
            r@ == self.spec_text(),
    {
        proof {
            use_type_invariant(self);
        }
        format_date(self.year, self.month, self.day)
    }
}

/// A time of day.
#[derive(Clone, Copy, Debug, PartialEq, Eq)]
pub struct Clock {
    secs: u32,
    nanos: u32,
}

impl Clock {
    /// The whole seconds since midnight.
    pub closed spec fn spec_secs(self) -> u32 {
        self.secs
    }

    /// The nanoseconds since the last whole second.
    pub closed spec fn spec_nanos(self) -> u32 {
        self.nanos
    }

    /// The text of the time.
    pub open spec fn spec_text(self) -> Seq<char> {
        time_text(self.spec_secs() as int, self.spec_nanos() as int)
    }

    #[verifier::type_invariant]
    spec fn wf(self) -> bool {
        self.secs < 86_400 && self.nanos < 1_000_000_000
    }

    /// The time with the given seconds since midnight and nanoseconds, if there is one.
    pub fn new(secs: u32, nanos: u32) -> (r: Option<Clock>)
        ensures
            match r {
                Some(t) => secs < 86_400 && nanos < 1_000_000_000 && t.spec_secs() == secs
                    && t.spec_nanos() == nanos,
                None => secs >= 86_400 || nanos >= 1_000_000_000,
            },
    {
        if secs < 86_400 && nanos < 1_000_000_000 {
            Some(Clock { secs, nanos })
        } else {
            None
        }
    }

    /// The text of the time.
    pub fn text(&self) -> (r: String)
        ensures
            r@ == self.spec_text(),
    {
        proof {
            use_type_invariant(self);
        }
        format_time(self.secs, self.nanos)
    }
}

/// The text of a day and a time of day in the form of ISO 8601.
pub fn date_time_text(date: &Date, time: &Clock) -> (r: String)
    ensures
        r@ == date.spec_text().push('T') + time.spec_text(),
{
    proof {
        use_type_invariant(date);
        use_type_invariant(time);
    }
    format_date_time(date.year, date.month, date.day, time.secs, time.nanos)
}

/// The text of an offset from UTC in minutes: a sign, hours and minutes with a colon between
/// them.
pub open spec fn offset_text(minutes: int) -> Seq<char> {
    let size = if minutes < 0 {
        -minutes
    } else {
        minutes
    };
    let sign = if minutes < 0 {
        '-'
    } else {
        '+'
    };
    seq![sign] + padded((size / 60) as nat, 2).push(':') + padded((size % 60) as nat, 2)
}

/// The text of a day and a time of day at an offset from UTC, in the form of ISO 8601.
pub fn date_time_offset_text(date: &Date, time: &Clock, minutes: i16) -> (r: String)
    ensures
        r@ == date.spec_text().push('T') + time.spec_text() + offset_text(minutes as int),
{
    let size: u128 = if minutes < 0 {
        (-(minutes as i32)) as u128
    } else {
        minutes as u128
    };
    let mut offset: Vec<char> = Vec::new();
    offset.push(
        if minutes < 0 {
            '-'
        } else {
            '+'
        },
    );
    text::append(&mut offset, &padded_chars(size / 60, 2));
    offset.push(':');
    text::append(&mut offset, &padded_chars(size % 60, 2));
    assert(offset@ =~= offset_text(minutes as int));
    let offset = text::string_of(&offset);
    text::concat(&date_time_text(date, time), &offset)
}

/// `to_string` of `chrono::NaiveDate`, on the day that `NaiveDate::from_ymd_opt` makes of a
/// year, a month and a day. It is `None` where there is no such day.
#[verifier::external_body]
fn format_date(year: i32, month: u32, day: u32) -> (r: String)
    requires
        valid_date(year as int, month as int, day as int),
    ensures
        r@ == date_text(year as int, month as int, day as int),
{
    chrono::NaiveDate::from_ymd_opt(year, month, day).unwrap().to_string()
}

/// `to_string` of `chrono::NaiveTime`, on the time that
/// `NaiveTime::from_num_seconds_from_midnight_opt` makes of seconds and nanoseconds. Times
/// within a leap second, which have a billion nanoseconds or more, are left out.
#[verifier::external_body]
fn format_time(secs: u32, nanos: u32) -> (r: String)
    requires
        secs < 86_400,
        nanos < 1_000_000_000,
    ensures
        r@ == time_text(secs as int, nanos as int),
{
    chrono::NaiveTime::from_num_seconds_from_midnight_opt(secs, nanos).unwrap().to_string()
}

/// `format` of `chrono::NaiveDateTime` with `%Y-%m-%dT%H:%M:%S%.f`, on a day and a time made as
/// in [`format_date`] and [`format_time`]: the two texts with a `T` between them.
#[verifier::external_body]
fn format_date_time(year: i32, month: u32, day: u32, secs: u32, nanos: u32) -> (r: String)
    requires
        valid_date(year as int, month as int, day as int),
        secs < 86_400,
        nanos < 1_000_000_000,
    ensures
        r@ == date_text(year as int, month as int, day as int).push('T') + time_text(
            secs as int,
            nanos as int,
        ),
{
    chrono::NaiveDate::from_ymd_opt(year, month, day).unwrap()
        .and_time(chrono::NaiveTime::from_num_seconds_from_midnight_opt(secs, nanos).unwrap())
        .format("%Y-%m-%dT%H:%M:%S%.f").to_string()
}

// ---------------------------------------------------------------------------
// Bytes
// ---------------------------------------------------------------------------

/// The character that stands for six bits.
pub open spec fn base64_char(d: int) -> char {
    if d < 26 {
        ('A' as u32 + d) as char
    } else if d < 52 {
        ('a' as u32 + (d - 26)) as char
    } else if d < 62 {
        digit(d - 52)
    } else if d == 62 {
        '+'
    } else {
        '/'
    }
}

/// Byte `i`, or 0 behind the end.
pub open spec fn byte_or_zero(bytes: Seq<u8>, i: int) -> int {
    if 0 <= i < bytes.len() {
        bytes[i] as int
    } else {
        0
    }
}

/// The six bits that character `i` of the text stands for: four characters to three bytes.
pub open spec fn sextet(bytes: Seq<u8>, i: int) -> int {
    let a = byte_or_zero(bytes, 3 * (i / 4));
    let b = byte_or_zero(bytes, 3 * (i / 4) + 1);
    let c = byte_or_zero(bytes, 3 * (i / 4) + 2);
    if i % 4 == 0 {
        a / 4
    } else if i % 4 == 1 {
        a % 4 * 16 + b / 16
    } else if i % 4 == 2 {
        b % 16 * 4 + c / 64
    } else {
        c % 64
    }
}

/// Bytes in Base64 with padding: a character for each six bits, and `=` where the last group
/// has no byte.
pub open spec fn base64_text(bytes: Seq<u8>) -> Seq<char> {
    Seq::new(
        4 * ((bytes.len() + 2) / 3),
        |i: int|
            if i % 4 >= 2 && 3 * (i / 4) + i % 4 - 1 >= bytes.len() {
                '='
            } else {
                base64_char(sextet(bytes, i))
            },
    )
}

/// `encode` of the engine `base64::engine::general_purpose::STANDARD`: the alphabet of RFC 4648
/// with padding. It would panic if the length of the text did not fit `usize`; a `Vec` of bytes
/// holds at most `isize::MAX` of them, so that it always does.
#[verifier::external_body]
pub(crate) fn encode_base64(bytes: &Vec<u8>) -> (r: String)
    ensures
        r@ == base64_text(bytes@),
{
    base64::Engine::encode(&base64::engine::general_purpose::STANDARD, bytes)
}

} // verus!
