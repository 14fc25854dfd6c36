//! Reading the texts of column values back: no text loses anything of the value.
use vstd::arithmetic::power::pow;
use vstd::prelude::*;

use crate::render;
use crate::text;

verus! {

// ---------------------------------------------------------------------------
// Digits
// ---------------------------------------------------------------------------

/// The number that decimal digits denote.
pub open spec fn read_digits(s: Seq<char>) -> int
    decreases s.len(),
{
    if s.len() == 0 {
        0
    } else {
        10 * read_digits(s.drop_last()) + (s.last() as int - '0' as int)
    }
}

/// Whether all characters are decimal digits.
pub open spec fn all_digits(s: Seq<char>) -> bool {
    forall|i: int| 0 <= i < s.len() ==> '0' <= #[trigger] s[i] <= '9'
}

proof fn lemma_push_digit(s: Seq<char>, d: int)
    requires
        all_digits(s),
        0 <= d < 10,
    ensures
        all_digits(s.push(render::digit(d))),
        read_digits(s.push(render::digit(d))) == 10 * read_digits(s) + d,
{
    assert(s.push(render::digit(d)).drop_last() =~= s);
}

proof fn lemma_decimal(n: nat)
    ensures
        render::decimal(n).len() > 0,
        all_digits(render::decimal(n)),
        read_digits(render::decimal(n)) == n,
    decreases n,
{
    if n < 10 {
        assert(read_digits(Seq::<char>::empty()) == 0);
        lemma_push_digit(Seq::empty(), n as int);
        assert(render::decimal(n) =~= Seq::<char>::empty().push(render::digit(n as int)));
    } else {
        lemma_decimal(n / 10);
        lemma_push_digit(render::decimal(n / 10), (n % 10) as int);
    }
}

proof fn lemma_padded(n: nat, width: nat)
    requires
        n < pow(10, width),
    ensures
        render::padded(n, width).len() == width,
        all_digits(render::padded(n, width)),
        read_digits(render::padded(n, width)) == n,
    decreases width,
{
    reveal(pow);
    if width > 0 {
        lemma_padded(n / 10, (width - 1) as nat);
        lemma_push_digit(render::padded(n / 10, (width - 1) as nat), (n % 10) as int);
    }
}

proof fn lemma_read_append(a: Seq<char>, b: Seq<char>)
    ensures
        read_digits(a + b) == read_digits(a) * pow(10, b.len()) + read_digits(b),
    decreases b.len(),
{
    reveal(pow);
    if b.len() == 0 {
        assert(a + b =~= a);
    } else {
        let front = b.drop_last();
        assert((a + b).drop_last() =~= a + front);
        lemma_read_append(a, front);
        let x = read_digits(a);
        let p = pow(10, front.len());
        assert(10 * (x * p) == x * (10 * p)) by (nonlinear_arith);
    }
}

// ---------------------------------------------------------------------------
// Decimals
// ---------------------------------------------------------------------------

/// A text without its sign, and whether that is a minus.
pub open spec fn read_sign(s: Seq<char>) -> (bool, Seq<char>) {
    if s.len() > 0 && s[0] == '-' {
        (true, s.skip(1))
    } else if s.len() > 0 && s[0] == '+' {
        (false, s.skip(1))
    } else {
        (false, s)
    }
}

/// The mantissa and the number of decimal places that a decimal text denotes.
pub open spec fn read_exact(s: Seq<char>) -> (int, nat) {
    let (negative, body) = read_sign(s);
    let (size, scale) = match text::split_once(body, '.') {
        Some((whole, places)) => (read_digits(whole + places), places.len()),
        None => (read_digits(body), 0),
    };
    (if negative {
        -size
    } else {
        size
    }, scale)
}

/// A decimal keeps its precision in its text: the text denotes the same mantissa and the same
/// number of decimal places.
pub proof fn law_decimal_reads_back(mantissa: int, scale: nat)
    requires
        render::valid_exact(mantissa, scale as int),
    ensures
        read_exact(render::exact_text(mantissa, scale)) == (mantissa, scale),
{
    let size: nat = (if mantissa < 0 {
        -mantissa
    } else {
        mantissa
    }) as nat;
    let sign: Seq<char> = if mantissa < 0 {
        seq!['-']
    } else {
        Seq::empty()
    };
    let all = render::exact_text(mantissa, scale);
    if scale == 0 {
        lemma_decimal(size);
        let body = render::decimal(size);
        assert(all =~= sign + body);
        assert(all.skip(sign.len() as int) =~= body);
        assert(sign.len() == 0 ==> all =~= body);
        assert(all[sign.len() as int] == body[0]);
        text::lemma_find(body, '.', body.len() as int);
    } else {
        let unit = pow(10, scale);
        vstd::arithmetic::power::lemma_pow_positive(10, scale);
        let whole_n: nat = (size as int / unit) as nat;
        let places_n: nat = (size as int % unit) as nat;
        assert(size as int / unit >= 0 && 0 <= size as int % unit < unit && size == (size as int
            / unit) * unit + size as int % unit) by (nonlinear_arith)
            requires
                unit > 0,
        ;
        lemma_decimal(whole_n);
        lemma_padded(places_n, scale);
        let whole = render::decimal(whole_n);
        let places = render::padded(places_n, scale);
        let body = whole.push('.') + places;
        assert(all =~= sign + body);
        assert(all.skip(sign.len() as int) =~= body);
        assert(sign.len() == 0 ==> all =~= body);
        assert(all[sign.len() as int] == body[0]);
        assert(body[0] == whole[0]);
        assert forall|j: int| 0 <= j < whole.len() implies body[j] != '.' by {
            assert(body[j] == whole[j]);
        }
        text::lemma_find(body, '.', whole.len() as int);
        assert(body.take(whole.len() as int) =~= whole);
        assert(body.skip(whole.len() as int + 1) =~= places);
        lemma_read_append(whole, places);
    }
}

/// The text of an integer denotes the integer.
pub proof fn lemma_signed_reads_back(i: int)
    ensures
        read_exact(render::signed_decimal(i)) == (i, 0nat),
{
    let size: nat = (if i < 0 {
        -i
    } else {
        i
    }) as nat;
    lemma_decimal(size);
    let body = render::decimal(size);
    let all = render::signed_decimal(i);
    text::lemma_find(body, '.', body.len() as int);
    if i < 0 {
        assert(all.skip(1) =~= body);
    } else {
        assert('0' <= body[0] <= '9');
    }
}

// ---------------------------------------------------------------------------
// Identifiers
// ---------------------------------------------------------------------------

/// The value of a hexadecimal digit.
pub open spec fn read_hex(c: char) -> int {
    if c <= '9' {
        c as int - '0' as int
    } else {
        c as int - 'a' as int + 10
    }
}

/// Where byte `k` of an identifier stands in its text.
pub open spec fn uuid_position(k: int) -> int {
    2 * k + (if k < 4 {
        0int
    } else if k < 6 {
        1
    } else if k < 8 {
        2
    } else if k < 10 {
        3
    } else {
        4
    })
}

/// The bytes that the text of an identifier denotes.
pub open spec fn read_uuid(s: Seq<char>) -> Seq<u8> {
    Seq::new(
        16,
        |k: int|
            (16 * read_hex(s[uuid_position(k)]) + read_hex(s[uuid_position(k) + 1])) as u8,
    )
}

proof fn lemma_hex(bytes: Seq<u8>, i: int)
    requires
        0 <= i < bytes.len(),
    ensures
        render::hex(bytes).len() == 2 * bytes.len(),
        16 * read_hex(render::hex(bytes)[2 * i]) + read_hex(render::hex(bytes)[2 * i + 1])
            == bytes[i],
{
    assert((2 * i) / 2 == i && (2 * i + 1) / 2 == i && (2 * i) % 2 == 0 && (2 * i + 1) % 2 == 1);
}

/// The text of an identifier denotes its bytes.
pub proof fn law_uuid_reads_back(b: Seq<u8>)
    requires
        b.len() == 16,
    ensures
        read_uuid(render::uuid_text(b)) == b,
{
    let s = render::uuid_text(b);
    let (g0, g1, g2, g3, g4) = (
        b.subrange(0, 4),
        b.subrange(4, 6),
        b.subrange(6, 8),
        b.subrange(8, 10),
        b.subrange(10, 16),
    );
    assert forall|k: int| 0 <= k < 16 implies (#[trigger] read_uuid(s)[k]) == b[k] by {
        let p = uuid_position(k);
        if k < 4 {
            lemma_hex(g0, k);
            assert(s[p] == render::hex(g0)[2 * k] && s[p + 1] == render::hex(g0)[2 * k + 1]);
        } else if k < 6 {
            lemma_hex(g1, k - 4);
            assert(s[p] == render::hex(g1)[2 * (k - 4)] && s[p + 1] == render::hex(g1)[2 * (k - 4)
                + 1]);
        } else if k < 8 {
            lemma_hex(g2, k - 6);
            assert(s[p] == render::hex(g2)[2 * (k - 6)] && s[p + 1] == render::hex(g2)[2 * (k - 6)
                + 1]);
        } else if k < 10 {
            lemma_hex(g3, k - 8);
            assert(s[p] == render::hex(g3)[2 * (k - 8)] && s[p + 1] == render::hex(g3)[2 * (k - 8)
                + 1]);
        } else {
            lemma_hex(g4, k - 10);
            assert(s[p] == render::hex(g4)[2 * (k - 10)] && s[p + 1] == render::hex(g4)[2 * (k
                - 10) + 1]);
        }
    }
    assert(read_uuid(s) =~= b);
}

// ---------------------------------------------------------------------------
// Dates and times
// ---------------------------------------------------------------------------

/// The year, the month and the day that the text of a date denotes.
pub open spec fn read_date(s: Seq<char>) -> (int, int, int) {
    let n = s.len() as int;
    let (negative, year) = read_sign(s.take(n - 6));
    (
        if negative {
            -read_digits(year)
        } else {
            read_digits(year)
        },
        read_digits(s.subrange(n - 5, n - 3)),
        read_digits(s.skip(n - 2)),
    )
}

proof fn lemma_small_powers()
    ensures
        pow(10, 2) == 100,
        pow(10, 3) == 1_000,
        pow(10, 4) == 10_000,
        pow(10, 6) == 1_000_000,
        pow(10, 9) == 1_000_000_000,
{
    reveal(pow);
    reveal_with_fuel(pow, 10);
}

proof fn lemma_year(year: int)
    requires
        -262_143 <= year <= 262_142,
    ensures
        render::year_text(year).len() > 0,
        ({
            let (negative, digits) = read_sign(render::year_text(year));
            year == if negative {
                -read_digits(digits)
            } else {
                read_digits(digits)
            }
        }),
{
    lemma_small_powers();
    let s = render::year_text(year);
    if year < 0 {
        if year < -9999 {
            lemma_decimal((-year) as nat);
            assert(s.skip(1) =~= render::decimal((-year) as nat));
        } else {
            lemma_padded((-year) as nat, 4);
            assert(s.skip(1) =~= render::padded((-year) as nat, 4));
        }
    } else if year <= 9999 {
        lemma_padded(year as nat, 4);
        assert('0' <= s[0] <= '9');
    } else {
        lemma_decimal(year as nat);
        assert(s.skip(1) =~= render::decimal(year as nat));
    }
}

/// The text of a date denotes the date.
pub proof fn law_date_reads_back(year: int, month: int, day: int)
    requires
        render::valid_date(year, month, day),
    ensures
        read_date(render::date_text(year, month, day)) == (year, month, day),
{
    lemma_small_powers();
    lemma_year(year);
    lemma_padded(month as nat, 2);
    lemma_padded(day as nat, 2);
    let s = render::date_text(year, month, day);
    let n = s.len() as int;
    assert(n == render::year_text(year).len() + 6);
    assert(s.take(n - 6) =~= render::year_text(year));
    assert(s.subrange(n - 5, n - 3) =~= render::padded(month as nat, 2));
    assert(s.skip(n - 2) =~= render::padded(day as nat, 2));
}

/// The seconds since midnight and the nanoseconds that the text of a time denotes.
pub open spec fn read_time(s: Seq<char>) -> (int, int) {
    (
        3600 * read_digits(s.subrange(0, 2)) + 60 * read_digits(s.subrange(3, 5)) + read_digits(
            s.subrange(6, 8),
        ),
        if s.len() == 8 {
            0
        } else if s.len() == 12 {
            1_000_000 * read_digits(s.skip(9))
        } else if s.len() == 15 {
            1_000 * read_digits(s.skip(9))
        } else {
            read_digits(s.skip(9))
        },
    )
}

/// The text of a time denotes the time.
pub proof fn law_time_reads_back(secs: int, nanos: int)
    requires
        0 <= secs < 86_400,
        0 <= nanos < 1_000_000_000,
    ensures
        read_time(render::time_text(secs, nanos)) == (secs, nanos),
{
    lemma_small_powers();
    let s = render::time_text(secs, nanos);
    lemma_padded((secs / 3600) as nat, 2);
    lemma_padded((secs / 60 % 60) as nat, 2);
    lemma_padded((secs % 60) as nat, 2);
    assert(s.subrange(0, 2) =~= render::padded((secs / 3600) as nat, 2));
    assert(s.subrange(3, 5) =~= render::padded((secs / 60 % 60) as nat, 2));
    assert(s.subrange(6, 8) =~= render::padded((secs % 60) as nat, 2));
    if nanos == 0 {
        assert(s.len() == 8);
    } else if nanos % 1_000_000 == 0 {
        lemma_padded((nanos / 1_000_000) as nat, 3);
        assert(s.skip(9) =~= render::padded((nanos / 1_000_000) as nat, 3));
    } else if nanos % 1_000 == 0 {
        lemma_padded((nanos / 1_000) as nat, 6);
        assert(s.skip(9) =~= render::padded((nanos / 1_000) as nat, 6));
    } else {
        lemma_padded(nanos as nat, 9);
        assert(s.skip(9) =~= render::padded(nanos as nat, 9));
    }
}

/// The seconds since midnight, the nanoseconds and the minutes of the offset that the text of a
/// time with an offset denotes.
pub open spec fn read_offset_time(s: Seq<char>) -> (int, int, int) {
    let n = s.len() as int;
    let (secs, nanos) = read_time(s.take(n - 6));
    let offset = s.skip(n - 6);
    let size = 60 * read_digits(offset.subrange(1, 3)) + read_digits(offset.subrange(4, 6));
    (secs, nanos, if offset[0] == '-' {
        -size
    } else {
        size
    })
}

/// The text of a time with an offset denotes the time and the offset.
pub proof fn law_offset_time_reads_back(secs: int, nanos: int, minutes: int)
    requires
        0 <= secs < 86_400,
        0 <= nanos < 1_000_000_000,
        -1440 < minutes < 1440,
    ensures
        read_offset_time(render::time_text(secs, nanos) + render::offset_text(minutes)) == (
            secs,
            nanos,
            minutes,
        ),
{
    lemma_small_powers();
    law_time_reads_back(secs, nanos);
    let time = render::time_text(secs, nanos);
    let offset = render::offset_text(minutes);
    let size = if minutes < 0 {
        -minutes
    } else {
        minutes
    };
    lemma_padded((size / 60) as nat, 2);
    lemma_padded((size % 60) as nat, 2);
    let s = time + offset;
    let n = s.len() as int;
    assert(offset.len() == 6);
    assert(s.take(n - 6) =~= time);
    assert(s.skip(n - 6) =~= offset);
    assert(offset.subrange(1, 3) =~= render::padded((size / 60) as nat, 2));
    assert(offset.subrange(4, 6) =~= render::padded((size % 60) as nat, 2));
}

/// The text of a date and a time falls into the two at its `T`.
pub proof fn law_date_time_splits(year: int, month: int, day: int, time: Seq<char>)
    requires
        render::valid_date(year, month, day),
    ensures
        text::split_once(render::date_text(year, month, day).push('T') + time, 'T') == Some(
            (render::date_text(year, month, day), time),
        ),
{
    lemma_small_powers();
    let date = render::date_text(year, month, day);
    let years = render::year_text(year);
    assert forall|i: int| 0 <= i < years.len() implies #[trigger] years[i] != 'T' by {
        if year < -9999 {
            lemma_decimal((-year) as nat);
            assert(i > 0 ==> years[i] == render::decimal((-year) as nat)[i - 1]);
        } else if year < 0 {
            lemma_padded((-year) as nat, 4);
            assert(i > 0 ==> years[i] == render::padded((-year) as nat, 4)[i - 1]);
        } else if year <= 9999 {
            lemma_padded(year as nat, 4);
        } else {
            lemma_decimal(year as nat);
            assert(i > 0 ==> years[i] == render::decimal(year as nat)[i - 1]);
        }
    }
    lemma_padded(month as nat, 2);
    lemma_padded(day as nat, 2);
    let all = date.push('T') + time;
    let n = date.len() as int;
    assert forall|i: int| 0 <= i < n implies #[trigger] all[i] != 'T' by {
        let y = years.len() as int;
        if i < y {
            assert(all[i] == years[i]);
        } else if y < i < y + 3 {
            assert(all[i] == render::padded(month as nat, 2)[i - y - 1]);
        } else if i > y + 3 {
            assert(all[i] == render::padded(day as nat, 2)[i - y - 4]);
        }
    }
    text::lemma_find(all, 'T', n);
    assert(all.take(n) =~= date);
    assert(all.skip(n + 1) =~= time);
}

// ---------------------------------------------------------------------------
// Bytes
// ---------------------------------------------------------------------------

/// The six bits that a character stands for.
pub open spec fn read_base64_char(c: char) -> int {
    if c == '+' {
        62
    } else if c == '/' {
        63
    } else if c <= '9' {
        c as int - '0' as int + 52
    } else if c <= 'Z' {
        c as int - 'A' as int
    } else {
        c as int - 'a' as int + 26
    }
}

/// How many bytes a text in Base64 denotes.
pub open spec fn base64_len(s: Seq<char>) -> int {
    let n = s.len() as int;
    3 * (n / 4) - if n > 0 && s[n - 2] == '=' {
        2int
    } else if n > 0 && s[n - 1] == '=' {
        1
    } else {
        0
    }
}

/// The bytes that a text in Base64 denotes.
pub open spec fn read_base64(s: Seq<char>) -> Seq<u8> {
    Seq::new(
        base64_len(s) as nat,
        |k: int|
            {
                let i = 4 * (k / 3);
                (if k % 3 == 0 {
                    4 * read_base64_char(s[i]) + read_base64_char(s[i + 1]) / 16
                } else if k % 3 == 1 {
                    read_base64_char(s[i + 1]) % 16 * 16 + read_base64_char(s[i + 2]) / 4
                } else {
                    read_base64_char(s[i + 2]) % 4 * 64 + read_base64_char(s[i + 3])
                }) as u8
            },
    )
}

proof fn lemma_base64_char(d: int)
    requires
        0 <= d < 64,
    ensures
        read_base64_char(render::base64_char(d)) == d,
        render::base64_char(d) != '=',
{
}

/// A character of the text that is no padding stands for its six bits.
proof fn lemma_sextet(b: Seq<u8>, i: int)
    requires
        0 <= i < render::base64_text(b).len(),
        i % 4 < 2 || 3 * (i / 4) + i % 4 - 1 < b.len(),
    ensures
        read_base64_char(render::base64_text(b)[i]) == render::sextet(b, i),
        render::base64_text(b)[i] != '=',
        0 <= render::sextet(b, i) < 64,
{
    lemma_base64_char(render::sextet(b, i));
}

/// The text denotes as many bytes as there are.
proof fn lemma_base64_len(b: Seq<u8>)
    ensures
        base64_len(render::base64_text(b)) == b.len(),
{
    let s = render::base64_text(b);
    let n = s.len() as int;
    let m = b.len() as int;
    if n > 0 {
        assert((n - 2) % 4 == 2 && (n - 1) % 4 == 3);
        if m % 3 == 1 {
            assert(s[n - 2] == '=');
        } else if m % 3 == 2 {
            lemma_sextet(b, n - 2);
            assert(s[n - 1] == '=');
        } else {
            lemma_sextet(b, n - 2);
            lemma_sextet(b, n - 1);
        }
    }
}

/// Four groups of six bits hold three bytes.
proof fn lemma_bits(a: int, b: int, c: int)
    requires
        0 <= a < 256,
        0 <= b < 256,
        0 <= c < 256,
    ensures
        4 * (a / 4) + (a % 4 * 16 + b / 16) / 16 == a,
        (a % 4 * 16 + b / 16) % 16 * 16 + (b % 16 * 4 + c / 64) / 4 == b,
        (b % 16 * 4 + c / 64) % 4 * 64 + c % 64 == c,
{
}

/// The six bits of the four characters of group `g`.
proof fn lemma_group(b: Seq<u8>, g: int)
    requires
        0 <= g,
    ensures
        ({
            let (x, y, z) = (
                render::byte_or_zero(b, 3 * g),
                render::byte_or_zero(b, 3 * g + 1),
                render::byte_or_zero(b, 3 * g + 2),
            );
            &&& render::sextet(b, 4 * g) == x / 4
            &&& render::sextet(b, 4 * g + 1) == x % 4 * 16 + y / 16
            &&& render::sextet(b, 4 * g + 2) == y % 16 * 4 + z / 64
            &&& render::sextet(b, 4 * g + 3) == z % 64
        }),
{
    let i = 4 * g;
    assert(i / 4 == g && (i + 1) / 4 == g && (i + 2) / 4 == g && (i + 3) / 4 == g);
    assert(i % 4 == 0 && (i + 1) % 4 == 1 && (i + 2) % 4 == 2 && (i + 3) % 4 == 3);
}

/// The text denotes byte `k`, the first, second or third of group `g`.
proof fn lemma_base64_byte(b: Seq<u8>, g: int, k: int)
    requires
        0 <= k < b.len(),
        g == k / 3,
    ensures
        read_base64(render::base64_text(b))[k] == b[k],
{
    lemma_base64_len(b);
    lemma_group(b, g);
    lemma_bits(
        render::byte_or_zero(b, 3 * g),
        render::byte_or_zero(b, 3 * g + 1),
        render::byte_or_zero(b, 3 * g + 2),
    );
    if k % 3 == 0 {
        lemma_sextet(b, 4 * g);
        lemma_sextet(b, 4 * g + 1);
    } else if k % 3 == 1 {
        lemma_sextet(b, 4 * g + 1);
        lemma_sextet(b, 4 * g + 2);
    } else {
        lemma_sextet(b, 4 * g + 2);
        lemma_sextet(b, 4 * g + 3);
    }
}

/// The text of bytes in Base64 denotes the bytes.
pub proof fn law_bytes_read_back(b: Seq<u8>)
    ensures
        read_base64(render::base64_text(b)) == b,
{
    lemma_base64_len(b);
    assert forall|k: int| 0 <= k < b.len() implies (#[trigger] read_base64(
        render::base64_text(b),
    )[k]) == b[k] by {
        lemma_base64_byte(b, k / 3, k);
    }
    assert(read_base64(render::base64_text(b)) =~= b);
}

} // verus!
