use stryke_mssql::cell::{cell_to_json, row_to_json, rows_to_json, Cell};
use stryke_mssql::json::Json;
use stryke_mssql::render::{Clock, Date, Exact};
use stryke_mssql::temporal::{
    read_date, read_datetime, read_datetime2, read_datetimeoffset, read_smalldatetime, read_time,
};

fn shown(cell: Cell) -> String {
    cell_to_json(&cell).print()
}

#[test]
fn scalars() {
    assert_eq!(shown(Cell::Bit(Some(true))), "true");
    assert_eq!(shown(Cell::Bit(Some(false))), "false");
    assert_eq!(shown(Cell::I32(Some(-5))), "-5");
    assert_eq!(shown(Cell::I64(Some(i64::MIN))), "-9223372036854775808");
    assert_eq!(shown(Cell::I64(Some(i64::MAX))), "9223372036854775807");
    assert_eq!(shown(Cell::Str(Some("a\"b\u{e9}".to_string()))), "\"a\\\"b\u{e9}\"");
    assert_eq!(shown(Cell::Real(Json::parse(b"2.5"))), "2.5");
}

#[test]
fn nulls() {
    assert_eq!(shown(Cell::Bit(None)), "null");
    assert_eq!(shown(Cell::I32(None)), "null");
    assert_eq!(shown(Cell::I64(None)), "null");
    assert_eq!(shown(Cell::Real(None)), "null");
    assert_eq!(shown(Cell::Str(None)), "null");
    assert_eq!(shown(Cell::Numeric(None)), "null");
    assert_eq!(shown(Cell::Guid(None)), "null");
    assert_eq!(shown(Cell::DateTime(None)), "null");
    assert_eq!(shown(Cell::Date(None)), "null");
    assert_eq!(shown(Cell::Time(None)), "null");
    assert_eq!(shown(Cell::Binary(None)), "null");
}

#[test]
fn small_integers() {
    assert_eq!(shown(Cell::U8(Some(255))), "255");
    assert_eq!(shown(Cell::I16(Some(-32768))), "-32768");
    assert_eq!(shown(Cell::I16(Some(7))), "7");
    assert_eq!(shown(Cell::U8(None)), "null");
    assert_eq!(shown(Cell::I16(None)), "null");
}

#[test]
fn integers_equal_those_that_are_read() {
    for text in ["0", "5", "-5"] {
        let read = Json::parse(text.as_bytes()).unwrap();
        let i: i32 = text.parse().unwrap();
        assert_eq!(cell_to_json(&Cell::I32(Some(i))), read);
        assert_eq!(cell_to_json(&Cell::I64(Some(i as i64))), read);
        assert_eq!(cell_to_json(&Cell::I16(Some(i as i16))), read);
    }
}

#[test]
fn documents() {
    assert_eq!(shown(Cell::Xml(Some("<a>1</a>".to_string()))), "\"<a>1</a>\"");
    assert_eq!(shown(Cell::Xml(None)), "null");
}

fn with_offset(days: u32, increments: u64, scale: u8, offset: i16) -> String {
    shown(Cell::DateTimeOffset(read_datetimeoffset(days, increments, scale, offset)))
}

#[test]
fn dates_with_times_and_offsets() {
    assert_eq!(with_offset(738_944, 3_661, 0, 0), "\"2024-02-29T01:01:01+00:00\"");
    assert_eq!(with_offset(738_944, 3_661, 0, 150), "\"2024-02-29T03:31:01+02:30\"");
    assert_eq!(with_offset(738_944, 15, 1, -330), "\"2024-02-28T18:30:01.500-05:30\"");
    assert_eq!(with_offset(738_944, 86_399, 0, 1), "\"2024-03-01T00:00:59+00:01\"");
    assert_eq!(with_offset(0, 0, 7, -60), "\"0000-12-31T23:00:00-01:00\"");
    assert_eq!(with_offset(0, 86_400, 0, 0), "\"0001-01-01T00:00:00+00:00\"");
    assert_eq!(with_offset(0, 0, 0, 1439), "\"0001-01-01T23:59:00+23:59\"");
    assert_eq!(shown(Cell::DateTimeOffset(None)), "null");
    assert_eq!(read_datetimeoffset(0, 0, 0, 1440), None);
    assert_eq!(read_datetimeoffset(0, 0, 0, -1440), None);
    assert_eq!(read_datetimeoffset(0x0100_0000, 0, 0, 0), None);
    assert_eq!(read_datetimeoffset(0, 0, 10, 0), None);
}

fn decimal(mantissa: i128, scale: u32) -> String {
    Exact::new(mantissa, scale).unwrap().text()
}

#[test]
fn decimals_keep_their_precision() {
    assert_eq!(shown(Cell::Numeric(Exact::new(-12345, 2))), "\"-123.45\"");
    assert_eq!(decimal(0, 0), "0");
    assert_eq!(decimal(0, 3), "0.000");
    assert_eq!(decimal(100, 2), "1.00");
    assert_eq!(decimal(5, 4), "0.0005");
    assert_eq!(decimal(-5, 4), "-0.0005");
    assert_eq!(decimal(42, 0), "42");
    let largest: i128 = 79_228_162_514_264_337_593_543_950_335;
    assert_eq!(decimal(largest, 28), "7.9228162514264337593543950335");
    assert_eq!(decimal(-largest, 0), "-79228162514264337593543950335");
    assert_eq!(decimal(1, 28), "0.0000000000000000000000000001");
}

#[test]
fn decimals_of_38_digits_keep_their_precision() {
    let digits: i128 = 12_345_678_901_234_567_890_123_456_789_012_345_678;
    assert_eq!(decimal(digits, 0), "12345678901234567890123456789012345678");
    assert_eq!(decimal(-digits, 38), "-0.12345678901234567890123456789012345678");
    assert_eq!(decimal(digits, 37), "1.2345678901234567890123456789012345678");
    assert_eq!(decimal(79_228_162_514_264_337_593_543_950_336, 0), "79228162514264337593543950336");
    assert_eq!(decimal(-79_228_162_514_264_337_593_543_950_336, 1), "-7922816251426433759354395033.6");
    assert_eq!(decimal(5, 30), "0.000000000000000000000000000005");
    assert_eq!(decimal(0, 29), "0.00000000000000000000000000000");
    assert_eq!(decimal(i128::MIN, 0), "-170141183460469231731687303715884105728");
    assert_eq!(decimal(i128::MAX, 2), "1701411834604692317316873037158841057.27");
    assert_eq!(
        shown(Cell::Numeric(Exact::new(digits, 10))),
        "\"1234567890123456789012345678.9012345678\""
    );
}

#[test]
fn decimals_with_too_many_places() {
    assert_eq!(Exact::new(1, 39), None);
    assert!(Exact::new(1, 38).is_some());
}

#[test]
fn identifiers() {
    let bytes = [
        0x00, 0x12, 0xab, 0xff, 0x45, 0x67, 0x89, 0x0a, 0xbc, 0xde, 0xf0, 0x01, 0x02, 0x03, 0x04,
        0x05,
    ];
    assert_eq!(shown(Cell::Guid(Some(bytes))), "\"0012abff-4567-890a-bcde-f00102030405\"");
}

fn date(year: i32, month: u32, day: u32) -> String {
    Date::new(year, month, day).unwrap().text()
}

fn time(secs: u32, nanos: u32) -> String {
    Clock::new(secs, nanos).unwrap().text()
}

#[test]
fn dates() {
    assert_eq!(shown(Cell::Date(Date::new(2024, 2, 29))), "\"2024-02-29\"");
    assert_eq!(date(1, 1, 1), "0001-01-01");
    assert_eq!(date(9999, 12, 31), "9999-12-31");
    assert_eq!(date(10000, 1, 2), "+10000-01-02");
    assert_eq!(date(0, 3, 4), "0000-03-04");
    assert_eq!(date(-1, 3, 4), "-0001-03-04");
    assert_eq!(date(-12345, 3, 4), "-12345-03-04");
    assert_eq!(date(262_142, 12, 31), "+262142-12-31");
    assert_eq!(date(-262_143, 1, 1), "-262143-01-01");
}

#[test]
fn days_that_are_none() {
    assert_eq!(Date::new(2023, 2, 29), None);
    assert_eq!(Date::new(1900, 2, 29), None);
    assert!(Date::new(2000, 2, 29).is_some());
    assert!(Date::new(-4, 2, 29).is_some());
    assert_eq!(Date::new(-100, 2, 29), None);
    assert_eq!(Date::new(2024, 4, 31), None);
    assert_eq!(Date::new(2024, 13, 1), None);
    assert_eq!(Date::new(2024, 0, 1), None);
    assert_eq!(Date::new(2024, 1, 0), None);
    assert_eq!(Date::new(262_143, 1, 1), None);
    assert_eq!(Date::new(-262_144, 1, 1), None);
}

#[test]
fn times() {
    assert_eq!(shown(Cell::Time(Clock::new(3_661, 0))), "\"01:01:01\"");
    assert_eq!(time(0, 0), "00:00:00");
    assert_eq!(time(86_399, 999_999_999), "23:59:59.999999999");
    assert_eq!(time(1, 500_000_000), "00:00:01.500");
    assert_eq!(time(1, 500_000), "00:00:01.000500");
    assert_eq!(time(1, 100), "00:00:01.000000100");
    assert_eq!(Clock::new(86_400, 0), None);
    assert_eq!(Clock::new(0, 1_000_000_000), None);
}

fn date_time(d: (i32, u32, u32), t: (u32, u32)) -> String {
    let date = Date::new(d.0, d.1, d.2).unwrap();
    let clock = Clock::new(t.0, t.1).unwrap();
    shown(Cell::DateTime(Some((date, clock))))
}

#[test]
fn dates_with_times() {
    assert_eq!(date_time((2024, 2, 29), (3_661, 0)), "\"2024-02-29T01:01:01\"");
    assert_eq!(date_time((1753, 1, 1), (0, 123_000_000)), "\"1753-01-01T00:00:00.123\"");
    assert_eq!(date_time((1, 1, 1), (0, 123_456_700)), "\"0001-01-01T00:00:00.123456700\"");
    assert_eq!(date_time((10000, 1, 1), (0, 1_000)), "\"+10000-01-01T00:00:00.000001\"");
    assert_eq!(date_time((-5, 1, 1), (0, 0)), "\"-0005-01-01T00:00:00\"");
}

#[test]
fn bytes_in_base64() {
    let base64 = |bytes: &[u8]| shown(Cell::Binary(Some(bytes.to_vec())));
    assert_eq!(base64(b""), "\"\"");
    assert_eq!(base64(b"f"), "\"Zg==\"");
    assert_eq!(base64(b"fo"), "\"Zm8=\"");
    assert_eq!(base64(b"foo"), "\"Zm9v\"");
    assert_eq!(base64(b"foobar"), "\"Zm9vYmFy\"");
    assert_eq!(base64(&[0xfb, 0xff, 0xbf, 0x00]), "\"+/+/AA==\"");
}

#[test]
fn rows_are_objects_in_the_order_of_names() {
    let row = vec![
        ("b".to_string(), Cell::I32(Some(1))),
        ("a".to_string(), Cell::Str(Some("x".to_string()))),
        ("".to_string(), Cell::Bit(None)),
    ];
    assert_eq!(row_to_json(&row).print(), r#"{"":null,"a":"x","b":1}"#);
    assert_eq!(row_to_json(&vec![]).print(), "{}");
}

#[test]
fn of_two_columns_with_one_name_the_later_counts() {
    let row = vec![
        ("a".to_string(), Cell::I32(Some(1))),
        ("b".to_string(), Cell::I32(Some(2))),
        ("a".to_string(), Cell::I32(Some(3))),
    ];
    assert_eq!(row_to_json(&row).print(), r#"{"a":3,"b":2}"#);
}

#[test]
fn rows_keep_their_order() {
    let rows = vec![
        vec![("n".to_string(), Cell::I32(Some(2)))],
        vec![("n".to_string(), Cell::I32(Some(1)))],
    ];
    let shown: Vec<String> = rows_to_json(&rows).iter().map(|r| r.print()).collect();
    assert_eq!(shown, vec![r#"{"n":2}"#, r#"{"n":1}"#]);
}

fn moment(parts: Option<(Date, Clock)>) -> String {
    let (date, clock) = parts.unwrap();
    format!("{}T{}", date.text(), clock.text())
}

#[test]
fn datetimes_count_from_1900_in_three_hundredths_of_a_second() {
    assert_eq!(moment(read_datetime(0, 0)), "1900-01-01T00:00:00");
    assert_eq!(moment(read_datetime(-53690, 0)), "1753-01-01T00:00:00");
    assert_eq!(moment(read_datetime(45350, 300 * 3_661 + 1)), "2024-03-01T01:01:01.003333333");
    assert_eq!(moment(read_datetime(2_958_463, 25_919_999)), "9999-12-31T23:59:59.996666666");
    assert_eq!(moment(read_datetime(0, 300 * 86_400)), "1900-01-01T00:00:00");
    assert_eq!(moment(read_datetime(95_051_803, 0)), "+262142-12-31T00:00:00");
    assert_eq!(read_datetime(95_051_804, 0), None);
    assert_eq!(moment(read_datetime(-96_439_725, 0)), "-262143-01-01T00:00:00");
    assert_eq!(read_datetime(-96_439_726, 0), None);
}

#[test]
fn smalldatetimes_count_from_1900_in_minutes() {
    assert_eq!(moment(read_smalldatetime(0, 0)), "1900-01-01T00:00:00");
    assert_eq!(moment(read_smalldatetime(45349, 61)), "2024-02-29T01:01:00");
    assert_eq!(moment(read_smalldatetime(65535, 1439)), "2079-06-06T23:59:00");
    assert_eq!(read_smalldatetime(0, 1440), None);
}

#[test]
fn datetime2s_count_from_the_year_1_by_their_scale() {
    assert_eq!(moment(read_datetime2(0, 0, 7)), "0001-01-01T00:00:00");
    assert_eq!(moment(read_datetime2(738_944, 12_345_678, 7)), "2024-02-29T00:00:01.234567800");
    assert_eq!(moment(read_datetime2(3_652_058, 86_399, 0)), "9999-12-31T23:59:59");
    assert_eq!(moment(read_datetime2(0x00ff_ffff, 0, 3)), "+45935-06-17T00:00:00");
    assert_eq!(read_datetime2(0x0100_0000, 0, 3), None);
    assert_eq!(read_datetime2(0, 0, 10), None);
}

#[test]
fn days_count_from_the_year_1() {
    assert_eq!(read_date(0).unwrap().text(), "0001-01-01");
    assert_eq!(read_date(364).unwrap().text(), "0001-12-31");
    assert_eq!(read_date(738_944).unwrap().text(), "2024-02-29");
    assert_eq!(read_date(0x0100_0000), None);
}

#[test]
fn times_count_by_their_scale() {
    assert_eq!(read_time(3_661, 0).unwrap().text(), "01:01:01");
    assert_eq!(read_time(15, 1).unwrap().text(), "00:00:01.500");
    assert_eq!(read_time(863_999_999_999, 7).unwrap().text(), "23:59:59.999999900");
    assert_eq!(read_time(864_000_000_001, 7).unwrap().text(), "00:00:00.000000100");
    assert_eq!(read_time(5, 9).unwrap().text(), "00:00:00.000000005");
    assert_eq!(read_time(5, 10), None);
    assert_eq!(read_time(9_223_372_036, 0).unwrap().text(), "23:47:16");
    assert_eq!(read_time(9_223_372_037, 0), None);
    assert_eq!(read_time(u64::MAX, 9), None);
}
