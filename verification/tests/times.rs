use positorium::datatype::{CalendarDate, CalendarDateTime, Time, TimeType};
use positorium::traqula::{parse_time, parse_time_with_now};

fn date(year: i32, month: u8, day: u8) -> TimeType {
    TimeType::Date(CalendarDate::new(year, month, day).unwrap())
}

fn datetime(year: i32, month: u8, day: u8, hour: u8, minute: u8, second: u8, nano: u32) -> TimeType {
    let day = CalendarDate::new(year, month, day).unwrap();
    TimeType::DateTime(CalendarDateTime::new(day, hour, minute, second, nano).unwrap())
}

fn read(text: &str) -> Option<TimeType> {
    parse_time(text).map(|t| t.time_type())
}

#[test]
fn time_constants_read_as_sentinels_and_now() {
    assert_eq!(read("@BOT"), Some(TimeType::BeginningOfTime));
    assert_eq!(read("@EOT"), Some(TimeType::EndOfTime));
    assert_eq!(read("BOT"), Some(TimeType::BeginningOfTime));
    let now = Time::from_time_type(date(2020, 1, 2));
    assert_eq!(parse_time_with_now("@NOW", &now).map(|t| t.time_type()), Some(date(2020, 1, 2)));
    assert!(matches!(read("@NOW"), Some(TimeType::DateTime(_))));
}

#[test]
fn time_literals_read_at_their_precision() {
    assert_eq!(read("'2024-06-18'"), Some(date(2024, 6, 18)));
    assert_eq!(read("  2024-06-18 ,"), Some(date(2024, 6, 18)));
    assert_eq!(read("'2025-06-18 21:05:00'"), Some(datetime(2025, 6, 18, 21, 5, 0, 0)));
    assert_eq!(read("2025-06-18 21:05"), Some(datetime(2025, 6, 18, 21, 5, 0, 0)));
    assert_eq!(read("2025-06-18 21:05:00.25"), Some(datetime(2025, 6, 18, 21, 5, 0, 250_000_000)));
    assert_eq!(read("2024-06"), Some(TimeType::YearMonth(2024, 6)));
    assert_eq!(read("2024"), Some(TimeType::Year(2024)));
    assert_eq!(read("-2024"), Some(TimeType::Year(-2024)));
}

#[test]
fn malformed_times_read_as_nothing() {
    assert_eq!(read("2024-13"), None);
    assert_eq!(read("2024-02-30"), None);
    assert_eq!(read("hello"), None);
    assert_eq!(read("99"), None);
    assert_eq!(read(""), None);
}

#[test]
fn time_constructors_read_their_shapes() {
    assert_eq!(Time::new_year_from("1999").map(|t| t.time_type()), Some(TimeType::Year(1999)));
    assert!(Time::new_year_from("19x9").is_none());
    assert_eq!(Time::new_year_month_from("2024-05").map(|t| t.time_type()), Some(TimeType::YearMonth(2024, 5)));
    assert!(Time::new_year_month_from("2024-00").is_none());
    assert_eq!(Time::new_date_from("2024-02-29").map(|t| t.time_type()), Some(date(2024, 2, 29)));
    assert!(Time::new_date_from("2023-02-29").is_none());
    assert_eq!(
        Time::new_datetime_from("2024-02-29T12:30:45").map(|t| t.time_type()),
        Some(datetime(2024, 2, 29, 12, 30, 45, 0))
    );
    assert!(Time::new_datetime_from("2024-02-29 12:30").is_none());
}
