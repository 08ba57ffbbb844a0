use positorium::datatype::{CalendarDate, CalendarDateTime, Certainty, Time, TimeType};
use positorium::interface::allocate_id;
use positorium::json::{parse_json, semantic_json_equal};
use positorium::literal::{LiteralFamily, LiteralValue};
use positorium::text::{decimal, parse_int_text, push_int};
use positorium::traqula::{advance_indices, for_each_cartesian_indices};
use std::cmp::Ordering;

fn literal(token: &str, family: LiteralFamily) -> LiteralValue {
    LiteralValue::new(token.to_string(), family).unwrap()
}

fn date(year: i32, month: u8, day: u8) -> Time {
    Time::from_time_type(TimeType::Date(CalendarDate::new(year, month, day).unwrap()))
}

#[test]
fn decimal_and_signed_text_match_rust_formatting() {
    assert_eq!(decimal(0), "0");
    assert_eq!(decimal(624_485), "624485");
    let mut text = String::new();
    push_int(&mut text, -9_223_372_036_854_775_808);
    assert_eq!(text, i64::MIN.to_string());
    assert_eq!(parse_int_text("-42", 3), Some(-42));
    assert_eq!(parse_int_text("042", 3), None);
}

#[test]
fn literals_are_validated_by_family() {
    assert!(LiteralValue::new("+001".to_string(), LiteralFamily::Integer).is_ok());
    assert!(LiteralValue::new("1.5".to_string(), LiteralFamily::Integer).is_err());
    assert!(LiteralValue::new("101%".to_string(), LiteralFamily::Certainty).is_err());
    assert!(LiteralValue::new("\"unterminated".to_string(), LiteralFamily::String).is_err());
    assert_eq!(literal("-075%", LiteralFamily::Certainty).certainty_percent().unwrap(), Some(-75));
    assert_eq!(literal("7", LiteralFamily::Integer).certainty_percent().unwrap(), None);
}

#[test]
fn nominal_equality_compares_values_not_tokens() {
    assert!(literal("+001", LiteralFamily::Integer).nominally_equals(&literal("1", LiteralFamily::Integer)).unwrap());
    assert!(!literal("+001", LiteralFamily::Integer).exactly_equals(&literal("1", LiteralFamily::Integer)));
    assert!(literal("075%", LiteralFamily::Certainty).nominally_equals(&literal("75%", LiteralFamily::Certainty)).unwrap());
    assert!(literal("1.50", LiteralFamily::Decimal).nominally_equals(&literal("1.5", LiteralFamily::Decimal)).unwrap());
    assert!(matches!(
        literal("2", LiteralFamily::Integer).semantic_cmp(&literal("10", LiteralFamily::Integer)),
        Ok(Ordering::Less)
    ));
}

#[test]
fn json_values_compare_semantically() {
    let left = parse_json(b"{ \"a\": 1.00, \"b\": [true, null] }").unwrap();
    let right = parse_json(b"{\"b\":[true,null],\"a\":1}").unwrap();
    assert!(semantic_json_equal(&left, &right));
    let other = parse_json(b"{\"a\": 2}").unwrap();
    assert!(!semantic_json_equal(&left, &other));
    assert!(parse_json(b"{\"a\": }").is_err());
}

#[test]
fn certainties_are_consistent_when_they_sum_to_at_most_one() {
    let a = Certainty::from_percent(60);
    let b = Certainty::from_percent(40);
    let c = Certainty::from_percent(50);
    assert_eq!(a.percent(), 60);
    assert!(Certainty::consistent(&[a.clone(), b]));
    assert!(!Certainty::consistent(&[a, c]));
}

#[test]
fn times_compare_by_their_intervals() {
    let year = Time::from_time_type(TimeType::Year(2024));
    let may = Time::from_time_type(TimeType::YearMonth(2024, 5));
    let day = date(2024, 5, 6);
    let next = date(2024, 5, 7);
    assert!(day.definitely_before(&next));
    assert!(next.definitely_after(&day));
    assert!(!day.definitely_before(&day));
    assert!(year.contains(&may));
    assert!(may.contains(&day));
    assert!(day.within(&year));
    assert!(year.overlaps(&day) && day.overlaps(&year));
    assert!(Time::new_beginning_of_time().definitely_before(&day));
    assert!(day.definitely_before(&Time::new_end_of_time()));
    assert!(day.definitely_at_or_before(&day));
    let second = CalendarDateTime::new(CalendarDate::new(2024, 12, 31).unwrap(), 23, 59, 59, 999_999_999).unwrap();
    let last = Time::from_time_type(TimeType::DateTime(second));
    assert!(last.definitely_before(&date(2025, 1, 1)));
    assert!(!CalendarDate::new(2023, 2, 29).is_some());
}

#[test]
fn stored_times_sort_by_precision_then_parts() {
    let year = Time::from_time_type(TimeType::Year(2030));
    let day = date(2020, 1, 1);
    assert!(Time::new_beginning_of_time().sorts_before(&Time::new_end_of_time()));
    assert!(Time::new_end_of_time().sorts_before(&year));
    assert!(year.sorts_before(&day));
    assert!(date(2020, 1, 1).sorts_before(&date(2020, 1, 2)));
    assert!(!day.sorts_before(&day));
}

#[test]
fn query_identifiers_count_up_without_wrapping() {
    let mut next = 0u64;
    assert_eq!(allocate_id(&mut next).unwrap().value(), 1);
    assert_eq!(allocate_id(&mut next).unwrap().value(), 2);
    let mut last = u64::MAX;
    assert!(allocate_id(&mut last).is_err());
    assert_eq!(last, u64::MAX);
}

#[test]
fn cartesian_indices_run_like_an_odometer() {
    let mut idx = vec![0usize, 0];
    let lengths = [2usize, 3];
    let mut seen = vec![idx.clone()];
    while advance_indices(&mut idx, &lengths) {
        seen.push(idx.clone());
    }
    assert_eq!(seen.len(), 6);
    assert_eq!(seen[1], vec![0, 1]);
    assert_eq!(seen[3], vec![1, 0]);
    assert_eq!(idx, vec![0, 0]);

    let a = [1u8, 2];
    let b = [3u8, 4, 5];
    let mut count = 0;
    for_each_cartesian_indices(&[&a[..], &b[..]], |indices| {
        assert_eq!(indices.len(), 2);
        count += 1;
    });
    assert_eq!(count, 6);
}

#[test]
fn numbers_compare_by_value_across_the_numeric_families() {
    let two = literal("2", LiteralFamily::Integer);
    let ten = literal("10.0", LiteralFamily::Decimal);
    assert_eq!(two.semantic_cmp(&ten), Ok(Ordering::Less));
    assert_eq!(ten.semantic_cmp(&two), Ok(Ordering::Greater));
    let one_point_zero = literal("1.0", LiteralFamily::Decimal);
    let one = literal("1", LiteralFamily::Integer);
    assert_eq!(one_point_zero.semantic_cmp(&one), Ok(Ordering::Equal));
    assert_eq!(one_point_zero.nominally_equals(&one), Ok(true));
    assert_eq!(one.nominally_equals(&one_point_zero), Ok(true));
    assert_eq!(literal("01.00", LiteralFamily::Decimal).nominally_equals(&one), Ok(true));
    assert_eq!(one.nominally_equals(&literal("2", LiteralFamily::Integer)), Ok(false));
    assert_eq!(one.possibly_equals(&one_point_zero), Ok(true));
    assert_eq!(
        literal("-5%", LiteralFamily::Certainty).semantic_cmp(&literal("10%", LiteralFamily::Certainty)),
        Ok(Ordering::Less)
    );
    assert!(literal("\"a\"", LiteralFamily::String).semantic_cmp(&literal("\"a\"", LiteralFamily::String)).is_err());
    assert!(literal("5%", LiteralFamily::Certainty).semantic_cmp(&literal("5", LiteralFamily::Integer)).is_err());
}

#[test]
fn strings_and_json_compare_by_meaning() {
    assert_eq!(
        literal("\"\\u0041\"", LiteralFamily::String).nominally_equals(&literal("\"A\"", LiteralFamily::String)),
        Ok(true)
    );
    assert_eq!(
        literal("{ \"a\": 1.00 }", LiteralFamily::Json).nominally_equals(&literal("{\"a\":1}", LiteralFamily::Json)),
        Ok(true)
    );
    assert_eq!(
        literal("[1, 2]", LiteralFamily::Json).nominally_equals(&literal("[2, 1]", LiteralFamily::Json)),
        Ok(false)
    );
}

#[test]
fn certainties_with_one_percentage_are_one_certainty() {
    assert_eq!(Certainty::from_percent(-30), Certainty::from_percent(-30));
    assert_ne!(Certainty::from_percent(30), Certainty::from_percent(-30));
    assert_eq!(Certainty::from_percent(-30).percent(), -30);
}

#[test]
fn the_current_time_is_a_date_time() {
    let now = Time::new().unwrap();
    assert!(matches!(now.time_type(), TimeType::DateTime(_)));
}

#[test]
fn the_calendar_follows_the_gregorian_leap_rule() {
    assert!(CalendarDate::new(2024, 2, 29).is_some());
    assert!(CalendarDate::new(2023, 2, 29).is_none());
    assert!(CalendarDate::new(1900, 2, 29).is_none());
    assert!(CalendarDate::new(2000, 2, 29).is_some());
    assert!(CalendarDate::new(-4, 2, 29).is_some());
    assert!(CalendarDate::new(2015, 0, 14).is_none());
    assert!(CalendarDate::new(400000, 1, 1).is_none());
    assert!(CalendarDate::new(2024, 4, 31).is_none());
}

#[test]
fn a_year_a_day_and_the_next_year_are_ordered() {
    let y = Time::from_time_type(TimeType::Year(2024));
    let d = date(2024, 5, 6);
    let e = date(2025, 1, 1);
    assert!(y.definitely_at_or_before(&y));
    assert!(!y.definitely_at_or_before(&d));
    assert!(!d.definitely_at_or_before(&y));
    assert!(y.definitely_at_or_before(&e));
    assert!(d.definitely_at_or_before(&e));
    assert!(Time::new_beginning_of_time().definitely_at_or_before(&d));
}

#[test]
fn nominal_equality_of_strings_times_and_certainties_is_symmetric_and_reflexive() {
    let a = LiteralValue::new("\"A\"".to_string(), LiteralFamily::String).unwrap();
    let b = LiteralValue::new("\"\\u0041\"".to_string(), LiteralFamily::String).unwrap();
    assert_eq!(a.nominally_equals(&b), b.nominally_equals(&a));
    assert_eq!(a.nominally_equals(&b), Ok(true));
    let c = LiteralValue::new("75%".to_string(), LiteralFamily::Certainty).unwrap();
    assert_eq!(c.nominally_equals(&c), Ok(true));
    let t = LiteralValue::new("'2024-01-01'".to_string(), LiteralFamily::Time).unwrap();
    assert_eq!(t.nominally_equals(&t), Ok(true));
    assert_eq!(t.nominally_equals(&a).is_err(), a.nominally_equals(&t).is_err());
}
