use positorium::construct::{Appearance, AppearanceSet, Database, Role, ASCERTAINS_ROLE_ID, POSIT_ROLE_ID};
use positorium::datatype::{CalendarDate, Time, TimeType};
use positorium::effect::{EffectCut, EffectLimits};
use positorium::error::DatabaseError;
use positorium::literal::{LiteralFamily, LiteralValue};

fn date(year: i32, month: u8, day: u8) -> Time {
    Time::from_time_type(TimeType::Date(CalendarDate::new(year, month, day).unwrap()))
}

fn assertion_set(target: u64, positor: u64) -> AppearanceSet {
    AppearanceSet::new(vec![
        Appearance::new(positor, Role::new(ASCERTAINS_ROLE_ID, "ascertains".to_string(), true)),
        Appearance::new(target, Role::new(POSIT_ROLE_ID, "posit".to_string(), true)),
    ])
    .unwrap()
}

fn certainty(token: &str) -> LiteralValue {
    LiteralValue::new(token.to_string(), LiteralFamily::Certainty).unwrap()
}

/// A name posit, an assertion of it and a later retraction by the same positor.
fn database() -> (Database, u64, u64) {
    let mut database = Database::in_memory().unwrap();
    let name = database.create_roles(vec![("name".to_string(), false)]).unwrap()[0].0.clone();
    let target = database
        .create_literal_posits(vec![(
            AppearanceSet::new(vec![Appearance::new(100, name)]).unwrap(),
            LiteralValue::new("\"Alice\"".to_string(), LiteralFamily::String).unwrap(),
            date(2024, 1, 1),
        )])
        .unwrap()[0]
        .posit();
    let assertions = database
        .create_literal_posits(vec![
            (assertion_set(target, 200), certainty("75%"), date(2024, 2, 1)),
            (assertion_set(target, 200), certainty("0%"), date(2024, 3, 1)),
        ])
        .unwrap();
    (database, target, assertions[0].posit())
}

#[test]
fn an_assertion_before_its_retraction_is_in_effect() {
    let (database, target, assertion) = database();
    let slice = database.information_in_effect(EffectCut::new(date(2024, 2, 15), date(2024, 12, 31))).unwrap();
    assert_eq!(slice.assertions().len(), 1);
    let effective = &slice.assertions()[0];
    assert_eq!(effective.assertion_identity(), assertion);
    assert_eq!(effective.target_identity(), target);
    assert_eq!(effective.positor(), 200);
    assert_eq!(effective.certainty_percent(), 75);
    let counters = slice.counters();
    assert_eq!(counters.assertion_candidates, 2);
    assert_eq!(counters.temporally_eligible, 1);
    assert_eq!(counters.retractions, 0);
    assert_eq!(counters.effective_assertions, 1);
}

#[test]
fn a_later_retraction_withdraws_the_assertion() {
    let (database, _, _) = database();
    let slice = database.information_in_effect(EffectCut::new(date(2024, 12, 31), date(2024, 12, 31))).unwrap();
    assert_eq!(slice.assertions().len(), 0);
    let counters = slice.counters();
    assert_eq!(counters.assertion_candidates, 2);
    assert_eq!(counters.temporally_eligible, 2);
    assert_eq!(counters.retractions, 1);
    assert_eq!(counters.temporal_comparisons, 1);
    assert_eq!(counters.effective_assertions, 0);
}

#[test]
fn a_target_after_the_appearance_cut_is_not_eligible() {
    let (database, _, _) = database();
    let slice = database.information_in_effect(EffectCut::new(date(2024, 2, 15), date(2023, 12, 31))).unwrap();
    assert_eq!(slice.assertions().len(), 0);
    assert_eq!(slice.counters().temporally_eligible, 0);
}

#[test]
fn candidate_and_comparison_limits_fail_closed() {
    let (database, _, _) = database();
    let cut = EffectCut::new(date(2024, 12, 31), date(2024, 12, 31));
    let few = EffectLimits { assertion_candidates: 1, temporal_comparisons: 100 };
    assert!(matches!(
        database.information_in_effect_with_limits(cut, few),
        Err(DatabaseError::ResourceLimit { resource: "effective assertion candidates", limit: 1 })
    ));
    let none = EffectLimits { assertion_candidates: 100, temporal_comparisons: 0 };
    assert!(matches!(
        database.information_in_effect_with_limits(cut, none),
        Err(DatabaseError::ResourceLimit { resource: "effective temporal comparisons", limit: 0 })
    ));
}

#[test]
fn an_assertion_envelope_needs_a_certainty() {
    let mut database = Database::in_memory().unwrap();
    database
        .create_literal_posits(vec![(
            assertion_set(50, 200),
            LiteralValue::new("1".to_string(), LiteralFamily::Integer).unwrap(),
            date(2024, 2, 1),
        )])
        .unwrap();
    let cut = EffectCut::new(date(2024, 12, 31), date(2024, 12, 31));
    assert!(matches!(database.information_in_effect(cut), Err(DatabaseError::Execution(_))));
}

#[test]
fn an_assertion_of_a_missing_posit_is_refused() {
    let mut database = Database::in_memory().unwrap();
    database.create_literal_posits(vec![(assertion_set(50, 200), certainty("75%"), date(2024, 2, 1))]).unwrap();
    let cut = EffectCut::new(date(2024, 12, 31), date(2024, 12, 31));
    assert!(matches!(database.information_in_effect(cut), Err(DatabaseError::Execution(_))));
}
