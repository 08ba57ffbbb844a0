use positorium::error::DatabaseError;
use positorium::terrain::{checked_add, checked_mul};

#[test]
fn checked_counters_fail_closed_on_overflow() {
    assert!(matches!(
        checked_add(u64::MAX, 1, "test counter"),
        Err(DatabaseError::ResourceLimit { resource: "test counter", limit: u64::MAX })
    ));
    assert!(matches!(
        checked_mul(u64::MAX, 2, "test counter"),
        Err(DatabaseError::ResourceLimit { resource: "test counter", limit: u64::MAX })
    ));
}

#[test]
fn checked_counters_add_and_multiply_within_range() {
    assert_eq!(checked_add(40, 2, "test counter").unwrap(), 42);
    assert_eq!(checked_mul(6, 7, "test counter").unwrap(), 42);
}

use positorium::construct::{Appearance, AppearanceSet, Database, Role};
use positorium::datatype::{CalendarDate, Time, TimeType};
use positorium::literal::{LiteralFamily, LiteralValue};
use positorium::terrain::{terrain_time_token, TerrainLimits, TerrainOptions, TerrainScope};

fn date(year: i32, month: u8, day: u8) -> Time {
    Time::from_time_type(TimeType::Date(CalendarDate::new(year, month, day).unwrap()))
}

fn appearances(pairs: &[(u64, &Role)]) -> AppearanceSet {
    AppearanceSet::new(pairs.iter().map(|(thing, role)| Appearance::new(*thing, (*role).clone())).collect()).unwrap()
}

fn text(value: &str) -> LiteralValue {
    LiteralValue::new(format!("\"{value}\""), LiteralFamily::String).unwrap()
}

fn integer(value: &str) -> LiteralValue {
    LiteralValue::new(value.to_string(), LiteralFamily::Integer).unwrap()
}

fn roles(database: &mut Database, names: &[&str]) -> Vec<Role> {
    database
        .create_roles(names.iter().map(|name| (name.to_string(), false)).collect())
        .unwrap()
        .into_iter()
        .map(|(role, _)| role)
        .collect()
}

fn at(time: Time) -> TerrainOptions {
    TerrainOptions { as_of: Some(time), ..TerrainOptions::default() }
}

#[test]
fn future_and_repeated_history_follow_snapshot_semantics() {
    let mut database = Database::in_memory().unwrap();
    let name = roles(&mut database, &["name"]).remove(0);
    let person = 100;
    database
        .create_literal_posits(vec![
            (appearances(&[(person, &name)]), text("old"), date(2024, 1, 1)),
            (appearances(&[(person, &name)]), text("new"), date(2025, 1, 1)),
            (appearances(&[(person, &name)]), text("future"), date(2030, 1, 1)),
        ])
        .unwrap();
    let report = database.terrain_with_options(at(date(2025, 1, 1))).unwrap();
    assert_eq!(report.frames.history.stats.posits, 3);
    assert_eq!(report.frames.history.stats.incidences, 3);
    assert_eq!(report.frames.current.stats.posits, 1);
    assert_eq!(report.frames.current.stats.incidences, 1);
    assert_eq!(report.projection.roles[0].history_support, 1);
    assert_eq!(report.projection.roles[0].current_support, 1);
}

#[test]
fn projection_limit_is_bounded_and_explicit() {
    let mut database = Database::in_memory().unwrap();
    let made = roles(&mut database, &["a", "b"]);
    let x = 100;
    database
        .create_literal_posits(vec![
            (appearances(&[(x, &made[0])]), integer("1"), date(2024, 1, 1)),
            (appearances(&[(x, &made[1])]), integer("2"), date(2024, 1, 1)),
        ])
        .unwrap();
    let report = database
        .terrain_with_options(TerrainOptions { projected_role_limit: 1, ..at(date(2025, 1, 1)) })
        .unwrap();
    assert!(!report.projection.complete);
    assert_eq!(report.projection.total_attribute_roles, 2);
    assert_eq!(report.projection.roles.len(), 1);
    assert_eq!(report.frames.history.profiles.iter().map(|p| p.things).sum::<u64>(), 1);
}

#[test]
fn configured_hard_limits_fail_without_a_report() {
    let mut database = Database::in_memory().unwrap();
    let a = roles(&mut database, &["a"]).remove(0);
    database.create_literal_posits(vec![(appearances(&[(100, &a)]), integer("1"), date(2024, 1, 1))]).unwrap();
    let error = database
        .terrain_with_options(TerrainOptions {
            limits: TerrainLimits { posits_scanned: 0, ..TerrainLimits::default() },
            ..TerrainOptions::default()
        })
        .unwrap_err();
    assert!(matches!(error, DatabaseError::ResourceLimit { resource: "posits scanned", limit: 0 }));
}

#[test]
fn each_aggregation_limit_is_fail_closed() {
    let mut database = Database::in_memory().unwrap();
    let made = roles(&mut database, &["a", "left", "right"]);
    database
        .create_literal_posits(vec![
            (appearances(&[(100, &made[0])]), integer("1"), date(2024, 1, 1)),
            (appearances(&[(101, &made[1]), (102, &made[2])]), integer("1"), date(2024, 1, 1)),
        ])
        .unwrap();
    for (resource, limits) in [
        ("active appearance sets", TerrainLimits { active_appearance_sets: 1, ..TerrainLimits::default() }),
        ("endpoint Things", TerrainLimits { endpoint_things: 1, ..TerrainLimits::default() }),
        ("temporal comparisons", TerrainLimits { temporal_comparisons: 0, ..TerrainLimits::default() }),
        ("relationship arity", TerrainLimits { relationship_arity: 1, ..TerrainLimits::default() }),
        ("allocations", TerrainLimits { allocations: 0, ..TerrainLimits::default() }),
    ] {
        assert!(matches!(
            database.terrain_with_options(TerrainOptions { limits, ..at(date(2025, 1, 1)) }),
            Err(DatabaseError::ResourceLimit { resource: actual, .. }) if actual == resource
        ));
    }
}

#[test]
fn an_empty_database_reports_only_its_built_in_roles() {
    let database = Database::in_memory().unwrap();
    let report = database.terrain_with_options(at(date(2025, 1, 1))).unwrap();
    assert_eq!(report.terrain_version, 1);
    assert_eq!(report.resolved_as_of, "'2025-01-01'");
    assert_eq!(report.database.roles, 2);
    assert_eq!(report.database.referenced_things, 2);
    assert_eq!(report.database.appearances, 0);
    assert_eq!(report.database.appearance_sets, 0);
    assert_eq!(report.database.posits, 0);
    assert_eq!(report.frames.history.stats.roles, 0);
    assert_eq!(report.frames.current.stats.roles, 0);
    assert!(report.projection.roles.is_empty());
    assert!(report.projection.complete);
    assert!(report.relationship_catalog.signatures.is_empty());
    assert_eq!(report.relationship_catalog.default_signature_id, None);
    assert!(report.frames.history.profiles.is_empty());
    assert_eq!(report.frames.current.scope, TerrainScope::Current);
}

#[test]
fn profiles_isopleths_and_allocations_describe_a_small_graph() {
    let mut database = Database::in_memory().unwrap();
    let made = roles(&mut database, &["name", "age", "parent", "child"]);
    let (name, age, parent, child) = (&made[0], &made[1], &made[2], &made[3]);
    database
        .create_literal_posits(vec![
            (appearances(&[(100, name)]), text("Ada"), date(2024, 1, 1)),
            (appearances(&[(100, age)]), integer("36"), date(2024, 1, 1)),
            (appearances(&[(101, name)]), text("Byron"), date(2024, 1, 1)),
            (appearances(&[(101, parent), (100, child)]), integer("1"), date(2024, 1, 1)),
        ])
        .unwrap();
    let report = database.terrain_with_options(at(date(2025, 1, 1))).unwrap();
    assert_eq!(report.database.posits, 4);
    assert_eq!(report.database.appearances, 5);
    assert_eq!(report.database.appearance_sets, 4);
    assert_eq!(report.database.roles, 6);
    let history = &report.frames.history;
    assert_eq!(history.stats.endpoint_things, 2);
    assert_eq!(history.stats.roles, 4);
    assert_eq!(history.stats.appearance_sets, 4);
    assert_eq!(history.stats.incidences, 5);
    // name is the attribute of two things, age of one.
    assert_eq!(report.projection.roles.len(), 2);
    assert_eq!(report.projection.roles[0].name, "name");
    assert_eq!(report.projection.roles[0].bit, 0);
    assert_eq!(report.projection.roles[0].current_support, 2);
    assert_eq!(report.projection.roles[1].name, "age");
    assert_eq!(report.projection.roles[1].current_support, 1);
    // Ada has both attributes, Byron only a name.
    let masks: Vec<(u16, u64)> = history.profiles.iter().map(|p| (p.mask, p.things)).collect();
    assert_eq!(masks, vec![(1, 1), (3, 1)]);
    assert_eq!(history.profiles[0].id, "terrain-v1-profile-001");
    assert_eq!(history.profiles[0].present_role_ids, vec![made[0].role().to_string()]);
    assert_eq!(history.profiles[0].absent_role_ids, vec![made[1].role().to_string()]);
    assert_eq!(history.profiles[1].isopleth_id.as_deref(), Some("terrain-v1-isopleth-003"));
    let isopleths: Vec<(u16, u64)> = history.isopleths.iter().map(|i| (i.mask, i.support)).collect();
    assert_eq!(isopleths, vec![(1, 2), (3, 1)]);
    // one relationship, parent to child.
    let catalog = &report.relationship_catalog;
    assert!(catalog.complete);
    assert_eq!(catalog.total_signatures, 1);
    let signature = format!("{}-{}", made[2].role(), made[3].role());
    assert_eq!(catalog.signatures[0].id, format!("terrain-v1-signature-{signature}"));
    assert_eq!(catalog.default_signature_id.as_deref(), Some(catalog.signatures[0].id.as_str()));
    assert_eq!(catalog.signatures[0].roles[0].name, "parent");
    let relationship = &history.relationships[0];
    assert_eq!(relationship.appearance_sets, 1);
    assert_eq!(relationship.posits, 1);
    assert_eq!(relationship.role_totals.len(), 2);
    assert_eq!(relationship.role_totals[0].distinct_things, 1);
    assert_eq!(relationship.role_totals[0].participations, 1);
    let allocations: Vec<(String, u16)> =
        relationship.allocations.iter().map(|a| (a.role_id.clone(), a.profile_mask)).collect();
    assert_eq!(allocations, vec![(made[2].role().to_string(), 1), (made[3].role().to_string(), 3)]);
    assert_eq!(
        relationship.allocations[0].id,
        format!("terrain-v1-allocation-{signature}-{}-001", made[2].role())
    );
}

#[test]
fn cutoff_tokens_quote_concrete_times() {
    assert_eq!(terrain_time_token(&Time::new_beginning_of_time()), "@BOT");
    assert_eq!(terrain_time_token(&Time::new_end_of_time()), "@EOT");
    assert_eq!(terrain_time_token(&Time::from_time_type(TimeType::YearMonth(2025, 6))), "'2025-06'");
    assert_eq!(terrain_time_token(&Time::from_time_type(TimeType::Year(-44))), "'-44'");
    assert_eq!(terrain_time_token(&date(2025, 1, 1)), "'2025-01-01'");
}
