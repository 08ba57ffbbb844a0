use positorium::construct::{Appearance, AppearanceKeeper, AppearanceSet, AppearanceSetKeeper, Database, Role};
use positorium::datatype::{CalendarDate, Time, TimeType};
use positorium::error::DatabaseError;
use positorium::literal::{LiteralFamily, LiteralValue};
use positorium::storage::{ReplayedPosit, ReplayedRole, ReplayedStore};

fn date(year: i32, month: u8, day: u8) -> Time {
    Time::from_time_type(TimeType::Date(CalendarDate::new(year, month, day).unwrap()))
}

fn one_appearance(thing: u64, role: &Role) -> AppearanceSet {
    AppearanceSet::new(vec![Appearance::new(thing, role.clone())]).unwrap()
}

#[test]
fn a_new_database_holds_the_built_in_roles() {
    let database = Database::in_memory().unwrap();
    assert_eq!(database.role_count().unwrap(), 2);
    assert!(database.contains_role("posit").unwrap());
    assert!(database.contains_role("ascertains").unwrap());
    assert!(!database.contains_role("name").unwrap());
}

#[test]
fn roles_are_created_once_per_canonical_name() {
    let mut database = Database::in_memory().unwrap();
    let created = database
        .create_roles(vec![("name".to_string(), false), ("e\u{301}tat".to_string(), false), ("name".to_string(), false)])
        .unwrap();
    assert_eq!(created.len(), 3);
    assert!(!created[0].1);
    assert!(!created[1].1);
    assert!(!created[2].1);
    assert_eq!(created[0].0.role(), created[2].0.role());
    assert_eq!(created[0].0.role(), 3);
    assert_eq!(created[1].0.role(), 4);
    assert_eq!(created[1].0.name(), "\u{e9}tat");
    assert!(database.contains_role("\u{e9}tat").unwrap());

    let again = database.create_roles(vec![("name".to_string(), false)]).unwrap();
    assert!(again[0].1);
    assert_eq!(again[0].0.role(), 3);
    assert_eq!(database.role_count().unwrap(), 4);
}

#[test]
fn role_creation_refuses_empty_names_and_conflicting_reservations() {
    let mut database = Database::in_memory().unwrap();
    assert!(matches!(database.create_roles(vec![("".to_string(), false)]), Err(DatabaseError::Execution(_))));
    assert!(matches!(
        database.create_roles(vec![("label".to_string(), false), ("label".to_string(), true)]),
        Err(DatabaseError::Execution(_))
    ));
    assert_eq!(database.role_count().unwrap(), 2);
}

#[test]
fn posits_are_kept_once_per_proposition() {
    let mut database = Database::in_memory().unwrap();
    let name = database.create_roles(vec![("name".to_string(), false)]).unwrap()[0].0.clone();
    let value = || LiteralValue::new("\"Alice\"".to_string(), LiteralFamily::String).unwrap();
    let posits = database
        .create_literal_posits(vec![
            (one_appearance(10, &name), value(), date(2024, 1, 1)),
            (one_appearance(10, &name), value(), date(2024, 1, 1)),
            (one_appearance(10, &name), value(), date(2025, 1, 1)),
        ])
        .unwrap();
    assert_eq!(posits.len(), 3);
    assert_eq!(posits[0].posit(), posits[1].posit());
    assert_ne!(posits[0].posit(), posits[2].posit());
    assert_eq!(database.posit_keeper().len(), 2);

    let again = database.create_literal_posits(vec![(one_appearance(10, &name), value(), date(2024, 1, 1))]).unwrap();
    assert_eq!(again[0].posit(), posits[0].posit());
    assert_eq!(database.posit_keeper().len(), 2);
}

#[test]
fn a_store_restores_its_roles_and_posits() {
    let replayed = ReplayedStore {
        store_uuid: [1; 16],
        roles: vec![
            ReplayedRole { identity: 1, name: "posit".to_string(), reserved: true },
            ReplayedRole { identity: 2, name: "ascertains".to_string(), reserved: true },
            ReplayedRole { identity: 6, name: "name".to_string(), reserved: false },
        ],
        posits: vec![ReplayedPosit {
            identity: 8,
            appearances: vec![(6, 7)],
            value: LiteralValue::new("\"Ada\"".to_string(), LiteralFamily::String).unwrap(),
            time: date(2024, 1, 1),
        }],
        has_required_codecs: true,
    };
    let mut database = Database::from_replay(replayed).unwrap();
    assert_eq!(database.role_count().unwrap(), 3);
    assert_eq!(database.posit_keeper().len(), 1);
    let created = database.create_roles(vec![("other".to_string(), false)]).unwrap();
    assert!(created[0].0.role() > 8);
}

#[test]
fn a_store_with_a_dangling_role_is_refused() {
    let replayed = ReplayedStore {
        store_uuid: [1; 16],
        roles: vec![
            ReplayedRole { identity: 1, name: "posit".to_string(), reserved: true },
            ReplayedRole { identity: 2, name: "ascertains".to_string(), reserved: true },
        ],
        posits: vec![ReplayedPosit {
            identity: 8,
            appearances: vec![(6, 7)],
            value: LiteralValue::new("1".to_string(), LiteralFamily::Integer).unwrap(),
            time: date(2024, 1, 1),
        }],
        has_required_codecs: true,
    };
    assert!(matches!(Database::from_replay(replayed), Err(DatabaseError::DataCorruption { .. })));
}

#[test]
fn a_built_in_name_at_another_identity_is_refused() {
    let replayed = ReplayedStore {
        store_uuid: [1; 16],
        roles: vec![ReplayedRole { identity: 7, name: "posit".to_string(), reserved: true }],
        posits: vec![],
        has_required_codecs: true,
    };
    assert!(matches!(Database::from_replay(replayed), Err(DatabaseError::DataCorruption { .. })));
}

#[test]
fn an_empty_store_starts_with_the_built_in_roles() {
    let replayed = ReplayedStore { store_uuid: [1; 16], roles: vec![], posits: vec![], has_required_codecs: false };
    let database = Database::from_replay(replayed).unwrap();
    assert_eq!(database.role_count().unwrap(), 2);
}

#[test]
fn an_appearance_is_kept_once_by_thing_and_role_identity() {
    let mut keeper = AppearanceKeeper::new();
    assert!(keeper.is_empty());
    let name = Role::new(10, "name".to_string(), false);
    let (first, before) = keeper.keep(Appearance::new(42, name.clone()));
    assert!(!before);
    assert_eq!(first.thing(), 42);
    let renamed = Role::new(10, "other".to_string(), false);
    let (again, before) = keeper.keep(Appearance::new(42, renamed));
    assert!(before);
    assert_eq!(again.role().name(), "name");
    let (_, before) = keeper.keep(Appearance::new(43, name));
    assert!(!before);
    assert_eq!(keeper.len(), 2);
    assert!(!keeper.is_empty());
}

#[test]
fn an_appearance_set_is_kept_once_by_its_appearances() {
    let mut keeper = AppearanceSetKeeper::default();
    assert!(keeper.is_empty());
    let name = Role::new(10, "name".to_string(), false);
    let age = Role::new(11, "age".to_string(), false);
    let pair = |a: u64, b: u64| {
        AppearanceSet::new(vec![Appearance::new(a, name.clone()), Appearance::new(b, age.clone())]).unwrap()
    };
    let (_, before) = keeper.keep(pair(1, 2));
    assert!(!before);
    let (kept, before) = keeper.keep(pair(1, 2));
    assert!(before);
    assert_eq!(kept.appearances().len(), 2);
    let (_, before) = keeper.keep(pair(2, 1));
    assert!(!before);
    let (_, before) = keeper.keep(one_appearance(1, &name));
    assert!(!before);
    assert_eq!(keeper.len(), 3);
}
