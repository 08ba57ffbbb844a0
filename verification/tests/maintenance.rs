use positorium::datatype::{CalendarDate, Time, TimeType};
use positorium::error::DatabaseError;
use positorium::literal::{LiteralFamily, LiteralValue};
use positorium::maintenance::{
    build_identity_map, family_name, format_uuid, header_record, mapped, parse_family, parse_uuid,
    posit_export_record, referenced_identities, remapped_posit, role_export_record, sort_pairs, validate_imported,
    ExportReader, ExternalIdentity, LogicalAppearance, LogicalLiteral, LogicalRecord, LogicalTime,
};
use positorium::storage::{ReplayedPosit, ReplayedRole};

const UUID: &str = "00112233-4455-6677-8899-aabbccddeeff";

fn date(year: i32, month: u8, day: u8) -> Time {
    Time::from_time_type(TimeType::Date(CalendarDate::new(year, month, day).unwrap()))
}

fn external(local: u64) -> ExternalIdentity {
    ExternalIdentity { store_uuid: UUID.to_string(), local }
}

fn builtin_roles() -> Vec<ReplayedRole> {
    vec![
        ReplayedRole { identity: 1, name: "posit".to_string(), reserved: true },
        ReplayedRole { identity: 2, name: "ascertains".to_string(), reserved: true },
    ]
}

#[test]
fn store_identities_read_back_as_written() {
    let bytes = [0x00, 0x11, 0x22, 0x33, 0x44, 0x55, 0x66, 0x77, 0x88, 0x99, 0xaa, 0xbb, 0xcc, 0xdd, 0xee, 0xff];
    assert_eq!(format_uuid(&bytes), UUID);
    assert_eq!(parse_uuid(UUID).unwrap(), bytes);
    assert_eq!(parse_uuid("00112233-4455-6677-8899-AABBCCDDEEFF").unwrap(), bytes);
    assert!(matches!(parse_uuid("00112233445566778899aabbccddeeff"), Err(DatabaseError::DataCorruption { .. })));
    assert!(parse_uuid("00112233-4455-6677-8899-aabbccddeefg").is_err());
}

#[test]
fn literal_families_read_back_by_name() {
    for family in [
        LiteralFamily::String,
        LiteralFamily::Integer,
        LiteralFamily::Decimal,
        LiteralFamily::Certainty,
        LiteralFamily::Json,
        LiteralFamily::Time,
    ] {
        assert!(parse_family(family_name(family)).unwrap() == family);
    }
    assert!(parse_family("float").is_err());
}

#[test]
fn an_export_is_read_back() {
    let mut reader = ExportReader::new();
    assert_eq!(reader.next_line(b"{}").unwrap(), 1);
    reader.accept(header_record(UUID)).unwrap();
    for role in builtin_roles() {
        reader.next_line(b"{}").unwrap();
        reader.accept(role_export_record(UUID, &role)).unwrap();
    }
    let posit = ReplayedPosit {
        identity: 9,
        appearances: vec![(2, 7), (1, 8)],
        value: LiteralValue::new("75%".to_string(), LiteralFamily::Certainty).unwrap(),
        time: date(2024, 1, 1),
    };
    reader.next_line(b"{}").unwrap();
    reader.accept(posit_export_record(UUID, &posit)).unwrap();
    let imported = reader.finish().unwrap();
    assert_eq!(imported.uuid, UUID);
    assert_eq!(imported.roles.len(), 2);
    assert_eq!(imported.posits.len(), 1);
    assert_eq!(imported.posits[0].appearances, vec![(1, 8), (2, 7)]);
    assert_eq!(imported.posits[0].value.token(), "75%");
    assert!(imported.posits[0].time == date(2024, 1, 1));
}

#[test]
fn export_records_follow_their_order() {
    let mut reader = ExportReader::new();
    assert!(matches!(reader.next_line(b"  \t"), Err(DatabaseError::DataCorruption { .. })));
    let mut reader = ExportReader::new();
    reader.next_line(b"{}").unwrap();
    assert!(reader.accept(role_export_record(UUID, &builtin_roles()[0])).is_err());

    let mut reader = ExportReader::new();
    reader.next_line(b"{}").unwrap();
    reader.next_line(b"{}").unwrap();
    assert!(reader.accept(header_record(UUID)).is_err());

    let mut reader = ExportReader::new();
    reader.next_line(b"{}").unwrap();
    assert!(reader.accept(header_record("00112233-4455-6677-8899-AABBCCDDEEFF")).is_err());

    let mut reader = ExportReader::new();
    reader.next_line(b"{}").unwrap();
    reader.accept(header_record(UUID)).unwrap();
    reader.next_line(b"{}").unwrap();
    let posit = LogicalRecord::Posit {
        identity: external(9),
        appearances: vec![LogicalAppearance { role: external(1), thing: external(8) }],
        literal: LogicalLiteral { family: "integer".to_string(), token: "1".to_string() },
        time: LogicalTime::Year { year: 2024 },
    };
    reader.accept(posit).unwrap();
    reader.next_line(b"{}").unwrap();
    assert!(reader.accept(role_export_record(UUID, &builtin_roles()[0])).is_err());
}

#[test]
fn foreign_identities_and_invalid_literals_are_refused() {
    let mut reader = ExportReader::new();
    reader.next_line(b"{}").unwrap();
    reader.accept(header_record(UUID)).unwrap();
    reader.next_line(b"{}").unwrap();
    let foreign = LogicalRecord::Role {
        identity: ExternalIdentity { store_uuid: "ffffffff-ffff-ffff-ffff-ffffffffffff".to_string(), local: 1 },
        name: "posit".to_string(),
        reserved: true,
    };
    assert!(reader.accept(foreign).is_err());
    let bad_literal = LogicalRecord::Posit {
        identity: external(9),
        appearances: vec![],
        literal: LogicalLiteral { family: "integer".to_string(), token: "one".to_string() },
        time: LogicalTime::BeginningOfTime,
    };
    assert!(reader.accept(bad_literal).is_err());
    let bad_time = LogicalRecord::Posit {
        identity: external(9),
        appearances: vec![],
        literal: LogicalLiteral { family: "integer".to_string(), token: "1".to_string() },
        time: LogicalTime::Date { year: 2024, month: 2, day: 30 },
    };
    assert!(reader.accept(bad_time).is_err());
}

#[test]
fn imports_need_the_built_in_roles_and_distinct_propositions() {
    assert!(validate_imported(&builtin_roles(), &[]).is_ok());
    assert!(validate_imported(&builtin_roles()[..1], &[]).is_err());
    let posit = || ReplayedPosit {
        identity: 9,
        appearances: vec![(1, 8)],
        value: LiteralValue::new("1".to_string(), LiteralFamily::Integer).unwrap(),
        time: date(2024, 1, 1),
    };
    assert!(validate_imported(&builtin_roles(), &[posit()]).is_ok());
    let mut twin = posit();
    twin.identity = 10;
    assert!(validate_imported(&builtin_roles(), &[posit(), twin]).is_err());
    let mut unknown = posit();
    unknown.appearances = vec![(5, 8)];
    assert!(validate_imported(&builtin_roles(), &[unknown]).is_err());
}

#[test]
fn identities_are_renumbered_after_the_built_ins() {
    let roles = builtin_roles();
    let posits = vec![ReplayedPosit {
        identity: 90,
        appearances: vec![(1, 40)],
        value: LiteralValue::new("1".to_string(), LiteralFamily::Integer).unwrap(),
        time: date(2024, 1, 1),
    }];
    let ids = referenced_identities(&roles, &posits);
    assert_eq!(ids, vec![1, 2, 40, 90]);
    let map = build_identity_map(&ids).unwrap();
    assert_eq!(map, vec![(1, 1), (2, 2), (40, 6), (90, 7)]);
    assert_eq!(mapped(&map, 40).unwrap(), 6);
    assert!(matches!(mapped(&map, 41), Err(DatabaseError::Invariant(_))));
    let (moved, record) = remapped_posit(&map, &posits[0]).unwrap();
    assert_eq!(moved.identity, 7);
    assert_eq!(moved.appearances, vec![(1, 6)]);
    assert_eq!(&record.payload[0..8], &7u64.to_le_bytes());
}

#[test]
fn pairs_sort_lexicographically() {
    assert_eq!(sort_pairs(&vec![(2, 1), (1, 9), (1, 3)]), vec![(1, 3), (1, 9), (2, 1)]);
}

#[test]
fn a_signed_hex_pair_reads_as_its_digit() {
    let uuid = parse_uuid("+a112233-4455-6677-8899-aabbccddeeff").unwrap();
    assert_eq!(uuid[0], 0x0a);
    assert_eq!(uuid[1], 0x11);
}
