use positorium::codec::{crc32c, decode_uleb128, encode_uleb128};
use positorium::construct::{Appearance, AppearanceSet, Posit, Role};
use positorium::datatype::{CalendarDate, CalendarDateTime, Time, TimeType};
use positorium::literal::{LiteralFamily, LiteralValue};
use positorium::storage::{
    codec_records, decode_manifest, decode_time, encode_frame, encode_manifest, encode_time, posit_record,
    read_frame, replay_logical, role_record, select_codec, BuiltinCodec, Manifest, MemoryStore, PendingRecord,
    StoredRecord, RECORD_POSIT, RECORD_ROLE,
};

fn stored(record: PendingRecord, sequence: u64) -> StoredRecord {
    StoredRecord {
        record_type: record.record_type,
        version: record.version,
        flags: record.flags,
        sequence,
        payload: record.payload,
    }
}

fn builtin_role_records() -> Vec<StoredRecord> {
    [(1u64, "posit"), (2u64, "ascertains")]
        .into_iter()
        .enumerate()
        .map(|(index, (identity, name))| stored(role_record(&Role::new(identity, name.to_string(), true)), 1 + index as u64))
        .collect()
}

fn date(year: i32, month: u8, day: u8) -> Time {
    Time::from_time_type(TimeType::Date(CalendarDate::new(year, month, day).unwrap()))
}

#[test]
fn crc32c_matches_the_standard_check_value() {
    assert_eq!(crc32c(b"123456789"), 0xe306_9283);
}

#[test]
fn uleb128_is_canonical() {
    let mut bytes = Vec::new();
    encode_uleb128(624_485, &mut bytes);
    assert_eq!(bytes, [0xe5, 0x8e, 0x26]);
    let mut cursor = 0;
    assert_eq!(decode_uleb128(&bytes, &mut cursor).unwrap(), 624_485);
    assert_eq!(cursor, bytes.len());

    let mut cursor = 0;
    assert!(decode_uleb128(&[0x80, 0x00], &mut cursor).is_err());
}

#[test]
fn memory_batches_receive_monotonic_sequences() {
    let mut store = MemoryStore::new();
    let first = store.append_batch(&[PendingRecord::new(RECORD_ROLE, vec![1])]).unwrap();
    let second = store.append_batch(&[PendingRecord::new(RECORD_POSIT, vec![2])]).unwrap();
    assert_eq!(first[0].sequence, 1);
    assert_eq!(second[0].sequence, 2);
    assert_eq!(store.replay().len(), 2);
    store.flush().unwrap();
}

#[test]
fn logical_replay_rejects_dangling_roles_and_duplicate_propositions() {
    let missing_role = Role::new(9, "missing".to_string(), false);
    let appearance = Appearance::new(42, missing_role);
    let appearance_set = AppearanceSet::new(vec![appearance]).unwrap();
    let value = LiteralValue::new("10".to_string(), LiteralFamily::Integer).unwrap();
    let posit = Posit::new(100, appearance_set, value, date(2024, 5, 6));
    let base = || {
        let mut records = builtin_role_records();
        records.extend(codec_records().into_iter().enumerate().map(|(index, record)| stored(record, 6 + index as u64)));
        records
    };
    let mut dangling = base();
    dangling.push(stored(posit_record(&posit).unwrap(), 9));
    let error = replay_logical([8; 16], &[dangling]).unwrap_err();
    assert!(error.to_string().contains("unknown Role"), "{}", error.to_string());

    let missing_role_record = Role::new(9, "missing".to_string(), false);
    let mut duplicate = base();
    duplicate.push(stored(role_record(&missing_role_record), 9));
    duplicate.push(stored(posit_record(&posit).unwrap(), 10));
    let mut second = posit_record(&posit).unwrap();
    second.payload[0..8].copy_from_slice(&101u64.to_le_bytes());
    duplicate.push(stored(second, 11));
    let error = replay_logical([8; 16], &[duplicate]).unwrap_err();
    assert!(error.to_string().contains("duplicate Posit proposition"), "{}", error.to_string());

    let posit_role = Role::new(1, "posit".to_string(), true);
    let ascertains_role = Role::new(2, "ascertains".to_string(), true);
    let mut duplicate_role = vec![stored(role_record(&posit_role), 1), stored(role_record(&posit_role), 2)];
    duplicate_role.push(stored(role_record(&ascertains_role), 3));
    duplicate_role.extend(codec_records().into_iter().enumerate().map(|(index, record)| stored(record, 4 + index as u64)));
    let error = replay_logical([8; 16], &[duplicate_role]).unwrap_err();
    assert!(error.to_string().contains("duplicate or conflicting Role"));
}

#[test]
fn logical_replay_rejects_unknown_required_codecs() {
    let mut codecs = codec_records();
    codecs[0].payload[2..4].copy_from_slice(&2u16.to_le_bytes());
    let mut batch = builtin_role_records();
    batch.extend(codecs.into_iter().enumerate().map(|(index, record)| stored(record, 6 + index as u64)));
    let error = replay_logical([9; 16], &[batch]).unwrap_err();
    assert!(error.to_string().contains("unknown required codec"));
}

#[test]
fn logical_replay_rebuilds_roles_and_posits() {
    let value_role = Role::new(6, "value".to_string(), false);
    let appearance_set = AppearanceSet::new(vec![Appearance::new(42, Role::new(6, "value".to_string(), false))]).unwrap();
    let value = LiteralValue::new("+001".to_string(), LiteralFamily::Integer).unwrap();
    let posit = Posit::new(100, appearance_set, value, date(2024, 5, 6));
    let mut batch = builtin_role_records();
    batch.push(stored(role_record(&value_role), 6));
    batch.extend(codec_records().into_iter().enumerate().map(|(index, record)| stored(record, 7 + index as u64)));
    batch.push(stored(posit_record(&posit).unwrap(), 10));
    let replayed = replay_logical([7; 16], &[batch]).unwrap();
    assert_eq!(replayed.store_uuid, [7; 16]);
    assert!(replayed.has_required_codecs);
    assert_eq!(replayed.roles.len(), 3);
    assert_eq!(replayed.posits.len(), 1);
    assert_eq!(replayed.posits[0].identity, 100);
    assert_eq!(replayed.posits[0].appearances, vec![(6, 42)]);
    assert_eq!(replayed.posits[0].value.token(), "+001");
    assert!(replayed.posits[0].time == date(2024, 5, 6));
}

#[test]
fn codecs_are_chosen_by_canonical_form() {
    let value = LiteralValue::new("9223372036854775807".to_string(), LiteralFamily::Integer).unwrap();
    let padded = LiteralValue::new("+001".to_string(), LiteralFamily::Integer).unwrap();
    let certainty = LiteralValue::new("75%".to_string(), LiteralFamily::Certainty).unwrap();
    let padded_certainty = LiteralValue::new("075%".to_string(), LiteralFamily::Certainty).unwrap();
    assert!(select_codec(&value) == BuiltinCodec::CanonicalI64);
    assert!(select_codec(&padded) == BuiltinCodec::RawUtf8);
    assert!(select_codec(&certainty) == BuiltinCodec::CanonicalCertainty);
    assert!(select_codec(&padded_certainty) == BuiltinCodec::RawUtf8);
}

#[test]
fn times_of_every_precision_round_trip() {
    let datetime = CalendarDateTime::new(CalendarDate::new(2024, 5, 6).unwrap(), 7, 8, 9, 123_456_789).unwrap();
    let times = [
        Time::new_beginning_of_time(),
        Time::new_end_of_time(),
        Time::from_time_type(TimeType::Year(2024)),
        Time::from_time_type(TimeType::YearMonth(2024, 5)),
        date(2024, 5, 6),
        Time::from_time_type(TimeType::DateTime(datetime)),
    ];
    for time in times.iter() {
        let mut bytes = Vec::new();
        encode_time(time, &mut bytes);
        let mut cursor = 0;
        let back = decode_time(&bytes, &mut cursor).unwrap();
        assert!(back == *time);
        assert_eq!(cursor, bytes.len());
    }
}

#[test]
fn frames_round_trip_and_detect_corruption() {
    let record = StoredRecord { record_type: RECORD_ROLE, version: 1, flags: 0, sequence: 7, payload: vec![1, 2, 3] };
    let bytes = encode_frame(&record).unwrap();
    let (back, next) = read_frame(&bytes, 0).unwrap();
    assert_eq!(next, bytes.len());
    assert_eq!(back.sequence, 7);
    assert_eq!(back.payload, vec![1, 2, 3]);
    let mut corrupt = bytes.clone();
    let last = corrupt.len() - 1;
    corrupt[last] ^= 0xff;
    assert!(read_frame(&corrupt, 0).is_err());
}

#[test]
fn manifests_round_trip() {
    let manifest = Manifest { store_uuid: [3; 16], committed_length: 4096 };
    let bytes = encode_manifest(&manifest);
    let back = decode_manifest(&bytes).unwrap();
    assert_eq!(back.store_uuid, [3; 16]);
    assert_eq!(back.committed_length, 4096);
    let mut corrupt = bytes.clone();
    corrupt[10] ^= 1;
    assert!(decode_manifest(&corrupt).is_err());
}

#[test]
fn a_writer_closes_after_an_uncertain_write_and_numbers_batches() {
    use_writer_steps();
}

fn use_writer_steps() {
    let state = positorium::storage::WriterState {
        poisoned: false,
        committed_length: 100,
        next_sequence: 7,
        next_batch: 3,
        batch_count: 2,
    };
    assert!(positorium::storage::writer_refusal(&state).is_none());
    let closed = positorium::storage::poison(state);
    assert!(positorium::storage::writer_refusal(&closed).is_some());
    assert_eq!(positorium::storage::length_after(&state, 20).unwrap(), 120);
    assert!(positorium::storage::length_after(&WriterStateAt::full(), 1).is_err());
    let (next, outcome) = positorium::storage::after_commit(state, 120, 4);
    assert!(outcome.is_ok());
    assert_eq!(next.committed_length, 120);
    assert_eq!(next.next_sequence, 12);
    assert_eq!(next.next_batch, 4);
    assert_eq!(next.batch_count, 3);
}

struct WriterStateAt;

impl WriterStateAt {
    fn full() -> positorium::storage::WriterState {
        positorium::storage::WriterState {
            poisoned: false,
            committed_length: u64::MAX,
            next_sequence: 0,
            next_batch: 0,
            batch_count: 0,
        }
    }
}

#[test]
fn logical_records_round_trip_every_literal_family_and_time_precision() {
    let value_role = Role::new(6, "value".to_string(), false);
    let appearance_set = || AppearanceSet::new(vec![Appearance::new(42, Role::new(6, "value".to_string(), false))]).unwrap();
    let values = [
        LiteralValue::new(r#""\u0041""#.to_string(), LiteralFamily::String).unwrap(),
        LiteralValue::new("+001".to_string(), LiteralFamily::Integer).unwrap(),
        LiteralValue::new("01.00".to_string(), LiteralFamily::Decimal).unwrap(),
        LiteralValue::new("075%".to_string(), LiteralFamily::Certainty).unwrap(),
        LiteralValue::new(r#"{ "a": 1.00 }"#.to_string(), LiteralFamily::Json).unwrap(),
        LiteralValue::new("@BOT".to_string(), LiteralFamily::Time).unwrap(),
    ];
    let times = [
        Time::new_beginning_of_time(),
        Time::new_end_of_time(),
        Time::from_time_type(TimeType::Year(2024)),
        Time::from_time_type(TimeType::YearMonth(2024, 5)),
        date(2024, 5, 6),
        Time::from_time_type(TimeType::DateTime(
            CalendarDateTime::new(CalendarDate::new(2024, 5, 6).unwrap(), 7, 8, 9, 123_456_789).unwrap(),
        )),
    ];
    let mut batch = builtin_role_records();
    batch.push(stored(role_record(&value_role), 6));
    batch.extend(codec_records().into_iter().enumerate().map(|(index, record)| stored(record, 7 + index as u64)));
    for index in 0..values.len() {
        let posit = Posit::new(100 + index as u64, appearance_set(), values[index].clone(), times[index]);
        batch.push(stored(posit_record(&posit).unwrap(), 10 + index as u64));
    }
    let replayed = replay_logical([7; 16], &[batch]).unwrap();
    assert_eq!(replayed.store_uuid, [7; 16]);
    assert!(replayed.has_required_codecs);
    // the built-in roles this store knows, plus "value"
    assert_eq!(replayed.roles.len(), 3);
    assert_eq!(replayed.posits.len(), values.len());
    for (index, posit) in replayed.posits.iter().enumerate() {
        assert_eq!(posit.identity, 100 + index as u64);
        assert_eq!(posit.appearances, vec![(6, 42)]);
        assert!(posit.value.exactly_equals(&values[index]));
        assert!(posit.time == times[index]);
    }
}
