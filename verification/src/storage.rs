//! Versioned append-only store format: logical records, their payload
//! codecs, checksummed frames, atomic commit batches and the logical replay
//! that rebuilds Roles and Posits from committed batches.
//!
//! Everything here works on bytes in memory; reading and writing files is
//! left to the caller.

use crate::codec::{
    blob, blob_round_trip, corruption_error, decode_blob, decode_uleb128, encode_blob, encode_text,
    crc32c, crc32c_of, encode_uleb128, i32_le, is_corruption, take_slice, push_i32, push_u16, push_u32, push_u64, take_byte, take_i32,
    take_u16, take_u32, take_u64, u16_le, u32_le, u64_le, uleb128, uleb128_prefix, uleb128_round_trip,
};
use crate::construct::{Appearance, AppearanceSet, Posit, Role, Thing, ASCERTAINS_ROLE_ID, POSIT_ROLE_ID};
use crate::datatype::{
    calendar_date, date_times_equal_by_parts, dates_equal_by_parts, time_of_day, valid_moment,
    CalendarDate, CalendarDateTime, Time, TimeType,
};
use crate::error::DatabaseError;
use crate::literal::{family_identifier, valid_literal, LiteralFamily, LiteralValue};
use crate::text;
use crate::text::{int_text, parse_int_text, push_int};
use crate::unicode::{canonical_text, nfc_text};
use vstd::bytes::*;
use vstd::prelude::*;
use vstd::string::StringExecFns;
use vstd::string::StringSliceAdditionalSpecFns;
use vstd::utf8::{decode_utf8, encode_utf8, valid_utf8};

verus! {

broadcast use vstd::seq_lib::group_seq_properties;

pub const MANIFEST_NAME: &'static str = "manifest.pmf";
pub const MANIFEST_NEXT_NAME: &'static str = "manifest.next";
pub const LOCK_NAME: &'static str = "store.lock";
pub const LOG_NAME: &'static str = "log-0000000000000001.ptl";
pub const FORMAT_MAJOR: u16 = 1;
pub const FORMAT_MINOR: u16 = 0;
pub const MANIFEST_HEADER_LEN: u32 = 48;
pub const LOG_HEADER_LEN: u32 = 64;
pub const MAX_FRAME_SIZE: usize = 16777216;

pub const RECORD_ROLE: u8 = 1;
pub const RECORD_CODEC: u8 = 2;
pub const RECORD_POSIT: u8 = 3;
pub const RECORD_COMMIT: u8 = 255;

/// Decodes UTF-8 with `std::str::from_utf8`.
///
/// Claimed, as the standard library documents: the bytes are accepted exactly
/// when they are valid UTF-8, and then decode to the text they encode.
#[verifier::external_body]
pub fn utf8_text(bytes: &[u8]) -> (r: Option<String>)
    ensures
        r is Some <==> valid_utf8(bytes@),
        r matches Some(s) ==> s@ == decode_utf8(bytes@),
{
    std::str::from_utf8(bytes).ok().map(|text| text.to_string())
}

// ---------------------------------------------------------------------------
// Codecs
// ---------------------------------------------------------------------------

/// The literal payload codecs every v1 store declares.
#[derive(Debug, Clone, Copy, PartialEq, Eq, Structural, Hash)]
pub enum BuiltinCodec {
    RawUtf8,
    CanonicalI64,
    CanonicalCertainty,
}

pub open spec fn codec_identifier(codec: BuiltinCodec) -> u16 {
    match codec {
        BuiltinCodec::RawUtf8 => 0,
        BuiltinCodec::CanonicalI64 => 1,
        BuiltinCodec::CanonicalCertainty => 2,
    }
}

pub open spec fn codec_version(codec: BuiltinCodec) -> u16 {
    1
}

pub open spec fn codec_family(codec: BuiltinCodec) -> u8 {
    match codec {
        BuiltinCodec::RawUtf8 => 0,
        BuiltinCodec::CanonicalI64 => 2,
        BuiltinCodec::CanonicalCertainty => 4,
    }
}

pub open spec fn codec_name(codec: BuiltinCodec) -> Seq<char> {
    match codec {
        BuiltinCodec::RawUtf8 => "raw-utf8-token"@,
        BuiltinCodec::CanonicalI64 => "canonical-i64"@,
        BuiltinCodec::CanonicalCertainty => "canonical-certainty"@,
    }
}

impl BuiltinCodec {
    pub fn identifier(self) -> (id: u16)
        ensures
            id == codec_identifier(self),
    {
        match self {
            Self::RawUtf8 => 0,
            Self::CanonicalI64 => 1,
            Self::CanonicalCertainty => 2,
        }
    }

    pub fn version(self) -> (v: u16)
        ensures
            v == codec_version(self),
    {
        1
    }

    pub fn family(self) -> (f: u8)
        ensures
            f == codec_family(self),
    {
        match self {
            Self::RawUtf8 => 0,
            Self::CanonicalI64 => LiteralFamily::Integer.identifier(),
            Self::CanonicalCertainty => LiteralFamily::Certainty.identifier(),
        }
    }

    pub fn name(self) -> (n: &'static str)
        ensures
            n@ == codec_name(self),
    {
        match self {
            Self::RawUtf8 => "raw-utf8-token",
            Self::CanonicalI64 => "canonical-i64",
            Self::CanonicalCertainty => "canonical-certainty",
        }
    }

    /// The codec with the given identifier and version, if it is built in.
    pub fn from_pair(identifier: u16, version: u16) -> (codec: Option<Self>)
        ensures
            codec matches Some(c) ==> codec_identifier(c) == identifier && codec_version(c)
                == version,
            codec is None ==> forall|c: BuiltinCodec|
                !(codec_identifier(c) == identifier && codec_version(c) == version),
    {
        if version != 1 {
            return None;
        }
        match identifier {
            0 => Some(Self::RawUtf8),
            1 => Some(Self::CanonicalI64),
            2 => Some(Self::CanonicalCertainty),
            _ => None,
        }
    }
}

// ---------------------------------------------------------------------------
// Records
// ---------------------------------------------------------------------------

/// A logical record that waits for a batch to commit it.
#[derive(Debug)]
pub struct PendingRecord {
    pub record_type: u8,
    pub version: u8,
    pub flags: u16,
    pub payload: Vec<u8>,
}

impl PendingRecord {
    /// A version 1 record without flags.
    pub fn new(record_type: u8, payload: Vec<u8>) -> (r: Self)
        ensures
            r.record_type == record_type,
            r.version == 1,
            r.flags == 0,
            r.payload@ == payload@,
    {
        Self { record_type, version: 1, flags: 0, payload }
    }
}

/// A record as committed, with its position in the record sequence.
#[derive(Debug)]
pub struct StoredRecord {
    pub record_type: u8,
    pub version: u8,
    pub flags: u16,
    pub sequence: u64,
    pub payload: Vec<u8>,
}

/// A Role rebuilt by logical replay.
#[derive(Debug)]
pub struct ReplayedRole {
    pub identity: Thing,
    pub name: String,
    pub reserved: bool,
}

/// A Posit rebuilt by logical replay: appearances are (Role, Thing) pairs.
#[derive(Debug)]
pub struct ReplayedPosit {
    pub identity: Thing,
    pub appearances: Vec<(Thing, Thing)>,
    pub value: LiteralValue,
    pub time: Time,
}

/// The logical content of a store.
#[derive(Debug)]
pub struct ReplayedStore {
    pub store_uuid: [u8; 16],
    pub roles: Vec<ReplayedRole>,
    pub posits: Vec<ReplayedPosit>,
    pub has_required_codecs: bool,
}

pub open spec fn flag_byte(flag: bool) -> u8 {
    if flag { 1 } else { 0 }
}

/// A Role payload: identity, reserved flag, UTF-8 name blob.
pub open spec fn role_payload(identity: u64, reserved: bool, name: Seq<u8>) -> Seq<u8> {
    u64_le(identity) + seq![flag_byte(reserved)] + blob(name)
}

/// What a stored Role must satisfy: a non-genesis identity and a non-empty
/// name in canonical (NFC) form.
pub open spec fn role_fields_ok(identity: u64, name: Seq<char>) -> bool {
    identity != 0 && name.len() > 0 && nfc_text(name) == name
}

/// `payload` is the payload of some acceptable Role.
pub open spec fn is_role_payload(payload: Seq<u8>) -> bool {
    exists|identity: u64, reserved: bool, name: Seq<char>|
        role_fields_ok(identity, name) && payload == #[trigger] role_payload(
            identity,
            reserved,
            encode_utf8(name),
        )
}

/// A Codec payload: identifier, version, family, flags and name.
pub open spec fn codec_payload(codec: BuiltinCodec) -> Seq<u8> {
    u16_le(codec_identifier(codec)) + u16_le(codec_version(codec)) + seq![codec_family(codec)]
        + u16_le(0) + blob(encode_utf8(codec_name(codec)))
}

/// The pending Role record for the given parts.
pub fn role_record_parts(identity: Thing, name: &str, reserved: bool) -> (r: PendingRecord)
    ensures
        r.record_type == RECORD_ROLE,
        r.version == 1,
        r.flags == 0,
        r.payload@ == role_payload(identity, reserved, name.spec_bytes()),
{
    let mut payload = Vec::new();
    push_u64(&mut payload, identity);
    payload.push(if reserved { 1u8 } else { 0u8 });
    encode_text(name, &mut payload);
    PendingRecord::new(RECORD_ROLE, payload)
}

/// The pending Codec record that declares `codec`.
pub fn codec_record(codec: BuiltinCodec) -> (r: PendingRecord)
    ensures
        r.record_type == RECORD_CODEC,
        r.version == 1,
        r.flags == 0,
        r.payload@ == codec_payload(codec),
{
    let mut payload = Vec::new();
    push_u16(&mut payload, codec.identifier());
    push_u16(&mut payload, codec.version());
    payload.push(codec.family());
    push_u16(&mut payload, 0);
    encode_text(codec.name(), &mut payload);
    PendingRecord::new(RECORD_CODEC, payload)
}

/// The Codec records of every built-in codec, in identifier order.
pub fn codec_records() -> (r: Vec<PendingRecord>)
    ensures
        r@.len() == 3,
        r@[0].payload@ == codec_payload(BuiltinCodec::RawUtf8),
        r@[1].payload@ == codec_payload(BuiltinCodec::CanonicalI64),
        r@[2].payload@ == codec_payload(BuiltinCodec::CanonicalCertainty),
        forall|i: int| 0 <= i < 3 ==> #[trigger] r@[i].record_type == RECORD_CODEC && r@[i].version
            == 1 && r@[i].flags == 0,
{
    let mut records = Vec::new();
    records.push(codec_record(BuiltinCodec::RawUtf8));
    records.push(codec_record(BuiltinCodec::CanonicalI64));
    records.push(codec_record(BuiltinCodec::CanonicalCertainty));
    records
}

/// The Codec record of the raw token codec, which every store needs.
pub fn raw_codec_record() -> (r: PendingRecord)
    ensures
        r.record_type == RECORD_CODEC,
        r.payload@ == codec_payload(BuiltinCodec::RawUtf8),
{
    codec_record(BuiltinCodec::RawUtf8)
}

/// Reads a length-prefixed UTF-8 text.
pub fn decode_text(bytes: &[u8], cursor: &mut usize) -> (r: Result<String, DatabaseError>)
    requires
        *old(cursor) <= bytes@.len(),
    ensures
        *old(cursor) <= *final(cursor) <= bytes@.len(),
        r matches Ok(t) ==> bytes@.subrange(*old(cursor) as int, *final(cursor) as int) == blob(
            encode_utf8(t@),
        ),
        r is Err ==> is_corruption(r),
        ({
            let rest = bytes@.subrange(*old(cursor) as int, bytes@.len() as int);
            forall|t: Seq<char>, tail: Seq<u8>|
                rest == #[trigger] (blob(encode_utf8(t)) + tail) ==> (r matches Ok(v) && v@ == t
                    && *final(cursor) == *old(cursor) + blob(encode_utf8(t)).len())
        }),
{
    let ghost start = *cursor;
    let ghost rest = bytes@.subrange(start as int, bytes@.len() as int);
    let total = bytes.len();
    assert(rest.len() <= total);
    let encoded = decode_blob(bytes, cursor);
    proof {
        assert forall|t: Seq<char>, tail: Seq<u8>|
            rest == #[trigger] (blob(encode_utf8(t)) + tail) implies encoded matches Ok(v) && v@
                == encode_utf8(t) && *cursor == start + blob(encode_utf8(t)).len() by {
            let e = encode_utf8(t);
            assert(blob(e).len() <= rest.len());
            assert(e.len() <= blob(e).len()) by {
                assert(blob(e) == crate::codec::uleb128(e.len()) + e);
            }
            blob_round_trip(e, tail);
        }
    }
    let encoded = encoded?;
    match utf8_text(encoded) {
        Some(t) => {
            proof {
                vstd::utf8::decode_utf8_encode_utf8(encoded@);
                assert forall|u: Seq<char>, tail: Seq<u8>|
                    rest == #[trigger] (blob(encode_utf8(u)) + tail) implies t@ == u by {
                    vstd::utf8::encode_utf8_decode_utf8(u);
                }
            }
            Ok(t)
        },
        None => {
            proof {
                assert forall|u: Seq<char>, tail: Seq<u8>|
                    rest == #[trigger] (blob(encode_utf8(u)) + tail) implies false by {
                    vstd::utf8::encode_utf8_valid_utf8(u);
                }
            }
            Err(corruption_error(text::text("invalid UTF-8 text")))
        },
    }
}

// ---------------------------------------------------------------------------
// Time codec
// ---------------------------------------------------------------------------

/// A moment whose every part is valid: a real calendar date and a real
/// time of day where it has them.
pub open spec fn persistable_moment(m: TimeType) -> bool {
    match m {
        TimeType::YearMonth(_, month) => 1 <= month <= 12,
        TimeType::Date(d) => calendar_date(d.parts().0, d.parts().1, d.parts().2) && 1 <= d.parts().1
            <= 12 && 1 <= d.parts().2 <= 31,
        TimeType::DateTime(dt) => calendar_date(dt.date_parts().0, dt.date_parts().1, dt.date_parts().2)
            && 1 <= dt.date_parts().1 <= 12 && 1 <= dt.date_parts().2 <= 31 && time_of_day(
            dt.time_parts().0,
            dt.time_parts().1,
            dt.time_parts().2,
            dt.time_parts().3,
        ),
        _ => true,
    }
}

/// The persisted bytes of a moment: a tag, then its parts.
pub open spec fn time_bytes(m: TimeType) -> Seq<u8> {
    match m {
        TimeType::BeginningOfTime => seq![0u8],
        TimeType::EndOfTime => seq![1u8],
        TimeType::Year(y) => seq![2u8] + i32_le(y),
        TimeType::YearMonth(y, month) => seq![3u8] + i32_le(y) + seq![month],
        TimeType::Date(d) => seq![4u8] + i32_le(d.parts().0) + seq![d.parts().1, d.parts().2],
        TimeType::DateTime(dt) => seq![5u8] + i32_le(dt.date_parts().0) + seq![
            dt.date_parts().1,
            dt.date_parts().2,
            dt.time_parts().0,
            dt.time_parts().1,
            dt.time_parts().2,
        ] + u32_le(dt.time_parts().3),
    }
}

/// Appends the persisted bytes of `time`.
pub fn encode_time(time: &Time, target: &mut Vec<u8>)
    ensures
        final(target)@ == old(target)@ + time_bytes(time.moment_spec()),
        persistable_moment(time.moment_spec()),
{
    match time.time_type() {
        TimeType::BeginningOfTime => target.push(0),
        TimeType::EndOfTime => target.push(1),
        TimeType::Year(year) => {
            target.push(2);
            push_i32(target, year);
        },
        TimeType::YearMonth(year, month) => {
            target.push(3);
            push_i32(target, year);
            target.push(month);
        },
        TimeType::Date(date) => {
            let (year, month, day) = date.ymd();
            target.push(4);
            push_i32(target, year);
            target.push(month);
            target.push(day);
        },
        TimeType::DateTime(datetime) => {
            let (year, month, day) = datetime.date().ymd();
            let (hour, minute, second, nanosecond) = datetime.hms_nano();
            target.push(5);
            push_i32(target, year);
            target.push(month);
            target.push(day);
            target.push(hour);
            target.push(minute);
            target.push(second);
            push_u32(target, nanosecond);
        },
    }
    assert(target@ =~= old(target)@ + time_bytes(time.moment_spec()));
}

/// The tag byte of a moment.
pub open spec fn time_tag(m: TimeType) -> u8 {
    match m {
        TimeType::BeginningOfTime => 0,
        TimeType::EndOfTime => 1,
        TimeType::Year(_) => 2,
        TimeType::YearMonth(_, _) => 3,
        TimeType::Date(_) => 4,
        TimeType::DateTime(_) => 5,
    }
}

/// The length of the persisted bytes of a moment.
pub open spec fn time_length(m: TimeType) -> int {
    match m {
        TimeType::BeginningOfTime => 1,
        TimeType::EndOfTime => 1,
        TimeType::Year(_) => 5,
        TimeType::YearMonth(_, _) => 6,
        TimeType::Date(_) => 7,
        TimeType::DateTime(_) => 14,
    }
}

proof fn lemma_time_bytes_shape(m: TimeType)
    ensures
        time_bytes(m)[0] == time_tag(m),
        time_bytes(m).len() == time_length(m),
{
    lemma_auto_spec_u32_to_from_le_bytes();
}

proof fn lemma_i32_bytes(y: i32)
    ensures
        (spec_u32_from_le_bytes(i32_le(y)) as i32) == y,
        i32_le(y).len() == 4,
{
    lemma_auto_spec_u32_to_from_le_bytes();
    let u = y as u32;
    assert((u as i32) == y) by (bit_vector)
        requires
            u == y as u32,
    ;
}

proof fn lemma_u32_bytes(x: u32)
    ensures
        spec_u32_from_le_bytes(u32_le(x)) == x,
        u32_le(x).len() == 4,
{
    lemma_auto_spec_u32_to_from_le_bytes();
    assert(u32_le(x) == spec_u32_to_le_bytes(x));
    assert(spec_u32_from_le_bytes(spec_u32_to_le_bytes(x)) == x);
}

/// Reads a persisted time at `*cursor`.
///
/// Succeeds exactly on the bytes of a persistable moment, and reads back
/// that moment.
pub fn decode_time(payload: &[u8], cursor: &mut usize) -> (r: Result<Time, DatabaseError>)
    requires
        *old(cursor) <= payload@.len(),
    ensures
        *old(cursor) <= *final(cursor) <= payload@.len(),
        r matches Ok(t) ==> persistable_moment(t.moment_spec()) && payload@.subrange(
            *old(cursor) as int,
            *final(cursor) as int,
        ) == time_bytes(t.moment_spec()),
        r is Err ==> is_corruption(r),
        forall|m: TimeType, tail: Seq<u8>|
            persistable_moment(m) && payload@.subrange(*old(cursor) as int, payload@.len() as int)
                == #[trigger] (time_bytes(m) + tail) ==> (r matches Ok(t) && t.moment_spec() == m
                && *final(cursor) == *old(cursor) + time_bytes(m).len()),
{
    let ghost start = *cursor;
    let ghost rest = payload@.subrange(start as int, payload@.len() as int);
    let tag = take_byte(payload, cursor, "time tag")?;
    proof {
        assert forall|m: TimeType, tail: Seq<u8>|
            persistable_moment(m) && rest == #[trigger] (time_bytes(m) + tail) implies time_tag(m)
            == tag && time_bytes(m).len() == time_length(m) && rest.len() >= time_length(m)
            && payload@.len() >= start + time_length(m) by {
            lemma_time_bytes_shape(m);
            assert(rest[0] == payload@[start as int]);
        }
    }
    if tag == 0 {
        let t = Time::from_time_type(TimeType::BeginningOfTime);
        proof {
            assert(payload@.subrange(start as int, *cursor as int) =~= time_bytes(t.moment_spec()));
        }
        return Ok(t);
    }
    if tag == 1 {
        let t = Time::from_time_type(TimeType::EndOfTime);
        proof {
            assert(payload@.subrange(start as int, *cursor as int) =~= time_bytes(t.moment_spec()));
        }
        return Ok(t);
    }
    if tag == 2 || tag == 3 {
        let year = take_i32(payload, cursor, "time year")?;
        let ghost after_year = *cursor;
        if tag == 2 {
            let t = Time::from_time_type(TimeType::Year(year));
            proof {
                assert(payload@.subrange(start as int, *cursor as int) =~= seq![tag] + payload@.subrange(start + 1, *cursor as int));
                assert forall|m: TimeType, tail: Seq<u8>|
                    persistable_moment(m) && rest == #[trigger] (time_bytes(m) + tail) implies t.moment_spec() == m
                    && *cursor == start + time_bytes(m).len() by {
                    if let TimeType::Year(y) = m {
                        lemma_i32_bytes(y);
                        assert(rest.subrange(1, 5) =~= i32_le(y));
                        assert(payload@.subrange(start + 1, start + 5) =~= rest.subrange(1, 5));
                    }
                }
            }
            return Ok(t);
        }
        let month = take_byte(payload, cursor, "time month")?;
        if month < 1 || month > 12 {
            proof {
                assert forall|m: TimeType, tail: Seq<u8>|
                    persistable_moment(m) && rest == #[trigger] (time_bytes(m) + tail) implies false by {
                    if let TimeType::YearMonth(y, mo) = m {
                        lemma_i32_bytes(y);
                        assert(rest[5] == mo);
                        assert(rest[5] == payload@[start + 5]);
                    }
                }
            }
            return Err(corruption_error(text::text("invalid time month")));
        }
        let t = Time::from_time_type(TimeType::YearMonth(year, month));
        proof {
            assert(payload@.subrange(start as int, *cursor as int) =~= seq![tag] + payload@.subrange(start + 1, after_year as int) + seq![month]);
            assert forall|m: TimeType, tail: Seq<u8>|
                persistable_moment(m) && rest == #[trigger] (time_bytes(m) + tail) implies t.moment_spec() == m
                && *cursor == start + time_bytes(m).len() by {
                if let TimeType::YearMonth(y, mo) = m {
                    lemma_i32_bytes(y);
                    assert(rest.subrange(1, 5) =~= i32_le(y));
                    assert(payload@.subrange(start + 1, start + 5) =~= rest.subrange(1, 5));
                    assert(rest[5] == mo);
                    assert(rest[5] == payload@[start + 5]);
                }
            }
        }
        return Ok(t);
    }
    if tag == 4 || tag == 5 {
        let year = take_i32(payload, cursor, "time year")?;
        let month = take_byte(payload, cursor, "time month")?;
        let day = take_byte(payload, cursor, "time day")?;
        let ghost after_date = *cursor;
        proof {
            assert forall|m: TimeType, tail: Seq<u8>|
                persistable_moment(m) && rest == #[trigger] (time_bytes(m) + tail) implies
                (match m {
                    TimeType::Date(d) => d.parts() == (year, month, day),
                    TimeType::DateTime(dt) => dt.date_parts() == (year, month, day),
                    _ => true,
                }) by {
                match m {
                    TimeType::Date(d) => {
                        lemma_i32_bytes(d.parts().0);
                        assert(rest.subrange(1, 5) =~= i32_le(d.parts().0));
                        assert(payload@.subrange(start + 1, start + 5) =~= rest.subrange(1, 5));
                        assert(rest[5] == payload@[start + 5]);
                        assert(rest[6] == payload@[start + 6]);
                    },
                    TimeType::DateTime(dt) => {
                        lemma_i32_bytes(dt.date_parts().0);
                        assert(rest.subrange(1, 5) =~= i32_le(dt.date_parts().0));
                        assert(payload@.subrange(start + 1, start + 5) =~= rest.subrange(1, 5));
                        assert(rest[5] == payload@[start + 5]);
                        assert(rest[6] == payload@[start + 6]);
                    },
                    _ => {},
                }
            }
        }
        let date = match CalendarDate::new(year, month, day) {
            Some(date) => date,
            None => {
                return Err(corruption_error(text::text("invalid persisted calendar date")));
            },
        };
        let (y, mo, d) = date.ymd();
        if tag == 4 {
            let t = Time::from_time_type(TimeType::Date(date));
            proof {
                assert(payload@.subrange(start as int, *cursor as int) =~= seq![tag] + payload@.subrange(start + 1, start + 5) + seq![month, day]);
                assert forall|m: TimeType, tail: Seq<u8>|
                    persistable_moment(m) && rest == #[trigger] (time_bytes(m) + tail) implies t.moment_spec() == m
                    && *cursor == start + time_bytes(m).len() by {
                    if let TimeType::Date(dm) = m {
                        dates_equal_by_parts(dm, date);
                    }
                }
            }
            return Ok(t);
        }
        let hour = take_byte(payload, cursor, "time hour")?;
        let minute = take_byte(payload, cursor, "time minute")?;
        let second = take_byte(payload, cursor, "time second")?;
        let nanosecond = take_u32(payload, cursor, "time nanosecond")?;
        proof {
            assert forall|m: TimeType, tail: Seq<u8>|
                persistable_moment(m) && rest == #[trigger] (time_bytes(m) + tail) implies
                (m matches TimeType::DateTime(dt) ==> dt.time_parts() == (hour, minute, second, nanosecond)) by {
                if let TimeType::DateTime(dt) = m {
                    lemma_u32_bytes(dt.time_parts().3);
                    assert(rest[7] == payload@[start + 7]);
                    assert(rest[8] == payload@[start + 8]);
                    assert(rest[9] == payload@[start + 9]);
                    lemma_i32_bytes(dt.date_parts().0);
                    assert(rest.subrange(10, 14) =~= u32_le(dt.time_parts().3));
                    assert(payload@.subrange(start + 10, start + 14) =~= rest.subrange(10, 14));
                }
            }
        }
        let datetime = match CalendarDateTime::new(date, hour, minute, second, nanosecond) {
            Some(datetime) => datetime,
            None => {
                return Err(corruption_error(text::text("invalid persisted UTC datetime")));
            },
        };
        let t = Time::from_time_type(TimeType::DateTime(datetime));
        proof {
            assert(payload@.subrange(start as int, *cursor as int) =~= seq![tag] + payload@.subrange(start + 1, start + 5) + seq![month, day, hour, minute, second] + payload@.subrange(start + 10, start + 14));
            assert forall|m: TimeType, tail: Seq<u8>|
                persistable_moment(m) && rest == #[trigger] (time_bytes(m) + tail) implies t.moment_spec() == m
                && *cursor == start + time_bytes(m).len() by {
                if let TimeType::DateTime(dm) = m {
                    date_times_equal_by_parts(dm, datetime);
                }
            }
        }
        return Ok(t);
    }
    Err(corruption_error(text::text("unknown time tag")))
}

/// A persisted time reads back as itself, whatever follows it.
pub proof fn time_round_trip(m: TimeType, tail: Seq<u8>)
    requires
        persistable_moment(m),
    ensures
        (time_bytes(m) + tail).subrange(0, time_bytes(m).len() as int) == time_bytes(m),
{
    assert((time_bytes(m) + tail).subrange(0, time_bytes(m).len() as int) =~= time_bytes(m));
}

// ---------------------------------------------------------------------------
// Literal codecs
// ---------------------------------------------------------------------------

/// The zigzag number of a signed integer: non-negative values to even
/// numbers, negative values to odd ones.
pub open spec fn zigzag(v: int) -> int {
    if v >= 0 {
        2 * v
    } else {
        -2 * v - 1
    }
}

fn zigzag_encode(v: i64) -> (z: u64)
    ensures
        z as int == zigzag(v as int),
{
    let z = ((v as u64) << 1u64) ^ ((v >> 63u64) as u64);
    if v >= 0 {
        assert(v >= 0 ==> ((v as u64) << 1u64) ^ ((v >> 63u64) as u64) == 2 * (v as u64)) by (bit_vector);
    } else {
        assert(v < 0 ==> ((v as u64) << 1u64) ^ ((v >> 63u64) as u64) == (-2 * v - 1) as u64) by (bit_vector);
    }
    z
}

fn zigzag_decode(z: u64) -> (v: i64)
    ensures
        zigzag(v as int) == z as int,
{
    let half = (z >> 1u64) as i64;
    if z & 1u64 == 0 {
        assert(z & 1u64 == 0 ==> ((z >> 1u64) as i64) >= 0 && 2 * ((z >> 1u64) as i64) == z) by (bit_vector);
        half
    } else {
        assert(z & 1u64 != 0 ==> (!((z >> 1u64) as i64)) < 0 && -2 * (!((z >> 1u64) as i64)) - 1 == z) by (bit_vector);
        !half
    }
}

/// Zigzag numbering is one to one.
pub proof fn zigzag_injective(a: int, b: int)
    requires
        zigzag(a) == zigzag(b),
    ensures
        a == b,
{
}

/// The text of a canonical certainty: its percentage and a percent sign.
pub open spec fn certainty_text(p: int) -> Seq<char> {
    int_text(p) + seq!['%']
}

/// The codec a literal is stored with: the compact ones for canonical
/// integers and certainties, the raw token otherwise.
pub open spec fn codec_for(token: Seq<char>, family: LiteralFamily) -> BuiltinCodec {
    match family {
        LiteralFamily::Integer => if exists|v: i64| token == #[trigger] int_text(v as int) {
            BuiltinCodec::CanonicalI64
        } else {
            BuiltinCodec::RawUtf8
        },
        LiteralFamily::Certainty => if exists|p: i64|
            -100 <= p <= 100 && token == #[trigger] certainty_text(p as int) {
            BuiltinCodec::CanonicalCertainty
        } else {
            BuiltinCodec::RawUtf8
        },
        _ => BuiltinCodec::RawUtf8,
    }
}

/// The percentage of a canonical certainty token, if it is one.
fn certainty_token(token: &str) -> (r: Option<i64>)
    ensures
        match r {
            Some(p) => -100 <= p <= 100 && token@ == certainty_text(p as int),
            None => forall|p: i64| -100 <= p <= 100 ==> token@ != #[trigger] certainty_text(p as int),
        },
{
    let n = token.unicode_len();
    if n == 0 || token.get_char(n - 1) != '%' {
        proof {
            assert forall|p: i64| -100 <= p <= 100 implies token@ != #[trigger] certainty_text(p as int) by {
                if token@ == certainty_text(p as int) {
                    assert(token@[token@.len() - 1] == '%');
                }
            }
        }
        return None;
    }
    match parse_int_text(token, n - 1) {
        Some(p) => {
            if -100 <= p && p <= 100 {
                assert(token@ =~= token@.subrange(0, n - 1) + seq!['%']);
                Some(p)
            } else {
                proof {
                    assert forall|q: i64| -100 <= q <= 100 implies token@ != #[trigger] certainty_text(q as int) by {
                        if token@ == certainty_text(q as int) {
                            assert(token@.subrange(0, n - 1) =~= int_text(q as int));
                            crate::text::int_text_injective(p as int, q as int);
                        }
                    }
                }
                None
            }
        },
        None => {
            proof {
                assert forall|q: i64| -100 <= q <= 100 implies token@ != #[trigger] certainty_text(q as int) by {
                    if token@ == certainty_text(q as int) {
                        assert(token@.subrange(0, n - 1) =~= int_text(q as int));
                    }
                }
            }
            None
        },
    }
}

/// The codec `value` is stored with.
pub fn select_codec(value: &LiteralValue) -> (codec: BuiltinCodec)
    ensures
        codec == codec_for(value.token_spec(), value.family_spec()),
{
    let token = value.token();
    match value.family() {
        LiteralFamily::Integer => {
            let n = token.unicode_len();
            match parse_int_text(token, n) {
                Some(v) => {
                    assert(token@.subrange(0, n as int) =~= token@);
                    BuiltinCodec::CanonicalI64
                },
                None => {
                    assert(token@.subrange(0, n as int) =~= token@);
                    BuiltinCodec::RawUtf8
                },
            }
        },
        LiteralFamily::Certainty => match certainty_token(token) {
            Some(p) => BuiltinCodec::CanonicalCertainty,
            None => BuiltinCodec::RawUtf8,
        },
        _ => BuiltinCodec::RawUtf8,
    }
}

/// The persisted bytes of a literal token under a codec, where the codec
/// can hold it.
pub open spec fn literal_bytes(token: Seq<char>, codec: BuiltinCodec) -> Option<Seq<u8>> {
    match codec {
        BuiltinCodec::RawUtf8 => Some(encode_utf8(token)),
        BuiltinCodec::CanonicalI64 => if exists|v: i64| token == #[trigger] int_text(v as int) {
            let v = choose|v: i64| token == #[trigger] int_text(v as int);
            Some(uleb128(zigzag(v as int) as nat))
        } else {
            None
        },
        BuiltinCodec::CanonicalCertainty => if exists|p: i64|
            -100 <= p <= 100 && token == #[trigger] certainty_text(p as int) {
            let p = choose|p: i64| -100 <= p <= 100 && token == #[trigger] certainty_text(p as int);
            Some(seq![p as u8])
        } else {
            None
        },
    }
}

/// The persisted bytes of `value` under `codec`.
pub fn encode_literal(value: &LiteralValue, codec: BuiltinCodec) -> (r: Result<Vec<u8>, DatabaseError>)
    ensures
        match literal_bytes(value.token_spec(), codec) {
            Some(b) => r matches Ok(v) && v@ == b,
            None => r matches Err(DatabaseError::Invariant(_)),
        },
{
    let token = value.token();
    match codec {
        BuiltinCodec::RawUtf8 => {
            let bytes = token.as_bytes();
            let mut out: Vec<u8> = Vec::new();
            crate::codec::push_bytes(&mut out, bytes);
            Ok(out)
        },
        BuiltinCodec::CanonicalI64 => {
            let n = token.unicode_len();
            match parse_int_text(token, n) {
                Some(v) => {
                    assert(token@.subrange(0, n as int) =~= token@);
                    proof {
                        let w = choose|w: i64| token@ == #[trigger] int_text(w as int);
                        crate::text::int_text_injective(v as int, w as int);
                    }
                    let mut out: Vec<u8> = Vec::new();
                    encode_uleb128(zigzag_encode(v), &mut out);
                    Ok(out)
                },
                None => {
                    assert(token@.subrange(0, n as int) =~= token@);
                    Err(DatabaseError::Invariant(text::text("canonical integer codec selection failed")))
                },
            }
        },
        BuiltinCodec::CanonicalCertainty => match certainty_token(token) {
            Some(p) => {
                proof {
                    let q = choose|q: i64| -100 <= q <= 100 && token@ == #[trigger] certainty_text(q as int);
                    assert(token@.subrange(0, token@.len() - 1) =~= int_text(p as int));
                    assert(token@.subrange(0, token@.len() - 1) =~= int_text(q as int));
                    crate::text::int_text_injective(p as int, q as int);
                }
                let mut out: Vec<u8> = Vec::new();
                out.push(p as u8);
                Ok(out)
            },
            None => Err(DatabaseError::Invariant(text::text("canonical certainty codec selection failed"))),
        },
    }
}

/// Reads a persisted literal back to its token.
pub fn decode_literal(encoded: &[u8], family: LiteralFamily, codec: BuiltinCodec) -> (r: Result<String, DatabaseError>)
    ensures
        r is Err ==> is_corruption(r),
        codec == BuiltinCodec::RawUtf8 ==> (r is Ok <==> valid_utf8(encoded@)) && (r matches Ok(t)
            ==> t@ == decode_utf8(encoded@)),
        codec == BuiltinCodec::CanonicalI64 ==> (r matches Ok(t) ==> family == LiteralFamily::Integer
            && exists|v: i64| encoded@ == uleb128(zigzag(v as int) as nat) && t@ == #[trigger] int_text(v as int)),
        codec == BuiltinCodec::CanonicalCertainty ==> (r matches Ok(t) ==> family == LiteralFamily::Certainty
            && exists|p: i64| -100 <= p <= 100 && encoded@ == seq![p as u8] && t@ == #[trigger] certainty_text(p as int)),
        forall|v: i64|
            family == LiteralFamily::Integer && codec == BuiltinCodec::CanonicalI64 && encoded@ == #[trigger] uleb128(
                zigzag(v as int) as nat,
            ) ==> (r matches Ok(t) && t@ == int_text(v as int)),
        forall|p: i64|
            -100 <= p <= 100 && family == LiteralFamily::Certainty && codec == BuiltinCodec::CanonicalCertainty
                && encoded@ == seq![#[trigger] (p as u8)] ==> (r matches Ok(t) && t@ == certainty_text(p as int)),
{
    match codec {
        BuiltinCodec::RawUtf8 => match utf8_text(encoded) {
            Some(t) => Ok(t),
            None => Err(corruption_error(text::text("literal payload is not UTF-8"))),
        },
        BuiltinCodec::CanonicalI64 => {
            if family != LiteralFamily::Integer {
                return Err(corruption_error(text::text("Posit codec is incompatible with its literal family")));
            }
            let mut cursor: usize = 0;
            proof {
                assert(encoded@.subrange(0, encoded@.len() as int) =~= encoded@);
                assert forall|v: i64| encoded@ == #[trigger] uleb128(zigzag(v as int) as nat) implies
                    uleb128_prefix(encoded@) == Some(((zigzag(v as int) as u64), encoded@.len())) by {
                    let z = zigzag(v as int) as u64;
                    assert(zigzag(v as int) <= u64::MAX) by {
                        assert(-9223372036854775808 <= v <= 9223372036854775807);
                    }
                    uleb128_round_trip(z, Seq::empty());
                    assert(uleb128(z as nat) + Seq::<u8>::empty() =~= encoded@);
                }
            }
            let z = decode_uleb128(encoded, &mut cursor)?;
            if cursor != encoded.len() {
                proof {
                    assert forall|v: i64| encoded@ != #[trigger] uleb128(zigzag(v as int) as nat) by {}
                }
                return Err(corruption_error(text::text("canonical integer payload has trailing bytes")));
            }
            let v = zigzag_decode(z);
            let mut t = String::new();
            push_int(&mut t, v);
            proof {
                assert(encoded@.subrange(0, cursor as int) =~= encoded@);
                assert forall|w: i64| encoded@ == #[trigger] uleb128(zigzag(w as int) as nat) implies t@ == int_text(w as int) by {
                    zigzag_injective(v as int, w as int);
                }
            }
            Ok(t)
        },
        BuiltinCodec::CanonicalCertainty => {
            if family != LiteralFamily::Certainty {
                return Err(corruption_error(text::text("Posit codec is incompatible with its literal family")));
            }
            if encoded.len() != 1 {
                return Err(corruption_error(text::text("canonical certainty payload must contain one byte")));
            }
            let b = encoded[0];
            let p = b as i8;
            if p < -100 || p > 100 {
                proof {
                    assert forall|q: i64| -100 <= q <= 100 implies encoded@ != seq![#[trigger] (q as u8)] by {
                        if encoded@ == seq![q as u8] {
                            assert(b == q as u8);
                            assert((b as i8) == q) by (bit_vector)
                                requires
                                    b == q as u8,
                                    -100 <= q <= 100,
                            ;
                        }
                    }
                }
                return Err(corruption_error(text::text("canonical certainty payload is outside -100..=100")));
            }
            let mut t = String::new();
            push_int(&mut t, p as i64);
            proof {
                reveal_strlit("%");
            }
            t.append("%");
            proof {
                assert(t@ =~= certainty_text(p as int));
                assert((p as i64) as u8 == b) by (bit_vector)
                    requires
                        p == b as i8,
                ;
                assert(encoded@ =~= seq![(p as i64) as u8]);
                assert forall|q: i64| -100 <= q <= 100 && encoded@ == seq![#[trigger] (q as u8)] implies t@ == certainty_text(q as int) by {
                    assert(encoded@[0] == q as u8);
                    assert((b as i8) == q) by (bit_vector)
                        requires
                            b == q as u8,
                            -100 <= q <= 100,
                    ;
                }
            }
            Ok(t)
        },
    }
}

// ---------------------------------------------------------------------------
// Role and Codec payloads
// ---------------------------------------------------------------------------

proof fn lemma_u64_bytes(x: u64)
    ensures
        spec_u64_from_le_bytes(u64_le(x)) == x,
        u64_le(x).len() == 8,
{
    lemma_auto_spec_u64_to_from_le_bytes();
    assert(u64_le(x) == spec_u64_to_le_bytes(x));
    assert(spec_u64_from_le_bytes(spec_u64_to_le_bytes(x)) == x);
}

proof fn lemma_u16_bytes(x: u16)
    ensures
        spec_u16_from_le_bytes(u16_le(x)) == x,
        u16_le(x).len() == 2,
{
    lemma_auto_spec_u16_to_from_le_bytes();
    assert(u16_le(x) == spec_u16_to_le_bytes(x));
    assert(spec_u16_from_le_bytes(spec_u16_to_le_bytes(x)) == x);
}

/// Reads a Role payload.
///
/// Succeeds exactly on the payload of a Role with a non-genesis identity and
/// a non-empty canonical name, and reads back that Role.
pub fn decode_role(payload: &[u8]) -> (r: Result<ReplayedRole, DatabaseError>)
    ensures
        r matches Ok(role) ==> role_fields_ok(role.identity, role.name@) && payload@ == role_payload(
            role.identity,
            role.reserved,
            encode_utf8(role.name@),
        ),
        r is Err ==> is_corruption(r),
        forall|identity: u64, reserved: bool, name: Seq<char>|
            role_fields_ok(identity, name) && payload@ == #[trigger] role_payload(
                identity,
                reserved,
                encode_utf8(name),
            ) ==> (r matches Ok(role) && role.identity == identity && role.reserved == reserved
                && role.name@ == name),
{
    let mut cursor: usize = 0;
    proof {
        assert forall|identity: u64, reserved: bool, name: Seq<char>|
            role_fields_ok(identity, name) && payload@ == #[trigger] role_payload(identity, reserved, encode_utf8(name))
            implies payload@.len() >= 9 && payload@.subrange(0, 8) == u64_le(identity) && payload@[8] == flag_byte(reserved)
            && payload@.subrange(9, payload@.len() as int) == blob(encode_utf8(name)) + Seq::<u8>::empty() by {
            lemma_u64_bytes(identity);
            assert(payload@.subrange(0, 8) =~= u64_le(identity));
            assert(payload@.subrange(9, payload@.len() as int) =~= blob(encode_utf8(name)) + Seq::<u8>::empty());
        }
    }
    let identity = take_u64(payload, &mut cursor, "Role identity")?;
    proof {
        assert forall|i: u64, reserved: bool, name: Seq<char>|
            role_fields_ok(i, name) && payload@ == #[trigger] role_payload(i, reserved, encode_utf8(name))
            implies i == identity by {
            lemma_u64_bytes(i);
            assert(payload@.subrange(0, 8) =~= u64_le(i));
        }
    }
    if identity == 0 {
        return Err(corruption_error(text::text("Role identity 0 is reserved for genesis")));
    }
    let flag = take_byte(payload, &mut cursor, "Role reserved flag")?;
    let reserved = if flag == 0 {
        false
    } else if flag == 1 {
        true
    } else {
        return Err(corruption_error(text::text("invalid Role reserved flag")));
    };
    let name = decode_text(payload, &mut cursor)?;
    let canonical = canonical_text(name.as_str());
    if name.unicode_len() == 0 || !(canonical == name) || cursor != payload.len() {
        proof {
            assert forall|i: u64, res: bool, nm: Seq<char>|
                role_fields_ok(i, nm) && payload@ == #[trigger] role_payload(i, res, encode_utf8(nm))
                implies false by {
                assert(payload@.subrange(9, payload@.len() as int) == blob(encode_utf8(nm)) + Seq::<u8>::empty());
            }
        }
        return Err(corruption_error(text::text("invalid canonical Role payload")));
    }
    proof {
        assert(payload@.subrange(0, cursor as int) =~= payload@);
        assert(payload@ =~= role_payload(identity, reserved, encode_utf8(name@)));
    }
    Ok(ReplayedRole { identity, name, reserved })
}

/// Reads a Codec payload.
///
/// Succeeds exactly on the payload that declares a built-in codec.
#[verifier::spinoff_prover]
pub fn decode_codec(payload: &[u8]) -> (r: Result<BuiltinCodec, DatabaseError>)
    ensures
        r matches Ok(c) ==> payload@ == codec_payload(c),
        r is Err ==> is_corruption(r),
        forall|c: BuiltinCodec| payload@ == #[trigger] codec_payload(c) ==> r == Ok::<BuiltinCodec, DatabaseError>(c),
{
    let mut cursor: usize = 0;
    proof {
        assert forall|c: BuiltinCodec| payload@ == #[trigger] codec_payload(c) implies
            payload@.len() >= 7 && payload@.subrange(0, 2) == u16_le(codec_identifier(c)) && payload@.subrange(2, 4)
            == u16_le(codec_version(c)) && payload@[4] == codec_family(c) && payload@.subrange(5, 7) == u16_le(0)
            && payload@.subrange(7, payload@.len() as int) == blob(encode_utf8(codec_name(c))) + Seq::<u8>::empty() by {
            lemma_u16_bytes(codec_identifier(c));
            lemma_u16_bytes(codec_version(c));
            lemma_u16_bytes(0);
            assert(payload@.subrange(0, 2) =~= u16_le(codec_identifier(c)));
            assert(payload@.subrange(2, 4) =~= u16_le(codec_version(c)));
            assert(payload@.subrange(5, 7) =~= u16_le(0));
            assert(payload@.subrange(7, payload@.len() as int) =~= blob(encode_utf8(codec_name(c))) + Seq::<u8>::empty());
        }
    }
    let identifier = take_u16(payload, &mut cursor, "codec identifier")?;
    let version = take_u16(payload, &mut cursor, "codec version")?;
    let family = take_byte(payload, &mut cursor, "codec family")?;
    let flags = take_u16(payload, &mut cursor, "codec flags")?;
    let name = decode_text(payload, &mut cursor)?;
    proof {
        assert forall|c: BuiltinCodec| payload@ == #[trigger] codec_payload(c) implies
            codec_identifier(c) == identifier && codec_version(c) == version && codec_family(c) == family
            && flags == 0 && name@ == codec_name(c) && cursor == payload@.len() by {
            lemma_u16_bytes(codec_identifier(c));
            lemma_u16_bytes(codec_version(c));
            lemma_u16_bytes(0);
        }
    }
    let codec = match BuiltinCodec::from_pair(identifier, version) {
        Some(codec) => codec,
        None => {
            return Err(corruption_error(text::text("unknown required codec")));
        },
    };
    let expected = String::from_str(codec.name());
    if family != codec.family() || flags != 0 || !(name == expected) || cursor != payload.len() {
        return Err(corruption_error(text::text("unknown or malformed required codec")));
    }
    proof {
        assert(payload@.subrange(0, cursor as int) =~= payload@);
        assert(payload@ =~= codec_payload(codec));
    }
    Ok(codec)
}

// ---------------------------------------------------------------------------
// Posit payloads
// ---------------------------------------------------------------------------

/// The bytes of (Role, Thing) pairs, each as two little-endian `u64`.
pub open spec fn pairs_bytes(pairs: Seq<(u64, u64)>) -> Seq<u8>
    decreases pairs.len(),
{
    if pairs.len() == 0 {
        Seq::empty()
    } else {
        pairs_bytes(pairs.drop_last()) + u64_le(pairs.last().0) + u64_le(pairs.last().1)
    }
}

/// Appearances as a store keeps them: at least one, no genesis identity,
/// roles strictly increasing.
pub open spec fn canonical_pairs(pairs: Seq<(u64, u64)>) -> bool {
    &&& pairs.len() >= 1
    &&& forall|i: int| 0 <= i < pairs.len() ==> (#[trigger] pairs[i]).0 != 0 && pairs[i].1 != 0
    &&& forall|i: int, j: int| 0 <= i < j < pairs.len() ==> (#[trigger] pairs[i]).0 < (#[trigger] pairs[j]).0
}

/// The literal family and codec of a Posit payload.
pub open spec fn header_bytes(family: LiteralFamily, codec: BuiltinCodec) -> Seq<u8> {
    seq![family_identifier(family)] + u16_le(codec_identifier(codec)) + u16_le(codec_version(codec))
}

/// What follows the appearances in a Posit payload.
pub open spec fn posit_tail(family: LiteralFamily, codec: BuiltinCodec, encoded: Seq<u8>, moment: TimeType) -> Seq<u8> {
    header_bytes(family, codec) + (blob(encoded) + time_bytes(moment))
}

/// A Posit payload: identity, appearance count and pairs, literal family,
/// codec identifier and version, the encoded literal and the time.
#[verifier::opaque]
pub open spec fn posit_payload(
    identity: u64,
    pairs: Seq<(u64, u64)>,
    family: LiteralFamily,
    codec: BuiltinCodec,
    encoded: Seq<u8>,
    moment: TimeType,
) -> Seq<u8> {
    u64_le(identity) + ((uleb128(pairs.len()) + pairs_bytes(pairs)) + posit_tail(family, codec, encoded, moment))
}

proof fn lemma_posit_payload_split(
    payload: Seq<u8>,
    identity: u64,
    pairs: Seq<(u64, u64)>,
    family: LiteralFamily,
    codec: BuiltinCodec,
    encoded: Seq<u8>,
    moment: TimeType,
)
    requires
        payload == posit_payload(identity, pairs, family, codec, encoded, moment),
    ensures
        payload.len() >= 8,
        payload.subrange(0, 8) == u64_le(identity),
        payload.subrange(8, payload.len() as int) == (uleb128(pairs.len()) + pairs_bytes(pairs)) + posit_tail(
            family,
            codec,
            encoded,
            moment,
        ),
{
    reveal(posit_payload);
    lemma_u64_bytes(identity);
    assert(payload.subrange(0, 8) =~= u64_le(identity));
    assert(payload.subrange(8, payload.len() as int) =~= (uleb128(pairs.len()) + pairs_bytes(pairs)) + posit_tail(
        family,
        codec,
        encoded,
        moment,
    ));
}

/// A codec may carry literals of the family.
pub open spec fn codec_fits(codec: BuiltinCodec, family: LiteralFamily) -> bool {
    match codec {
        BuiltinCodec::RawUtf8 => true,
        BuiltinCodec::CanonicalI64 => family == LiteralFamily::Integer,
        BuiltinCodec::CanonicalCertainty => family == LiteralFamily::Certainty,
    }
}

proof fn lemma_pairs_bytes(pairs: Seq<(u64, u64)>, k: int)
    requires
        0 <= k < pairs.len(),
    ensures
        pairs_bytes(pairs).len() == 16 * pairs.len(),
        pairs_bytes(pairs).subrange(16 * k, 16 * k + 8) == u64_le(pairs[k].0),
        pairs_bytes(pairs).subrange(16 * k + 8, 16 * k + 16) == u64_le(pairs[k].1),
    decreases pairs.len(),
{
    lemma_auto_spec_u64_to_from_le_bytes();
    let p = pairs.drop_last();
    lemma_pairs_length(p);
    if k < pairs.len() - 1 {
        lemma_pairs_bytes(p, k);
        assert(pairs_bytes(pairs).subrange(16 * k, 16 * k + 8) =~= pairs_bytes(p).subrange(16 * k, 16 * k + 8));
        assert(pairs_bytes(pairs).subrange(16 * k + 8, 16 * k + 16) =~= pairs_bytes(p).subrange(16 * k + 8, 16 * k + 16));
    } else {
        assert(pairs_bytes(pairs).subrange(16 * k, 16 * k + 8) =~= u64_le(pairs[k].0));
        assert(pairs_bytes(pairs).subrange(16 * k + 8, 16 * k + 16) =~= u64_le(pairs[k].1));
    }
}

proof fn lemma_pairs_length(pairs: Seq<(u64, u64)>)
    ensures
        pairs_bytes(pairs).len() == 16 * pairs.len(),
    decreases pairs.len(),
{
    lemma_auto_spec_u64_to_from_le_bytes();
    if pairs.len() > 0 {
        lemma_pairs_length(pairs.drop_last());
    }
}

/// Orders (Role, Thing) pairs by role; `None` where two share a role.
pub fn order_pairs(pairs: &[(Thing, Thing)]) -> (r: Option<Vec<(Thing, Thing)>>)
    ensures
        r is Some <==> forall|i: int, j: int|
            0 <= i < pairs@.len() && 0 <= j < pairs@.len() && i != j ==> (#[trigger] pairs@[i]).0
                != (#[trigger] pairs@[j]).0,
        r matches Some(out) ==> out@.to_multiset() == pairs@.to_multiset() && forall|i: int, j: int|
            0 <= i < j < out@.len() ==> (#[trigger] out@[i]).0 < (#[trigger] out@[j]).0,
{
    let n = pairs.len();
    let mut out: Vec<(Thing, Thing)> = Vec::new();
    let mut i: usize = 0;
    while i < n
        invariant
            n == pairs@.len(),
            i <= n,
            forall|a: int, b: int| 0 <= a < b < out@.len() ==> (#[trigger] out@[a]).0 < (#[trigger] out@[b]).0,
            out@.to_multiset() == pairs@.subrange(0, i as int).to_multiset(),
            forall|a: int, b: int|
                0 <= a < i && 0 <= b < i && a != b ==> (#[trigger] pairs@[a]).0 != (#[trigger] pairs@[b]).0,
        decreases n - i,
    {
        let x = pairs[i];
        let mut p: usize = 0;
        while p < out.len() && out[p].0 < x.0
            invariant
                p <= out@.len(),
                forall|k: int| 0 <= k < p ==> (#[trigger] out@[k]).0 < x.0,
            decreases out@.len() - p,
        {
            p = p + 1;
        }
        let ghost prefix = pairs@.subrange(0, i as int);
        proof {
            assert forall|y: (Thing, Thing)| #[trigger] out@.contains(y) implies prefix.contains(y) by {
                assert(out@.to_multiset().contains(y));
            }
        }
        if p < out.len() && out[p].0 == x.0 {
            proof {
                let y = out@[p as int];
                assert(out@.contains(y));
                assert(prefix.contains(y));
                let k = choose|k: int| 0 <= k < prefix.len() && prefix[k] == y;
                assert(pairs@[k] == y);
                assert(pairs@[k].0 == pairs@[i as int].0);
            }
            return None;
        }
        proof {
            assert forall|j: int| p <= j < out@.len() implies (#[trigger] out@[j]).0 > x.0 by {
                if j > p {
                    assert(out@[p as int].0 < out@[j].0);
                }
            }
            assert forall|k: int| 0 <= k < i implies (#[trigger] pairs@[k]).0 != x.0 by {
                let y = pairs@[k];
                assert(prefix[k] == y);
                assert(prefix.to_multiset().contains(y));
                assert(out@.contains(y));
                let j = choose|j: int| 0 <= j < out@.len() && out@[j] == y;
                if j < p {
                    assert(out@[j].0 < x.0);
                } else {
                    assert(out@[j].0 > x.0);
                }
            }
            assert(pairs@.subrange(0, i + 1) =~= prefix.push(x));
        }
        out.insert(p, x);
        i = i + 1;
    }
    proof {
        assert(pairs@.subrange(0, n as int) =~= pairs@);
    }
    Some(out)
}

/// The pending Posit record of an identity, its appearances, its value and
/// its time. The appearances are written in role order; two of them may not
/// share a role.
pub fn posit_record_logical(identity: Thing, appearances: &[(Thing, Thing)], value: &LiteralValue, time: &Time) -> (r: Result<PendingRecord, DatabaseError>)
    ensures
        r is Err <==> exists|i: int, j: int|
            0 <= i < appearances@.len() && 0 <= j < appearances@.len() && i != j && (#[trigger] appearances@[i]).0
                == (#[trigger] appearances@[j]).0,
        r matches Err(e) ==> e is InvalidAppearanceSet,
        r matches Ok(record) ==> record.record_type == RECORD_POSIT && record.version == 1 && record.flags == 0
            && exists|sorted: Seq<(u64, u64)>|
            sorted.to_multiset() == appearances@.to_multiset() && (forall|i: int, j: int|
                0 <= i < j < sorted.len() ==> (#[trigger] sorted[i]).0 < (#[trigger] sorted[j]).0) && record.payload@
                == #[trigger] posit_payload(
                identity,
                sorted,
                value.family_spec(),
                codec_for(value.token_spec(), value.family_spec()),
                literal_bytes(value.token_spec(), codec_for(value.token_spec(), value.family_spec()))->0,
                time.moment_spec(),
            ),
        r matches Ok(record) ==> persistable_moment(time.moment_spec()),
{
    let sorted = match order_pairs(appearances) {
        Some(sorted) => sorted,
        None => {
            return Err(DatabaseError::InvalidAppearanceSet(text::text("a persisted appearance set cannot repeat a role")));
        },
    };
    let payload = encode_posit_payload(identity, sorted.as_slice(), value, time);
    Ok(PendingRecord::new(RECORD_POSIT, payload))
}


/// The Posit payload of appearances already in role order.
fn encode_posit_payload(identity: Thing, sorted: &[(Thing, Thing)], value: &LiteralValue, time: &Time) -> (payload: Vec<u8>)
    ensures
        payload@ == posit_payload(
            identity,
            sorted@,
            value.family_spec(),
            codec_for(value.token_spec(), value.family_spec()),
            literal_bytes(value.token_spec(), codec_for(value.token_spec(), value.family_spec()))->0,
            time.moment_spec(),
        ),
        persistable_moment(time.moment_spec()),
{
    let codec = select_codec(value);
    proof {
        lemma_codec_for_encodes(value.token_spec(), value.family_spec());
    }
    let encoded = match encode_literal(value, codec) {
        Ok(encoded) => encoded,
        Err(_) => {
            proof {
                assert(false);
            }
            Vec::new()
        },
    };
    let mut payload: Vec<u8> = Vec::new();
    push_u64(&mut payload, identity);
    encode_uleb128(sorted.len() as u64, &mut payload);
    let ghost before_pairs = payload@;
    let mut k: usize = 0;
    while k < sorted.len()
        invariant
            k <= sorted@.len(),
            payload@ == before_pairs + pairs_bytes(sorted@.subrange(0, k as int)),
        decreases sorted@.len() - k,
    {
        let (role, thing) = sorted[k];
        push_u64(&mut payload, role);
        push_u64(&mut payload, thing);
        proof {
            assert(sorted@.subrange(0, k + 1).drop_last() =~= sorted@.subrange(0, k as int));
            assert(payload@ =~= before_pairs + pairs_bytes(sorted@.subrange(0, k + 1)));
        }
        k = k + 1;
    }
    payload.push(value.family().identifier());
    push_u16(&mut payload, codec.identifier());
    push_u16(&mut payload, codec.version());
    encode_blob(encoded.as_slice(), &mut payload);
    encode_time(time, &mut payload);
    proof {
        assert(sorted@.subrange(0, sorted@.len() as int) =~= sorted@);
        reveal(posit_payload);
        let pp = posit_payload(
            identity,
            sorted@,
            value.family_spec(),
            codec_for(value.token_spec(), value.family_spec()),
            literal_bytes(value.token_spec(), codec_for(value.token_spec(), value.family_spec()))->0,
            time.moment_spec(),
        );
        assert(payload@ =~= pp);
    }
    payload
}

proof fn lemma_codec_for_encodes(token: Seq<char>, family: LiteralFamily)
    ensures
        literal_bytes(token, codec_for(token, family)) is Some,
        codec_fits(codec_for(token, family), family),
{
}

/// `payload` is the record of a posit that a store can hold: a
/// non-genesis identity, canonical appearances, a valid literal under a
/// declared codec that fits its family, and a persistable time.
pub open spec fn posit_form(
    payload: Seq<u8>,
    codecs: Seq<BuiltinCodec>,
    identity: u64,
    pairs: Seq<(u64, u64)>,
    token: Seq<char>,
    family: LiteralFamily,
    codec: BuiltinCodec,
    moment: TimeType,
) -> bool {
    &&& identity != 0
    &&& canonical_pairs(pairs)
    &&& valid_literal(token, family)
    &&& codecs.contains(codec)
    &&& codec_fits(codec, family)
    &&& literal_bytes(token, codec) is Some
    &&& persistable_moment(moment)
    &&& payload == posit_payload(identity, pairs, family, codec, literal_bytes(token, codec)->0, moment)
}

/// How a codec carries a token: `encoded` reads back as `token`.
pub open spec fn literal_decodes(encoded: Seq<u8>, family: LiteralFamily, codec: BuiltinCodec, token: Seq<char>) -> bool {
    match codec {
        BuiltinCodec::RawUtf8 => valid_utf8(encoded) && decode_utf8(encoded) == token,
        BuiltinCodec::CanonicalI64 => family == LiteralFamily::Integer && exists|v: i64|
            encoded == uleb128(zigzag(v as int) as nat) && token == #[trigger] int_text(v as int),
        BuiltinCodec::CanonicalCertainty => family == LiteralFamily::Certainty && exists|p: i64|
            -100 <= p <= 100 && encoded == seq![p as u8] && token == #[trigger] certainty_text(p as int),
    }
}

fn declared(codecs: &[BuiltinCodec], codec: BuiltinCodec) -> (r: bool)
    ensures
        r == codecs@.contains(codec),
{
    let mut i: usize = 0;
    while i < codecs.len()
        invariant
            i <= codecs@.len(),
            forall|k: int| 0 <= k < i ==> codecs@[k] != codec,
        decreases codecs@.len() - i,
    {
        if codecs[i] == codec {
            return true;
        }
        i = i + 1;
    }
    false
}

/// Reads the appearance count and the (Role, Thing) pairs at `*cursor`.
fn decode_appearances(payload: &[u8], cursor: &mut usize) -> (r: Result<Vec<(Thing, Thing)>, DatabaseError>)
    requires
        *old(cursor) <= payload@.len(),
    ensures
        *old(cursor) <= *final(cursor) <= payload@.len(),
        r is Err ==> is_corruption(r),
        r matches Ok(ps) ==> canonical_pairs(ps@) && payload@.subrange(*old(cursor) as int, *final(cursor) as int)
            == uleb128(ps@.len()) + pairs_bytes(ps@),
        forall|pairs: Seq<(u64, u64)>, tail: Seq<u8>|
            canonical_pairs(pairs) && payload@.subrange(*old(cursor) as int, payload@.len() as int)
                == #[trigger] (uleb128(pairs.len()) + pairs_bytes(pairs) + tail) ==> (r matches Ok(ps) && ps@ == pairs
                && *final(cursor) == *old(cursor) + uleb128(pairs.len()).len() + pairs_bytes(pairs).len()),
{
    let total = payload.len();
    let ghost start = *cursor;
    let ghost rest = payload@.subrange(start as int, payload@.len() as int);
    proof {
        assert forall|pairs: Seq<(u64, u64)>, tail: Seq<u8>|
            canonical_pairs(pairs) && rest == #[trigger] (uleb128(pairs.len()) + pairs_bytes(pairs) + tail) implies
            uleb128_prefix(rest) == Some((pairs.len() as u64, uleb128(pairs.len()).len()))
            && start + uleb128(pairs.len()).len() + 16 * pairs.len() <= total by {
            lemma_pairs_length(pairs);
            assert(pairs.len() <= total);
            let after = pairs_bytes(pairs) + tail;
            assert(rest =~= uleb128(pairs.len() as u64 as nat) + after);
            uleb128_round_trip(pairs.len() as u64, after);
        }
    }
    let count = decode_uleb128(payload, cursor)?;
    let pairs_start = *cursor;
    if count == 0 || count > ((total - pairs_start) / 16) as u64 {
        return Err(corruption_error(text::text("appearance count exceeds the remaining Posit payload")));
    }
    let mut appearances: Vec<(Thing, Thing)> = Vec::new();
    let mut k: u64 = 0;
    while k < count
        invariant
            total == payload@.len(),
            start == *old(cursor),
            start <= pairs_start <= total,
            rest == payload@.subrange(start as int, total as int),
            payload@.subrange(start as int, pairs_start as int) == uleb128(count as nat),
            1 <= count,
            pairs_start + 16 * count <= total,
            k <= count,
            *cursor == pairs_start + 16 * k,
            appearances@.len() == k,
            payload@.subrange(pairs_start as int, *cursor as int) == pairs_bytes(appearances@),
            forall|a: int| 0 <= a < k ==> (#[trigger] appearances@[a]).0 != 0 && appearances@[a].1 != 0,
            forall|a: int, b: int| 0 <= a < b < k ==> (#[trigger] appearances@[a]).0 < (#[trigger] appearances@[b]).0,
            forall|pairs: Seq<(u64, u64)>, tail: Seq<u8>|
                canonical_pairs(pairs) && rest == #[trigger] (uleb128(pairs.len()) + pairs_bytes(pairs) + tail) ==>
                pairs.len() == count && appearances@ == pairs.subrange(0, k as int),
        decreases count - k,
    {
        let role = take_u64(payload, cursor, "appearance Role")?;
        let thing = take_u64(payload, cursor, "appearing Thing")?;
        proof {
            assert forall|pairs: Seq<(u64, u64)>, tail: Seq<u8>|
                canonical_pairs(pairs) && rest == #[trigger] (uleb128(pairs.len()) + pairs_bytes(pairs) + tail) implies
                pairs[k as int] == (role, thing) by {
                lemma_pairs_bytes(pairs, k as int);
                lemma_u64_bytes(pairs[k as int].0);
                lemma_u64_bytes(pairs[k as int].1);
                let n = uleb128(pairs.len()).len();
                assert(pairs_start == start + n);
                assert(payload@.subrange(pairs_start + 16 * k, pairs_start + 16 * k + 8) =~= rest.subrange(n + 16 * k, n + 16 * k + 8));
                assert(rest.subrange(n + 16 * k, n + 16 * k + 8) =~= pairs_bytes(pairs).subrange(16 * k, 16 * k + 8));
                assert(payload@.subrange(pairs_start + 16 * k + 8, pairs_start + 16 * k + 16) =~= rest.subrange(n + 16 * k + 8, n + 16 * k + 16));
                assert(rest.subrange(n + 16 * k + 8, n + 16 * k + 16) =~= pairs_bytes(pairs).subrange(16 * k + 8, 16 * k + 16));
            }
        }
        if role == 0 || thing == 0 {
            return Err(corruption_error(text::text("appearance identities cannot use genesis identity 0")));
        }
        if k > 0 && appearances[(k - 1) as usize].0 >= role {
            proof {
                assert forall|pairs: Seq<(u64, u64)>, tail: Seq<u8>|
                    canonical_pairs(pairs) && rest == #[trigger] (uleb128(pairs.len()) + pairs_bytes(pairs) + tail) implies false by {
                    assert(pairs[k - 1] == appearances@[k - 1]);
                    assert(pairs[k - 1].0 < pairs[k as int].0);
                }
            }
            return Err(corruption_error(text::text("Posit appearances are not canonical")));
        }
        let ghost before = appearances@;
        appearances.push((role, thing));
        proof {
            assert(appearances@.drop_last() =~= before);
            assert(payload@.subrange(pairs_start as int, *cursor as int) =~= pairs_bytes(before) + u64_le(role) + u64_le(thing));
            assert forall|pairs: Seq<(u64, u64)>, tail: Seq<u8>|
                canonical_pairs(pairs) && rest == #[trigger] (uleb128(pairs.len()) + pairs_bytes(pairs) + tail) implies
                appearances@ == pairs.subrange(0, k + 1) by {
                assert(appearances@ =~= pairs.subrange(0, k + 1));
            }
        }
        k = k + 1;
    }
    proof {
        assert(payload@.subrange(start as int, *cursor as int) =~= uleb128(count as nat) + pairs_bytes(appearances@));
        assert forall|pairs: Seq<(u64, u64)>, tail: Seq<u8>|
            canonical_pairs(pairs) && rest == #[trigger] (uleb128(pairs.len()) + pairs_bytes(pairs) + tail) implies
            appearances@ == pairs && *cursor == start + uleb128(pairs.len()).len() + pairs_bytes(pairs).len() by {
            assert(appearances@ =~= pairs);
            lemma_pairs_length(pairs);
        }
    }
    Ok(appearances)
}

/// Reads the literal family and the codec at `*cursor`; the codec must be
/// declared already.
fn decode_literal_header(payload: &[u8], cursor: &mut usize, codecs: &[BuiltinCodec]) -> (r: Result<(LiteralFamily, BuiltinCodec), DatabaseError>)
    requires
        *old(cursor) <= payload@.len(),
    ensures
        *old(cursor) <= *final(cursor) <= payload@.len(),
        r is Err ==> is_corruption(r),
        r matches Ok((family, codec)) ==> codecs@.contains(codec) && payload@.subrange(*old(cursor) as int, *final(cursor) as int)
            == header_bytes(family, codec),
        forall|family: LiteralFamily, codec: BuiltinCodec, tail: Seq<u8>|
            codecs@.contains(codec) && payload@.subrange(*old(cursor) as int, payload@.len() as int)
                == #[trigger] (header_bytes(family, codec) + tail)
                ==> (r == Ok::<(LiteralFamily, BuiltinCodec), DatabaseError>((family, codec)) && *final(cursor) == *old(cursor) + 5),
{
    let ghost start = *cursor;
    let ghost rest = payload@.subrange(start as int, payload@.len() as int);
    proof {
        assert forall|family: LiteralFamily, codec: BuiltinCodec, tail: Seq<u8>|
            codecs@.contains(codec) && rest == #[trigger] (header_bytes(family, codec) + tail)
            implies rest.len() >= 5 && rest[0] == family_identifier(family) && rest.subrange(1, 3) == u16_le(codec_identifier(codec))
            && rest.subrange(3, 5) == u16_le(codec_version(codec)) by {
            lemma_u16_bytes(codec_identifier(codec));
            lemma_u16_bytes(codec_version(codec));
            assert(rest.subrange(1, 3) =~= u16_le(codec_identifier(codec)));
            assert(rest.subrange(3, 5) =~= u16_le(codec_version(codec)));
        }
    }
    let family_byte = take_byte(payload, cursor, "literal family")?;
    let family = match LiteralFamily::from_identifier(family_byte) {
        Some(family) => family,
        None => {
            proof {
                assert forall|fam: LiteralFamily, codec: BuiltinCodec, tail: Seq<u8>|
                    codecs@.contains(codec) && rest == #[trigger] (header_bytes(fam, codec) + tail)
                    implies false by {
                    crate::literal::family_identifier_round_trip(fam);
                    assert(rest[0] == payload@[start as int]);
                }
            }
            return Err(corruption_error(text::text("unknown literal family")));
        },
    };
    let codec_id = take_u16(payload, cursor, "codec identifier")?;
    let codec_version_value = take_u16(payload, cursor, "codec version")?;
    proof {
        assert forall|fam: LiteralFamily, codec: BuiltinCodec, tail: Seq<u8>|
            codecs@.contains(codec) && rest == #[trigger] (header_bytes(fam, codec) + tail)
            implies fam == family && codec_identifier(codec) == codec_id && codec_version(codec) == codec_version_value by {
            crate::literal::family_identifier_round_trip(fam);
            assert(rest[0] == payload@[start as int]);
            lemma_u16_bytes(codec_identifier(codec));
            lemma_u16_bytes(codec_version(codec));
            assert(payload@.subrange(start + 1, start + 3) =~= rest.subrange(1, 3));
            assert(payload@.subrange(start + 3, start + 5) =~= rest.subrange(3, 5));
        }
    }
    let codec = match BuiltinCodec::from_pair(codec_id, codec_version_value) {
        Some(codec) => codec,
        None => {
            return Err(corruption_error(text::text("unknown or not-yet-declared Posit codec")));
        },
    };
    if !declared(codecs, codec) {
        return Err(corruption_error(text::text("unknown or not-yet-declared Posit codec")));
    }
    proof {
        assert(payload@.subrange(start as int, *cursor as int) =~= seq![family_byte] + payload@.subrange(start + 1, start + 3) + payload@.subrange(start + 3, start + 5));
    }
    Ok((family, codec))
}

/// Reads the encoded literal at `*cursor` and decodes it to its token.
fn decode_literal_field(payload: &[u8], cursor: &mut usize, family: LiteralFamily, codec: BuiltinCodec) -> (r: Result<String, DatabaseError>)
    requires
        *old(cursor) <= payload@.len(),
    ensures
        *old(cursor) <= *final(cursor) <= payload@.len(),
        r is Err ==> is_corruption(r),
        r matches Ok(t) ==> exists|encoded: Seq<u8>|
            payload@.subrange(*old(cursor) as int, *final(cursor) as int) == #[trigger] blob(encoded)
                && literal_decodes(encoded, family, codec, t@),
        forall|token: Seq<char>, tail: Seq<u8>|
            literal_bytes(token, codec) is Some && codec_fits(codec, family) && payload@.subrange(
                *old(cursor) as int,
                payload@.len() as int,
            ) == #[trigger] (blob(literal_bytes(token, codec)->0) + tail) ==> (r matches Ok(t) && t@ == token
                && *final(cursor) == *old(cursor) + blob(literal_bytes(token, codec)->0).len()),
{
    let total = payload.len();
    let ghost start = *cursor;
    let ghost rest = payload@.subrange(start as int, total as int);
    proof {
        assert forall|token: Seq<char>, tail: Seq<u8>|
            literal_bytes(token, codec) is Some && codec_fits(codec, family) && rest == #[trigger] (blob(literal_bytes(token, codec)->0) + tail)
            implies ({
                let e = literal_bytes(token, codec)->0;
                let n = uleb128(e.len()).len();
                &&& uleb128_prefix(rest) == Some((e.len() as u64, n))
                &&& n + e.len() <= rest.len()
                &&& rest.subrange(n as int, (n + e.len()) as int) == e
            }) by {
            let e = literal_bytes(token, codec)->0;
            assert(e.len() <= blob(e).len()) by {
                assert(blob(e) == uleb128(e.len()) + e);
            }
            assert(rest.len() <= total);
            blob_round_trip(e, tail);
        }
    }
    let encoded = decode_blob(payload, cursor)?;
    proof {
        assert forall|tok: Seq<char>, tail: Seq<u8>|
            literal_bytes(tok, codec) is Some && codec_fits(codec, family) && rest == #[trigger] (blob(literal_bytes(tok, codec)->0) + tail)
            implies encoded@ == literal_bytes(tok, codec)->0 && (codec == BuiltinCodec::RawUtf8 ==> valid_utf8(encoded@)) by {
            if codec == BuiltinCodec::RawUtf8 {
                vstd::utf8::encode_utf8_valid_utf8(tok);
            }
        }
        assert forall|tok: Seq<char>, tail: Seq<u8>|
            literal_bytes(tok, codec) is Some && codec_fits(codec, family) && rest == #[trigger] (blob(literal_bytes(tok, codec)->0) + tail)
            && codec == BuiltinCodec::CanonicalI64 implies exists|v: i64| encoded@ == #[trigger] uleb128(zigzag(v as int) as nat) by {
            let v = choose|v: i64| tok == #[trigger] int_text(v as int);
            assert(encoded@ == uleb128(zigzag(v as int) as nat));
        }
        assert forall|tok: Seq<char>, tail: Seq<u8>|
            literal_bytes(tok, codec) is Some && codec_fits(codec, family) && rest == #[trigger] (blob(literal_bytes(tok, codec)->0) + tail)
            && codec == BuiltinCodec::CanonicalCertainty implies exists|p: i64| -100 <= p <= 100 && encoded@ == seq![#[trigger] (p as u8)] by {
            let p = choose|p: i64| -100 <= p <= 100 && tok == #[trigger] certainty_text(p as int);
            assert(encoded@ == seq![p as u8]);
        }
    }
    let t = decode_literal(encoded, family, codec)?;
    proof {
        assert forall|tok: Seq<char>, tail: Seq<u8>|
            literal_bytes(tok, codec) is Some && codec_fits(codec, family) && rest == #[trigger] (blob(literal_bytes(tok, codec)->0) + tail)
            implies t@ == tok by {
            match codec {
                BuiltinCodec::RawUtf8 => {
                    vstd::utf8::encode_utf8_decode_utf8(tok);
                    vstd::utf8::encode_utf8_valid_utf8(tok);
                },
                BuiltinCodec::CanonicalI64 => {
                    let v = choose|v: i64| tok == #[trigger] int_text(v as int);
                    assert(encoded@ == uleb128(zigzag(v as int) as nat));
                },
                BuiltinCodec::CanonicalCertainty => {
                    let p = choose|p: i64| -100 <= p <= 100 && tok == #[trigger] certainty_text(p as int);
                    assert(encoded@ == seq![p as u8]);
                },
            }
        }
        assert(literal_decodes(encoded@, family, codec, t@));
    }
    Ok(t)
}

/// Reads a Posit payload against the codecs declared so far.
///
/// Succeeds exactly on the record of a posit the store can hold, and reads
/// back its identity, appearances, literal and time.
#[verifier::rlimit(60)]
pub fn decode_posit(payload: &[u8], codecs: &[BuiltinCodec]) -> (r: Result<ReplayedPosit, DatabaseError>)
    ensures
        r is Err ==> is_corruption(r),
        r matches Ok(p) ==> p.identity != 0 && canonical_pairs(p.appearances@) && persistable_moment(
            p.time.moment_spec(),
        ) && exists|codec: BuiltinCodec, encoded: Seq<u8>|
            codecs@.contains(codec) && literal_decodes(encoded, p.value.family_spec(), codec, p.value.token_spec())
                && payload@ == #[trigger] posit_payload(
                p.identity,
                p.appearances@,
                p.value.family_spec(),
                codec,
                encoded,
                p.time.moment_spec(),
            ),
        forall|identity: u64, pairs: Seq<(u64, u64)>, token: Seq<char>, family: LiteralFamily, codec: BuiltinCodec, moment: TimeType|
            #[trigger] posit_form(payload@, codecs@, identity, pairs, token, family, codec, moment) ==> (r matches Ok(p)
                && p.identity == identity && p.appearances@ == pairs && p.value.token_spec() == token
                && p.value.family_spec() == family && p.time.moment_spec() == moment),
{
    let total = payload.len();
    let mut cursor: usize = 0;
    proof {
        assert forall|i: u64, pairs: Seq<(u64, u64)>, token: Seq<char>, family: LiteralFamily, codec: BuiltinCodec, moment: TimeType|
            #[trigger] posit_form(payload@, codecs@, i, pairs, token, family, codec, moment) implies total >= 8 by {
            lemma_posit_payload_split(payload@, i, pairs, family, codec, literal_bytes(token, codec)->0, moment);
        }
    }
    let identity = take_u64(payload, &mut cursor, "Posit identity")?;
    proof {
        assert forall|i: u64, pairs: Seq<(u64, u64)>, token: Seq<char>, family: LiteralFamily, codec: BuiltinCodec, moment: TimeType|
            #[trigger] posit_form(payload@, codecs@, i, pairs, token, family, codec, moment) implies i == identity
            && payload@.subrange(8, total as int) == (uleb128(pairs.len()) + pairs_bytes(pairs)) + posit_tail(family, codec, literal_bytes(token, codec)->0, moment) by {
            lemma_posit_payload_split(payload@, i, pairs, family, codec, literal_bytes(token, codec)->0, moment);
            lemma_u64_bytes(i);
        }
    }
    if identity == 0 {
        return Err(corruption_error(text::text("Posit identity 0 is reserved for genesis")));
    }
    let appearances = decode_appearances(payload, &mut cursor)?;
    let pairs_end = cursor;
    proof {
        assert forall|i: u64, pairs: Seq<(u64, u64)>, token: Seq<char>, family: LiteralFamily, codec: BuiltinCodec, moment: TimeType|
            #[trigger] posit_form(payload@, codecs@, i, pairs, token, family, codec, moment) implies appearances@ == pairs
            && payload@.subrange(pairs_end as int, total as int) == header_bytes(family, codec) + (blob(literal_bytes(token, codec)->0) + time_bytes(moment)) by {
            let t = posit_tail(family, codec, literal_bytes(token, codec)->0, moment);
            let a = uleb128(pairs.len()) + pairs_bytes(pairs);
            let n = a.len();
            assert(payload@.subrange(8, total as int) == a + t);
            assert(appearances@ == pairs);
            assert(pairs_end == 8 + n);
            assert((a + t).subrange(n as int, (a + t).len() as int) =~= t);
            assert(payload@.subrange(pairs_end as int, total as int) =~= payload@.subrange(8, total as int).subrange(n as int, total - 8));
        }
    }
    let (family, codec) = decode_literal_header(payload, &mut cursor, codecs)?;
    let after_header = cursor;
    proof {
        assert forall|i: u64, pairs: Seq<(u64, u64)>, token: Seq<char>, fam: LiteralFamily, c: BuiltinCodec, moment: TimeType|
            #[trigger] posit_form(payload@, codecs@, i, pairs, token, fam, c, moment) implies fam == family && c == codec
            && payload@.subrange(after_header as int, total as int) == blob(literal_bytes(token, c)->0) + time_bytes(moment) by {
            assert(payload@.subrange(after_header as int, total as int) =~= payload@.subrange(pairs_end as int, total as int).subrange(5, total - pairs_end));
        }
    }
    let token = decode_literal_field(payload, &mut cursor, family, codec)?;
    let after_blob = cursor;
    proof {
        assert forall|i: u64, pairs: Seq<(u64, u64)>, tok: Seq<char>, fam: LiteralFamily, c: BuiltinCodec, moment: TimeType|
            #[trigger] posit_form(payload@, codecs@, i, pairs, tok, fam, c, moment) implies token@ == tok
            && payload@.subrange(after_blob as int, total as int) == time_bytes(moment) + Seq::<u8>::empty() by {
            let e = literal_bytes(tok, c)->0;
            assert(payload@.subrange(after_blob as int, total as int) =~= payload@.subrange(after_header as int, total as int).subrange(blob(e).len() as int, total - after_header));
            assert(payload@.subrange(after_blob as int, total as int) =~= time_bytes(moment) + Seq::<u8>::empty());
        }
    }
    let ghost token_text = token@;
    let value = match LiteralValue::new(token, family) {
        Ok(value) => value,
        Err(_) => {
            return Err(corruption_error(text::text("invalid persisted literal")));
        },
    };
    let time = decode_time(payload, &mut cursor)?;
    if cursor != total {
        proof {
            assert forall|i: u64, pairs: Seq<(u64, u64)>, tok: Seq<char>, fam: LiteralFamily, c: BuiltinCodec, moment: TimeType|
                #[trigger] posit_form(payload@, codecs@, i, pairs, tok, fam, c, moment) implies false by {
                lemma_time_bytes_shape(moment);
            }
        }
        return Err(corruption_error(text::text("Posit payload has trailing fields")));
    }
    let p = ReplayedPosit { identity, appearances, value, time };
    proof {
        let encoded = choose|encoded: Seq<u8>| payload@.subrange(after_header as int, after_blob as int) == #[trigger] blob(encoded)
            && literal_decodes(encoded, family, codec, token_text);
        reveal(posit_payload);
        assert(payload@ =~= payload@.subrange(0, 8) + payload@.subrange(8, pairs_end as int)
            + payload@.subrange(pairs_end as int, after_header as int) + payload@.subrange(after_header as int, after_blob as int)
            + payload@.subrange(after_blob as int, cursor as int));
        assert(payload@ =~= posit_payload(p.identity, p.appearances@, p.value.family_spec(), codec, encoded, p.time.moment_spec()));
        assert(literal_decodes(encoded, p.value.family_spec(), codec, p.value.token_spec()));
    }
    Ok(p)
}

// ---------------------------------------------------------------------------
// Record batches
// ---------------------------------------------------------------------------

impl Clone for PendingRecord {
    fn clone(&self) -> (r: Self)
        ensures
            r.record_type == self.record_type,
            r.version == self.version,
            r.flags == self.flags,
            r.payload@ == self.payload@,
    {
        PendingRecord { record_type: self.record_type, version: self.version, flags: self.flags, payload: copy_bytes(&self.payload) }
    }
}

impl Clone for StoredRecord {
    fn clone(&self) -> (r: Self)
        ensures
            r.record_type == self.record_type,
            r.version == self.version,
            r.flags == self.flags,
            r.sequence == self.sequence,
            r.payload@ == self.payload@,
    {
        StoredRecord {
            record_type: self.record_type,
            version: self.version,
            flags: self.flags,
            sequence: self.sequence,
            payload: copy_bytes(&self.payload),
        }
    }
}

fn copy_bytes(bytes: &Vec<u8>) -> (r: Vec<u8>)
    ensures
        r@ == bytes@,
{
    let mut out: Vec<u8> = Vec::new();
    crate::codec::push_bytes(&mut out, bytes.as_slice());
    out
}

/// A pending record the store accepts: a logical record type, version 1,
/// no flags.
pub open spec fn pending_ok(r: PendingRecord) -> bool {
    &&& (r.record_type == RECORD_ROLE || r.record_type == RECORD_CODEC || r.record_type == RECORD_POSIT)
    &&& r.version == 1
    &&& r.flags == 0
}

/// Refuses a batch holding a record the store does not accept.
pub fn validate_pending_records(records: &[PendingRecord]) -> (r: Result<(), DatabaseError>)
    ensures
        r is Ok <==> forall|i: int| 0 <= i < records@.len() ==> pending_ok(#[trigger] records@[i]),
        r matches Err(e) ==> e is Invariant,
{
    let mut i: usize = 0;
    while i < records.len()
        invariant
            i <= records@.len(),
            forall|k: int| 0 <= k < i ==> pending_ok(#[trigger] records@[k]),
        decreases records@.len() - i,
    {
        let record = &records[i];
        if record.record_type != RECORD_ROLE && record.record_type != RECORD_CODEC && record.record_type != RECORD_POSIT {
            return Err(DatabaseError::Invariant(text::text("unsupported pending record type")));
        }
        if record.version != 1 || record.flags != 0 {
            return Err(DatabaseError::Invariant(text::text("unsupported record version/flags")));
        }
        i = i + 1;
    }
    Ok(())
}

/// `stored` is `pending` committed with consecutive sequence numbers from
/// `first`.
pub open spec fn committed_as(pending: Seq<PendingRecord>, stored: Seq<StoredRecord>, first: int) -> bool {
    &&& stored.len() == pending.len()
    &&& forall|i: int|
        0 <= i < stored.len() ==> {
            &&& (#[trigger] stored[i]).record_type == pending[i].record_type
            &&& stored[i].version == pending[i].version
            &&& stored[i].flags == pending[i].flags
            &&& stored[i].payload@ == pending[i].payload@
            &&& stored[i].sequence == first + i
        }
}

/// What a stored record holds: type, version, flags, sequence, payload.
pub open spec fn record_view(r: StoredRecord) -> (u8, u8, u16, u64, Seq<u8>) {
    (r.record_type, r.version, r.flags, r.sequence, r.payload@)
}

/// What a batch of stored records holds.
pub open spec fn batch_view(b: Seq<StoredRecord>) -> Seq<(u8, u8, u16, u64, Seq<u8>)> {
    b.map_values(|r: StoredRecord| record_view(r))
}

/// An in-memory store: committed batches and the next record sequence.
pub struct MemoryStore {
    batches: Vec<Vec<StoredRecord>>,
    next_sequence: u64,
}

impl MemoryStore {
    /// The sequence the next committed record receives.
    pub closed spec fn next(&self) -> u64 {
        self.next_sequence
    }

    /// The committed batches, oldest first.
    pub closed spec fn committed(&self) -> Seq<Seq<(u8, u8, u16, u64, Seq<u8>)>> {
        self.batches@.map_values(|b: Vec<StoredRecord>| batch_view(b@))
    }

    pub fn new() -> (s: Self)
        ensures
            s.next() == 1,
            s.committed() == Seq::<Seq<(u8, u8, u16, u64, Seq<u8>)>>::empty(),
    {
        let s = MemoryStore { batches: Vec::new(), next_sequence: 1 };
        assert(s.committed() =~= Seq::<Seq<(u8, u8, u16, u64, Seq<u8>)>>::empty());
        s
    }

    /// The committed batches, oldest first.
    pub fn replay(&self) -> (batches: &[Vec<StoredRecord>])
        ensures
            batches@.map_values(|b: Vec<StoredRecord>| batch_view(b@)) == self.committed(),
    {
        self.batches.as_slice()
    }

    /// Nothing is buffered in memory: flushing always succeeds.
    pub fn flush(&mut self) -> (r: Result<(), DatabaseError>)
        ensures
            r is Ok,
            final(self).committed() == old(self).committed(),
            final(self).next() == old(self).next(),
    {
        Ok(())
    }

    /// Commits a batch, giving its records consecutive sequence numbers.
    pub fn append_batch(&mut self, records: &[PendingRecord]) -> (r: Result<Vec<StoredRecord>, DatabaseError>)
        ensures
            (forall|i: int| 0 <= i < records@.len() ==> pending_ok(#[trigger] records@[i])) && old(self).next()
                + records@.len() <= u64::MAX ==> (r matches Ok(stored) && committed_as(records@, stored@, old(self).next() as int)
                && final(self).next() == old(self).next() + records@.len()
                && final(self).committed() == old(self).committed().push(batch_view(stored@))),
            r is Err ==> final(self).committed() == old(self).committed(),
            r matches Err(e) ==> e is Invariant,
    {
        validate_pending_records(records)?;
        let mut stored: Vec<StoredRecord> = Vec::new();
        let ghost first = self.next_sequence;
        let mut i: usize = 0;
        while i < records.len()
            invariant
                i <= records@.len(),
                first == old(self).next(),
                self.batches == old(self).batches,
                self.next_sequence == first + i,
                committed_as(records@.subrange(0, i as int), stored@, first as int),
            decreases records@.len() - i,
        {
            let record = &records[i];
            stored.push(StoredRecord {
                record_type: record.record_type,
                version: record.version,
                flags: record.flags,
                sequence: self.next_sequence,
                payload: copy_bytes(&record.payload),
            });
            match self.next_sequence.checked_add(1) {
                Some(next) => {
                    self.next_sequence = next;
                },
                None => {
                    return Err(DatabaseError::Invariant(text::text("record sequence exhausted")));
                },
            }
            proof {
                assert forall|k: int| 0 <= k < stored@.len() implies {
                    &&& (#[trigger] stored@[k]).record_type == records@.subrange(0, i + 1)[k].record_type
                    &&& stored@[k].version == records@.subrange(0, i + 1)[k].version
                    &&& stored@[k].flags == records@.subrange(0, i + 1)[k].flags
                    &&& stored@[k].payload@ == records@.subrange(0, i + 1)[k].payload@
                    &&& stored@[k].sequence == first + k
                } by {
                    if k < i {
                        assert(records@.subrange(0, i + 1)[k] == records@.subrange(0, i as int)[k]);
                    }
                }
            }
            i = i + 1;
        }
        let mut copy: Vec<StoredRecord> = Vec::new();
        let mut j: usize = 0;
        while j < stored.len()
            invariant
                j <= stored@.len(),
                copy@.len() == j,
                forall|k: int| 0 <= k < j ==> {
                    &&& (#[trigger] copy@[k]).record_type == stored@[k].record_type
                    &&& copy@[k].version == stored@[k].version
                    &&& copy@[k].flags == stored@[k].flags
                    &&& copy@[k].payload@ == stored@[k].payload@
                    &&& copy@[k].sequence == stored@[k].sequence
                },
            decreases stored@.len() - j,
        {
            copy.push(stored[j].clone());
            j = j + 1;
        }
        let ghost before = self.batches@;
        self.batches.push(stored);
        proof {
            assert(records@.subrange(0, records@.len() as int) =~= records@);
            assert(batch_view(copy@) =~= batch_view(self.batches@.last()@));
            assert(self.committed() =~= old(self).committed().push(batch_view(self.batches@.last()@)));
        }
        Ok(copy)
    }
}

/// Batches committed one after another never reuse a sequence number: the
/// second batch starts where the first ended.
pub proof fn committed_sequences_increase(
    first_batch: Seq<PendingRecord>,
    first_stored: Seq<StoredRecord>,
    second_batch: Seq<PendingRecord>,
    second_stored: Seq<StoredRecord>,
    start: int,
)
    requires
        committed_as(first_batch, first_stored, start),
        committed_as(second_batch, second_stored, start + first_batch.len()),
    ensures
        forall|i: int, j: int|
            0 <= i < first_stored.len() && 0 <= j < second_stored.len() ==> (#[trigger] first_stored[i]).sequence
                < (#[trigger] second_stored[j]).sequence,
{
}

/// The pending Role record of `role`.
pub fn role_record(role: &Role) -> (r: PendingRecord)
    ensures
        r.record_type == RECORD_ROLE,
        r.version == 1,
        r.flags == 0,
        r.payload@ == role_payload(role.identity(), role.is_reserved(), encode_utf8(role.name_text())),
{
    role_record_parts(role.role(), role.name(), role.reserved())
}

/// The records that start a new store: the built-in `posit` and
/// `ascertains` roles, then the raw codec.
pub fn bootstrap_records() -> (records: Vec<PendingRecord>)
    ensures
        records@.len() == 3,
        records@[0].record_type == RECORD_ROLE && records@[0].payload@ == role_payload(
            POSIT_ROLE_ID,
            true,
            encode_utf8("posit"@),
        ),
        records@[1].record_type == RECORD_ROLE && records@[1].payload@ == role_payload(
            ASCERTAINS_ROLE_ID,
            true,
            encode_utf8("ascertains"@),
        ),
        records@[2].record_type == RECORD_CODEC && records@[2].payload@ == codec_payload(BuiltinCodec::RawUtf8),
{
    proof {
        reveal_strlit("posit");
        reveal_strlit("ascertains");
    }
    let posit = Role::new(POSIT_ROLE_ID, text::text("posit"), true);
    let ascertains = Role::new(ASCERTAINS_ROLE_ID, text::text("ascertains"), true);
    let mut records = Vec::new();
    records.push(role_record(&posit));
    records.push(role_record(&ascertains));
    records.push(raw_codec_record());
    records
}

/// The (Role, Thing) pairs of an appearance set, in its order.
pub open spec fn set_pairs(members: Seq<Appearance>) -> Seq<(u64, u64)> {
    members.map_values(|a: Appearance| (a.role_spec().identity(), a.thing_spec()))
}

/// The pending Posit record of a posit given by its parts.
pub fn posit_record_parts(identity: Thing, appearance_set: &AppearanceSet, value: &LiteralValue, time: &Time) -> (r: Result<PendingRecord, DatabaseError>)
    ensures
        r matches Ok(record) ==> record.record_type == RECORD_POSIT && record.version == 1 && record.flags == 0
            && record.payload@ == posit_payload(
            identity,
            set_pairs(appearance_set.members()),
            value.family_spec(),
            codec_for(value.token_spec(), value.family_spec()),
            literal_bytes(value.token_spec(), codec_for(value.token_spec(), value.family_spec()))->0,
            time.moment_spec(),
        ),
        r is Err ==> r matches Err(DatabaseError::InvalidAppearanceSet(_)),
        r is Ok,
{
    let members = appearance_set.appearances();
    let mut pairs: Vec<(Thing, Thing)> = Vec::new();
    let mut i: usize = 0;
    while i < members.len()
        invariant
            i <= members@.len(),
            members@ == appearance_set.members(),
            pairs@ == set_pairs(members@.subrange(0, i as int)),
        decreases members@.len() - i,
    {
        let role = members[i].role().role();
        pairs.push((role, members[i].thing()));
        proof {
            assert(set_pairs(members@.subrange(0, i + 1)) =~= set_pairs(members@.subrange(0, i as int)).push((role, members@[i as int].thing_spec())));
        }
        i = i + 1;
    }
    proof {
        assert(members@.subrange(0, members@.len() as int) =~= members@);
    }
    let payload = encode_posit_payload(identity, pairs.as_slice(), value, time);
    Ok(PendingRecord::new(RECORD_POSIT, payload))
}

/// The pending Posit record of `posit`.
pub fn posit_record(posit: &Posit) -> (r: Result<PendingRecord, DatabaseError>)
    ensures
        r matches Ok(record) ==> record.record_type == RECORD_POSIT && record.payload@ == posit_payload(
            posit.identity(),
            set_pairs(posit.members()),
            posit.value_family(),
            codec_for(posit.value_token(), posit.value_family()),
            literal_bytes(posit.value_token(), codec_for(posit.value_token(), posit.value_family()))->0,
            posit.time_spec().moment_spec(),
        ),
        r is Ok,
{
    let set = posit.appearance_set();
    posit_record_parts(posit.posit(), &set, posit.value(), posit.time())
}

// ---------------------------------------------------------------------------
// Frames
// ---------------------------------------------------------------------------

/// The sync word that opens every frame: `PTR1`.
pub open spec fn frame_magic() -> Seq<u8> {
    seq![80u8, 84u8, 82u8, 49u8]
}

/// A frame without its checksum.
pub open spec fn frame_body(version: u8, record_type: u8, flags: u16, sequence: u64, payload: Seq<u8>) -> Seq<u8> {
    frame_magic() + seq![version, record_type] + u16_le(flags) + u64_le(sequence) + uleb128(payload.len()) + payload
}

/// A frame: its body and the CRC-32C of the body.
pub open spec fn frame_bytes(version: u8, record_type: u8, flags: u16, sequence: u64, payload: Seq<u8>) -> Seq<u8> {
    frame_body(version, record_type, flags, sequence, payload) + u32_le(
        crc32c_of(frame_body(version, record_type, flags, sequence, payload)),
    )
}

/// The frame of a stored record.
pub open spec fn record_frame(r: StoredRecord) -> Seq<u8> {
    frame_bytes(r.version, r.record_type, r.flags, r.sequence, r.payload@)
}

proof fn lemma_frame_shape(version: u8, record_type: u8, flags: u16, sequence: u64, payload: Seq<u8>)
    ensures
        frame_body(version, record_type, flags, sequence, payload).len() == 16 + uleb128(payload.len()).len() + payload.len(),
        frame_bytes(version, record_type, flags, sequence, payload).len() == 20 + uleb128(payload.len()).len() + payload.len(),
        frame_bytes(version, record_type, flags, sequence, payload).subrange(0, 4) == frame_magic(),
        frame_bytes(version, record_type, flags, sequence, payload)[4] == version,
        frame_bytes(version, record_type, flags, sequence, payload)[5] == record_type,
        frame_bytes(version, record_type, flags, sequence, payload).subrange(6, 8) == u16_le(flags),
        frame_bytes(version, record_type, flags, sequence, payload).subrange(8, 16) == u64_le(sequence),
        frame_bytes(version, record_type, flags, sequence, payload).subrange(
            16,
            frame_bytes(version, record_type, flags, sequence, payload).len() as int,
        ) == uleb128(payload.len()) + payload + u32_le(crc32c_of(frame_body(version, record_type, flags, sequence, payload))),
{
    lemma_auto_spec_u64_to_from_le_bytes();
    lemma_auto_spec_u16_to_from_le_bytes();
    lemma_auto_spec_u32_to_from_le_bytes();
    let f = frame_bytes(version, record_type, flags, sequence, payload);
    assert(f.subrange(0, 4) =~= frame_magic());
    assert(f.subrange(6, 8) =~= u16_le(flags));
    assert(f.subrange(8, 16) =~= u64_le(sequence));
    assert(f.subrange(16, f.len() as int) =~= uleb128(payload.len()) + payload + u32_le(crc32c_of(frame_body(version, record_type, flags, sequence, payload))));
}

/// The frame of `record`; refused when it would exceed the frame size
/// limit.
pub fn encode_frame(record: &StoredRecord) -> (r: Result<Vec<u8>, DatabaseError>)
    ensures
        r is Ok <==> record_frame(*record).len() <= MAX_FRAME_SIZE,
        r matches Ok(b) ==> b@ == record_frame(*record),
        r matches Err(e) ==> e is Persistence,
{
    proof {
        lemma_frame_shape(record.version, record.record_type, record.flags, record.sequence, record.payload@);
        crate::codec::lemma_uleb128_shape(record.payload@.len());
    }
    let mut bytes: Vec<u8> = Vec::new();
    bytes.push(80);
    bytes.push(84);
    bytes.push(82);
    bytes.push(49);
    bytes.push(record.version);
    bytes.push(record.record_type);
    push_u16(&mut bytes, record.flags);
    push_u64(&mut bytes, record.sequence);
    encode_uleb128(record.payload.len() as u64, &mut bytes);
    if record.payload.len() > MAX_FRAME_SIZE || bytes.len() + record.payload.len() + 4 > MAX_FRAME_SIZE {
        return Err(DatabaseError::Persistence(text::text("record frame exceeds the maximum frame size")));
    }
    crate::codec::push_bytes(&mut bytes, record.payload.as_slice());
    let checksum = crc32c(bytes.as_slice());
    proof {
        assert(bytes@ =~= frame_body(record.version, record.record_type, record.flags, record.sequence, record.payload@));
    }
    push_u32(&mut bytes, checksum);
    Ok(bytes)
}

/// Reads the frame at `offset`.
///
/// Succeeds exactly on a version 1 frame without flags, within the frame
/// size limit, whose checksum matches.
#[verifier::rlimit(60)]
#[verifier::spinoff_prover]
pub fn read_frame(bytes: &[u8], offset: usize) -> (r: Result<(StoredRecord, usize), DatabaseError>)
    requires
        offset <= bytes@.len(),
    ensures
        r is Err ==> is_corruption(r),
        r matches Ok((record, next)) ==> offset < next <= bytes@.len() && bytes@.subrange(offset as int, next as int)
            == record_frame(record) && record.version == 1 && record.flags == 0 && record_frame(record).len()
            <= MAX_FRAME_SIZE,
        forall|record_type: u8, sequence: u64, payload: Seq<u8>, tail: Seq<u8>|
            frame_bytes(1, record_type, 0, sequence, payload).len() <= MAX_FRAME_SIZE && bytes@.subrange(
                offset as int,
                bytes@.len() as int,
            ) == #[trigger] (frame_bytes(1, record_type, 0, sequence, payload) + tail) ==> (r matches Ok((record, next))
                && record.record_type == record_type && record.sequence == sequence && record.payload@ == payload
                && next == offset + frame_bytes(1, record_type, 0, sequence, payload).len()),
{
    let total = bytes.len();
    let ghost rest = bytes@.subrange(offset as int, total as int);
    proof {
        assert forall|t: u8, q: u64, pl: Seq<u8>, tail: Seq<u8>|
            frame_bytes(1, t, 0, q, pl).len() <= MAX_FRAME_SIZE && rest == #[trigger] (frame_bytes(1, t, 0, q, pl) + tail)
            implies rest.len() >= 20 && rest.subrange(0, 4) == frame_magic() && rest[4] == 1 && rest[5] == t
            && rest.subrange(6, 8) == u16_le(0) && rest.subrange(8, 16) == u64_le(q) by {
            lemma_frame_shape(1, t, 0, q, pl);
            let f = frame_bytes(1, t, 0, q, pl);
            assert(rest.subrange(0, 4) =~= f.subrange(0, 4));
            assert(rest.subrange(6, 8) =~= f.subrange(6, 8));
            assert(rest.subrange(8, 16) =~= f.subrange(8, 16));
        }
    }
    if total - offset < 16 {
        return Err(corruption_error(text::text("truncated frame")));
    }
    if bytes[offset] != 80 || bytes[offset + 1] != 84 || bytes[offset + 2] != 82 || bytes[offset + 3] != 49 {
        proof {
            assert forall|t: u8, q: u64, pl: Seq<u8>, tail: Seq<u8>|
                frame_bytes(1, t, 0, q, pl).len() <= MAX_FRAME_SIZE && rest == #[trigger] (frame_bytes(1, t, 0, q, pl) + tail)
                implies false by {
                assert(rest.subrange(0, 4)[0] == bytes@[offset as int]);
                assert(rest.subrange(0, 4)[1] == bytes@[offset + 1]);
                assert(rest.subrange(0, 4)[2] == bytes@[offset + 2]);
                assert(rest.subrange(0, 4)[3] == bytes@[offset + 3]);
            }
        }
        return Err(corruption_error(text::text("record sync word mismatch")));
    }
    let mut cursor = offset + 4;
    let version = take_byte(bytes, &mut cursor, "frame version")?;
    let record_type = take_byte(bytes, &mut cursor, "record type")?;
    let flags = take_u16(bytes, &mut cursor, "frame flags")?;
    let sequence = take_u64(bytes, &mut cursor, "record sequence")?;
    proof {
        assert forall|t: u8, q: u64, pl: Seq<u8>, tail: Seq<u8>|
            frame_bytes(1, t, 0, q, pl).len() <= MAX_FRAME_SIZE && rest == #[trigger] (frame_bytes(1, t, 0, q, pl) + tail)
            implies version == 1 && record_type == t && flags == 0 && sequence == q by {
            lemma_u16_bytes(0);
            lemma_u64_bytes(q);
            assert(rest[4] == bytes@[offset + 4]);
            assert(rest[5] == bytes@[offset + 5]);
            assert(bytes@.subrange(offset + 6, offset + 8) =~= rest.subrange(6, 8));
            assert(bytes@.subrange(offset + 8, offset + 16) =~= rest.subrange(8, 16));
        }
    }
    if version != 1 || flags != 0 {
        return Err(corruption_error(text::text("unsupported frame version/flags")));
    }
    let ghost after_head = cursor;
    proof {
        assert forall|t: u8, q: u64, pl: Seq<u8>, tail: Seq<u8>|
            frame_bytes(1, t, 0, q, pl).len() <= MAX_FRAME_SIZE && rest == #[trigger] (frame_bytes(1, t, 0, q, pl) + tail)
            implies uleb128_prefix(bytes@.subrange(after_head as int, total as int)) == Some((pl.len() as u64, uleb128(pl.len()).len()))
            && pl.len() <= u64::MAX by {
            lemma_frame_shape(1, t, 0, q, pl);
            let after = pl + u32_le(crc32c_of(frame_body(1, t, 0, q, pl))) + tail;
            let f = frame_bytes(1, t, 0, q, pl);
            assert(pl.len() <= total);
            assert(rest.subrange(16, rest.len() as int) =~= f.subrange(16, f.len() as int) + tail);
            assert(bytes@.subrange(after_head as int, total as int) =~= rest.subrange(16, rest.len() as int));
            assert(bytes@.subrange(after_head as int, total as int) =~= uleb128(pl.len() as u64 as nat) + after);
            uleb128_round_trip(pl.len() as u64, after);
        }
    }
    let length = decode_uleb128(bytes, &mut cursor)?;
    proof {
        uleb128_round_trip(length, Seq::empty());
    }
    let head_length = cursor - offset;
    if length > (MAX_FRAME_SIZE - 4) as u64 || head_length + (length as usize) + 4 > MAX_FRAME_SIZE
        || (length as usize) > total - cursor || total - cursor - (length as usize) < 4 {
        proof {
            assert forall|t: u8, q: u64, pl: Seq<u8>, tail: Seq<u8>|
                frame_bytes(1, t, 0, q, pl).len() <= MAX_FRAME_SIZE && rest == #[trigger] (frame_bytes(1, t, 0, q, pl) + tail)
                implies false by {
                lemma_frame_shape(1, t, 0, q, pl);
            }
        }
        return Err(corruption_error(text::text("invalid frame length")));
    }
    let payload_start = cursor;
    let payload_slice = take_slice(bytes, &mut cursor, length as usize, "record payload")?;
    let mut payload: Vec<u8> = Vec::new();
    crate::codec::push_bytes(&mut payload, payload_slice);
    let body_end = cursor;
    let stored_checksum = take_u32(bytes, &mut cursor, "record checksum")?;
    let computed = crc32c(&bytes[offset..body_end]);
    proof {
        assert(bytes@.subrange(offset as int, body_end as int) =~= frame_body(version, record_type, flags, sequence, payload@)) by {
            assert(bytes@.subrange(offset as int, offset + 4) =~= frame_magic());
        }
        assert forall|t: u8, q: u64, pl: Seq<u8>, tail: Seq<u8>|
            frame_bytes(1, t, 0, q, pl).len() <= MAX_FRAME_SIZE && rest == #[trigger] (frame_bytes(1, t, 0, q, pl) + tail)
            implies pl == payload@ && stored_checksum == crc32c_of(frame_body(1, t, 0, q, pl)) by {
            lemma_frame_shape(1, t, 0, q, pl);
            lemma_u32_bytes(crc32c_of(frame_body(1, t, 0, q, pl)));
            let n: int = uleb128(pl.len()).len() as int;
            let m: int = pl.len() as int;
            assert(payload@ =~= rest.subrange(16 + n, 16 + n + m));
            assert(rest.subrange(16 + n, 16 + n + m) =~= pl);
            assert(bytes@.subrange(body_end as int, body_end + 4) =~= rest.subrange(16 + n + m, 20 + n + m));
            assert(rest.subrange(16 + n + m, 20 + n + m) =~= u32_le(crc32c_of(frame_body(1, t, 0, q, pl))));
        }
    }
    if computed != stored_checksum {
        return Err(corruption_error(text::text("record checksum mismatch")));
    }
    let record = StoredRecord { record_type, version, flags, sequence, payload };
    proof {
        assert(bytes@.subrange(offset as int, cursor as int) =~= record_frame(record));
    }
    Ok((record, cursor))
}

// ---------------------------------------------------------------------------
// Commits and batches
// ---------------------------------------------------------------------------

/// The payload of a Commit record: batch number, first and last record
/// sequence of the batch, and its record count.
pub open spec fn commit_payload(batch: u64, first: u64, last: u64, count: nat) -> Seq<u8> {
    u64_le(batch) + u64_le(first) + u64_le(last) + uleb128(count)
}

/// The first sequence of a staged batch, 0 when it is empty.
pub open spec fn first_sequence(staged: Seq<StoredRecord>) -> u64 {
    if staged.len() == 0 {
        0
    } else {
        staged[0].sequence
    }
}

/// The last sequence of a staged batch, 0 when it is empty.
pub open spec fn last_sequence(staged: Seq<StoredRecord>) -> u64 {
    if staged.len() == 0 {
        0
    } else {
        staged.last().sequence
    }
}

/// Checks that a Commit record closes the staged records as batch
/// `expected_batch`.
pub fn validate_commit(commit: &StoredRecord, expected_batch: u64, staged: &[StoredRecord]) -> (r: Result<(), DatabaseError>)
    ensures
        r is Ok <==> commit.payload@ == commit_payload(
            expected_batch,
            first_sequence(staged@),
            last_sequence(staged@),
            staged@.len(),
        ),
        r is Err ==> is_corruption(r),
{
    let payload = commit.payload.as_slice();
    let total = payload.len();
    let staged_count = staged.len();
    let ghost expected = commit_payload(expected_batch, first_sequence(staged@), last_sequence(staged@), staged@.len());
    proof {
        lemma_u64_bytes(expected_batch);
        lemma_u64_bytes(first_sequence(staged@));
        lemma_u64_bytes(last_sequence(staged@));
        if payload@ == expected {
            assert(payload@.subrange(0, 8) =~= u64_le(expected_batch));
            assert(payload@.subrange(8, 16) =~= u64_le(first_sequence(staged@)));
            assert(payload@.subrange(16, 24) =~= u64_le(last_sequence(staged@)));
            assert(payload@.subrange(24, total as int) =~= uleb128(staged@.len()) + Seq::<u8>::empty());
            assert(staged@.len() <= u64::MAX);
            uleb128_round_trip(staged@.len() as u64, Seq::empty());
        }
    }
    let mut cursor: usize = 0;
    let batch = take_u64(payload, &mut cursor, "commit batch")?;
    let first = take_u64(payload, &mut cursor, "commit first sequence")?;
    let last = take_u64(payload, &mut cursor, "commit last sequence")?;
    let count = decode_uleb128(payload, &mut cursor)?;
    let expected_first: u64 = if staged.len() == 0 { 0 } else { staged[0].sequence };
    let expected_last: u64 = if staged.len() == 0 { 0 } else { staged[staged.len() - 1].sequence };
    if cursor != total || batch != expected_batch || first != expected_first || last != expected_last
        || count != staged.len() as u64 {
        return Err(corruption_error(text::text("invalid Commit: batch/range/count")));
    }
    proof {
        assert(payload@.subrange(0, cursor as int) =~= payload@);
        assert(payload@ =~= expected);
    }
    Ok(())
}

/// The frames of a sequence of records, one after another.
pub open spec fn frames(records: Seq<StoredRecord>) -> Seq<u8>
    decreases records.len(),
{
    if records.len() == 0 {
        Seq::empty()
    } else {
        frames(records.drop_last()) + record_frame(records.last())
    }
}

/// A batch as logged: its records' frames and then its Commit frame.
pub open spec fn batch_bytes(batch: u64, staged: Seq<StoredRecord>, commit_sequence: u64) -> Seq<u8> {
    frames(staged) + frame_bytes(
        1,
        RECORD_COMMIT,
        0,
        commit_sequence,
        commit_payload(batch, first_sequence(staged), last_sequence(staged), staged.len()),
    )
}

/// Frames the records of a batch and its Commit, numbering records from
/// `next_sequence` and the batch as `next_batch`; returns the stored
/// records and the bytes to append.
pub fn frame_batch(records: &[PendingRecord], next_sequence: u64, next_batch: u64) -> (r: Result<(Vec<StoredRecord>, Vec<u8>), DatabaseError>)
    ensures
        r matches Ok((stored, framed)) ==> committed_as(records@, stored@, next_sequence as int) && framed@
            == batch_bytes(next_batch, stored@, (next_sequence + records@.len()) as u64) && next_sequence
            + records@.len() <= u64::MAX,
        (forall|i: int| 0 <= i < records@.len() ==> pending_ok(#[trigger] records@[i])) ==> (r matches Err(e) ==> (e is Persistence || e is Invariant)),
        !(forall|i: int| 0 <= i < records@.len() ==> pending_ok(#[trigger] records@[i])) ==> r matches Err(DatabaseError::Invariant(_)),
{
    validate_pending_records(records)?;
    let mut sequence = next_sequence;
    let mut framed: Vec<u8> = Vec::new();
    let mut stored: Vec<StoredRecord> = Vec::new();
    let mut i: usize = 0;
    while i < records.len()
        invariant
            i <= records@.len(),
            forall|k: int| 0 <= k < records@.len() ==> pending_ok(#[trigger] records@[k]),
            sequence == next_sequence + i,
            committed_as(records@.subrange(0, i as int), stored@, next_sequence as int),
            framed@ == frames(stored@),
        decreases records@.len() - i,
    {
        let record = &records[i];
        let stored_record = StoredRecord {
            record_type: record.record_type,
            version: record.version,
            flags: record.flags,
            sequence,
            payload: copy_bytes(&record.payload),
        };
        let frame = encode_frame(&stored_record)?;
        crate::codec::push_bytes(&mut framed, frame.as_slice());
        let ghost before = stored@;
        stored.push(stored_record);
        proof {
            assert(stored@.drop_last() =~= before);
            assert forall|k: int| 0 <= k < stored@.len() implies {
                &&& (#[trigger] stored@[k]).record_type == records@.subrange(0, i + 1)[k].record_type
                &&& stored@[k].version == records@.subrange(0, i + 1)[k].version
                &&& stored@[k].flags == records@.subrange(0, i + 1)[k].flags
                &&& stored@[k].payload@ == records@.subrange(0, i + 1)[k].payload@
                &&& stored@[k].sequence == next_sequence + k
            } by {
                if k < i {
                    assert(records@.subrange(0, i + 1)[k] == records@.subrange(0, i as int)[k]);
                }
            }
        }
        sequence = match sequence.checked_add(1) {
            Some(next) => next,
            None => {
                return Err(DatabaseError::Invariant(text::text("record sequence exhausted")));
            },
        };
        i = i + 1;
    }
    proof {
        assert(records@.subrange(0, records@.len() as int) =~= records@);
    }
    let first: u64 = if stored.len() == 0 { 0 } else { stored[0].sequence };
    let last: u64 = if stored.len() == 0 { 0 } else { stored[stored.len() - 1].sequence };
    let mut commit_payload_bytes: Vec<u8> = Vec::new();
    push_u64(&mut commit_payload_bytes, next_batch);
    push_u64(&mut commit_payload_bytes, first);
    push_u64(&mut commit_payload_bytes, last);
    encode_uleb128(records.len() as u64, &mut commit_payload_bytes);
    let commit = StoredRecord {
        record_type: RECORD_COMMIT,
        version: 1,
        flags: 0,
        sequence,
        payload: commit_payload_bytes,
    };
    let commit_frame = encode_frame(&commit)?;
    crate::codec::push_bytes(&mut framed, commit_frame.as_slice());
    proof {
        assert(commit.payload@ =~= commit_payload(next_batch, first_sequence(stored@), last_sequence(stored@), stored@.len()));
    }
    Ok((stored, framed))
}

// ---------------------------------------------------------------------------
// Scanning the committed log
// ---------------------------------------------------------------------------

/// Where replay of a log leaves the writer.
#[derive(Debug, Clone, Copy, PartialEq, Eq, Structural)]
pub struct ReplayMetadata {
    pub next_sequence: u64,
    pub next_batch: u64,
    pub batch_count: usize,
}

/// The record sequences a run of batches uses: each record and each Commit
/// takes one.
pub open spec fn sequence_count(batches: Seq<Seq<StoredRecord>>) -> nat
    decreases batches.len(),
{
    if batches.len() == 0 {
        0
    } else {
        sequence_count(batches.drop_last()) + batches.last().len() + 1
    }
}

/// The bytes of committed batches after the log header; batch numbers
/// count from 1 and sequences from 1.
pub open spec fn logged(batches: Seq<Seq<StoredRecord>>) -> Seq<u8>
    decreases batches.len(),
{
    if batches.len() == 0 {
        Seq::empty()
    } else {
        logged(batches.drop_last()) + batch_bytes(
            batches.len() as u64,
            batches.last(),
            (1 + sequence_count(batches.drop_last()) + batches.last().len()) as u64,
        )
    }
}

/// The records of a batch: logical types, version 1, no flags, and
/// consecutive sequences from `first`.
pub open spec fn batch_records_ok(batch: Seq<StoredRecord>, first: nat) -> bool {
    forall|i: int|
        0 <= i < batch.len() ==> {
            &&& ((#[trigger] batch[i]).record_type == RECORD_ROLE || batch[i].record_type == RECORD_CODEC
                || batch[i].record_type == RECORD_POSIT)
            &&& batch[i].version == 1
            &&& batch[i].flags == 0
            &&& batch[i].sequence == first + i
        }
}

/// Every batch is well formed where it stands in the log.
pub open spec fn batches_ok(batches: Seq<Seq<StoredRecord>>) -> bool {
    forall|k: int|
        0 <= k < batches.len() ==> batch_records_ok(
            #[trigger] batches[k],
            1 + sequence_count(batches.subrange(0, k)),
        )
}

/// The batches held by a vector of vectors.
pub open spec fn batches_of(v: Seq<Vec<StoredRecord>>) -> Seq<Seq<StoredRecord>> {
    v.map_values(|b: Vec<StoredRecord>| b@)
}

/// Reads every committed batch of a log whose committed content is `log`.
///
/// What it returns is exactly what the log holds after its header.
#[verifier::rlimit(60)]
pub fn scan_committed(log: &[u8]) -> (r: Result<(Vec<Vec<StoredRecord>>, ReplayMetadata), DatabaseError>)
    requires
        log@.len() >= LOG_HEADER_LEN,
    ensures
        r matches Ok((batches, meta)) ==> {
            &&& log@.subrange(LOG_HEADER_LEN as int, log@.len() as int) == logged(batches_of(batches@))
            &&& batches_ok(batches_of(batches@))
            &&& meta.next_sequence == 1 + sequence_count(batches_of(batches@))
            &&& meta.next_batch == batches@.len() + 1
            &&& meta.batch_count == batches@.len()
        },
        r matches Err(e) ==> (e is DataCorruption || e is Invariant),
{
    let total = log.len();
    let mut offset: usize = 64;
    let mut expected_sequence: u64 = 1;
    let mut expected_batch: u64 = 1;
    let mut batch_count: usize = 0;
    let mut done: Vec<Vec<StoredRecord>> = Vec::new();
    let mut staged: Vec<StoredRecord> = Vec::new();
    proof {
        assert(log@.subrange(64, 64) =~= logged(batches_of(done@)) + frames(staged@));
    }
    while offset < total
        invariant
            total == log@.len(),
            64 <= offset <= total,
            log@.subrange(64, offset as int) == logged(batches_of(done@)) + frames(staged@),
            batches_ok(batches_of(done@)),
            batch_records_ok(staged@, 1 + sequence_count(batches_of(done@))),
            expected_sequence == 1 + sequence_count(batches_of(done@)) + staged@.len(),
            expected_batch == done@.len() + 1,
            batch_count == done@.len(),
        decreases total - offset,
    {
        let (record, next) = read_frame(log, offset)?;
        if record.sequence != expected_sequence {
            return Err(corruption_error(text::text("record sequence gap")));
        }
        let following = match expected_sequence.checked_add(1) {
            Some(following) => following,
            None => {
                return Err(DatabaseError::Invariant(text::text("record sequence exhausted")));
            },
        };
        let ghost before_done = batches_of(done@);
        let ghost before_staged = staged@;
        if record.record_type == RECORD_ROLE || record.record_type == RECORD_CODEC || record.record_type == RECORD_POSIT {
            staged.push(record);
            proof {
                assert(staged@.drop_last() =~= before_staged);
                assert(log@.subrange(64, next as int) =~= log@.subrange(64, offset as int) + log@.subrange(offset as int, next as int));
                assert(frames(staged@) == frames(before_staged) + record_frame(staged@.last()));
                assert(batch_records_ok(staged@, 1 + sequence_count(before_done))) by {
                    assert forall|i: int| 0 <= i < staged@.len() implies {
                        &&& ((#[trigger] staged@[i]).record_type == RECORD_ROLE || staged@[i].record_type == RECORD_CODEC
                            || staged@[i].record_type == RECORD_POSIT)
                        &&& staged@[i].version == 1
                        &&& staged@[i].flags == 0
                        &&& staged@[i].sequence == 1 + sequence_count(before_done) + i
                    } by {
                        if i < before_staged.len() {
                            assert(staged@[i] == before_staged[i]);
                        }
                    }
                }
            }
        } else if record.record_type == RECORD_COMMIT {
            validate_commit(&record, expected_batch, staged.as_slice())?;
            let next_count = match batch_count.checked_add(1) {
                Some(c) => c,
                None => {
                    return Err(DatabaseError::Invariant(text::text("batch count exhausted")));
                },
            };
            let next_batch_number = match expected_batch.checked_add(1) {
                Some(b) => b,
                None => {
                    return Err(DatabaseError::Invariant(text::text("batch sequence exhausted")));
                },
            };
            let mut closed: Vec<StoredRecord> = Vec::new();
            std::mem::swap(&mut closed, &mut staged);
            done.push(closed);
            batch_count = next_count;
            expected_batch = next_batch_number;
            proof {
                let now = batches_of(done@);
                assert(now.drop_last() =~= before_done);
                assert(now.last() == before_staged);
                assert(staged@ =~= Seq::<StoredRecord>::empty());
                assert(frames(staged@) =~= Seq::<u8>::empty());
                assert(sequence_count(now) == sequence_count(before_done) + before_staged.len() + 1);
                assert(log@.subrange(64, next as int) =~= log@.subrange(64, offset as int) + log@.subrange(offset as int, next as int));
                assert(logged(now) == logged(before_done) + batch_bytes(now.len() as u64, before_staged,
                    (1 + sequence_count(before_done) + before_staged.len()) as u64));
                assert(log@.subrange(64, next as int) =~= logged(now) + frames(staged@));
                assert forall|k: int| 0 <= k < now.len() implies batch_records_ok(#[trigger] now[k], 1 + sequence_count(now.subrange(0, k))) by {
                    if k < now.len() - 1 {
                        assert(now.subrange(0, k) =~= before_done.subrange(0, k));
                        assert(now[k] == before_done[k]);
                    } else {
                        assert(now.subrange(0, k) =~= before_done);
                    }
                }
            }
        } else {
            return Err(corruption_error(text::text("unknown mandatory record type")));
        }
        expected_sequence = following;
        offset = next;
    }
    if offset != total || staged.len() != 0 {
        return Err(corruption_error(text::text("manifest committed length ends outside a Commit frame")));
    }
    proof {
        assert(frames(staged@) =~= Seq::<u8>::empty());
        assert(log@.subrange(64, total as int) =~= logged(batches_of(done@)));
    }
    Ok((done, ReplayMetadata { next_sequence: expected_sequence, next_batch: expected_batch, batch_count }))
}

// ---------------------------------------------------------------------------
// Logical replay
// ---------------------------------------------------------------------------

/// A role as replayed: identity, name, reserved flag.
pub open spec fn role_view(r: ReplayedRole) -> (u64, Seq<char>, bool) {
    (r.identity, r.name@, r.reserved)
}

/// What makes a posit the same proposition: appearances, token and time.
pub open spec fn proposition_of(p: ReplayedPosit) -> (Seq<(u64, u64)>, Seq<char>, TimeType) {
    (p.appearances@, p.value.token_spec(), p.time.moment_spec())
}

/// What logical replay has rebuilt so far: the roles, the posits, the
/// declared codecs and the identities in use, each in record order.
pub type ReplayState = (Seq<ReplayedRole>, Seq<ReplayedPosit>, Seq<BuiltinCodec>, Seq<Thing>);

/// The state before any record.
pub open spec fn empty_replay() -> ReplayState {
    (Seq::empty(), Seq::empty(), Seq::empty(), Seq::empty())
}

/// `p` is what a posit payload reads as, under the declared `codecs`.
pub open spec fn posit_read(payload: Seq<u8>, codecs: Seq<BuiltinCodec>, p: ReplayedPosit) -> bool {
    &&& p.identity != 0
    &&& canonical_pairs(p.appearances@)
    &&& persistable_moment(p.time.moment_spec())
    &&& exists|codec: BuiltinCodec, encoded: Seq<u8>|
        codecs.contains(codec) && literal_decodes(encoded, p.value.family_spec(), codec, p.value.token_spec())
            && payload == #[trigger] posit_payload(
            p.identity,
            p.appearances@,
            p.value.family_spec(),
            codec,
            encoded,
            p.time.moment_spec(),
        )
}

/// A posit may join the state: its identity is new, its roles are known and
/// no kept posit states the same proposition.
pub open spec fn posit_admitted(s: ReplayState, p: ReplayedPosit) -> bool {
    &&& !s.3.contains(p.identity)
    &&& roles_known(s.0, p.appearances@)
    &&& forall|i: int| 0 <= i < s.1.len() ==> proposition_of(#[trigger] s.1[i]) != proposition_of(p)
}

/// One committed record takes the state `s` to `t`.
pub open spec fn replay_step(s: ReplayState, record: StoredRecord, t: ReplayState) -> bool {
    if record.record_type == RECORD_ROLE {
        exists|role: ReplayedRole|
            role_fields_ok(role.identity, role.name@) && record.payload@ == #[trigger] role_payload(
                role.identity,
                role.reserved,
                encode_utf8(role.name@),
            ) && role_is_fresh(s.0, s.3, role.identity, role.name@) && t == (s.0.push(role), s.1, s.2, s.3.push(
                role.identity,
            ))
    } else if record.record_type == RECORD_CODEC {
        exists|c: BuiltinCodec|
            record.payload@ == #[trigger] codec_payload(c) && !s.2.contains(c) && t == (s.0, s.1, s.2.push(c), s.3)
    } else if record.record_type == RECORD_POSIT {
        exists|p: ReplayedPosit|
            #[trigger] posit_read(record.payload@, s.2, p) && posit_admitted(s, p) && t == (s.0, s.1.push(p), s.2, s.3.push(
                p.identity,
            ))
    } else {
        false
    }
}

/// The record is one that `s` accepts: a fresh role, a new codec, or a posit
/// in its canonical encoding whose identity is new, whose roles are known
/// and whose proposition is not yet kept.
pub open spec fn replay_admits(s: ReplayState, record: StoredRecord) -> bool {
    if record.record_type == RECORD_ROLE {
        exists|identity: u64, reserved: bool, name: Seq<char>|
            role_fields_ok(identity, name) && record.payload@ == #[trigger] role_payload(
                identity,
                reserved,
                encode_utf8(name),
            ) && role_is_fresh(s.0, s.3, identity, name)
    } else if record.record_type == RECORD_CODEC {
        exists|c: BuiltinCodec| record.payload@ == #[trigger] codec_payload(c) && !s.2.contains(c)
    } else if record.record_type == RECORD_POSIT {
        exists|
            identity: u64,
            pairs: Seq<(u64, u64)>,
            token: Seq<char>,
            family: LiteralFamily,
            codec: BuiltinCodec,
            moment: TimeType,
        |
            #[trigger] posit_form(record.payload@, s.2, identity, pairs, token, family, codec, moment)
                && !s.3.contains(identity) && roles_known(s.0, pairs) && forall|i: int|
                0 <= i < s.1.len() ==> #[trigger] proposition_of(s.1[i]) != (pairs, token, moment)
    } else {
        false
    }
}

/// `states` is a run of replay over `records`: it starts in `s`, and each
/// record takes the state before it to the state after it.
pub open spec fn replay_run(s: ReplayState, records: Seq<StoredRecord>, states: Seq<ReplayState>) -> bool {
    &&& states.len() == records.len() + 1
    &&& states[0] == s
    &&& forall|i: int| 0 <= i < records.len() ==> replay_step(#[trigger] states[i], records[i], states[i + 1])
}

/// Replaying `records` from `s` can end in `t`, each record taking one step.
pub open spec fn replays(s: ReplayState, records: Seq<StoredRecord>, t: ReplayState) -> bool {
    exists|states: Seq<ReplayState>| #[trigger] replay_run(s, records, states) && states.last() == t
}

/// The records of the batches, one batch after another.
pub open spec fn batch_records(batches: Seq<Vec<StoredRecord>>) -> Seq<StoredRecord>
    decreases batches.len(),
{
    if batches.len() == 0 {
        Seq::empty()
    } else {
        batch_records(batches.drop_last()) + batches.last()@
    }
}

/// The store that finishing the state `t` gives: a store that holds anything
/// must hold the reserved built-in roles and declare every mandatory codec.
pub open spec fn finish_outcome(t: ReplayState, uuid: [u8; 16], r: Result<ReplayedStore, DatabaseError>) -> bool {
    let used = t.0.len() > 0 || t.1.len() > 0 || t.2.len() > 0;
    let required = t.2.contains(BuiltinCodec::RawUtf8) && t.2.contains(BuiltinCodec::CanonicalI64) && t.2.contains(
        BuiltinCodec::CanonicalCertainty,
    );
    let builtins = (exists|i: int|
        0 <= i < t.0.len() && (#[trigger] t.0[i]).identity == POSIT_ROLE_ID && t.0[i].name@ == "posit"@
            && t.0[i].reserved) && (exists|i: int|
        0 <= i < t.0.len() && (#[trigger] t.0[i]).identity == ASCERTAINS_ROLE_ID && t.0[i].name@ == "ascertains"@
            && t.0[i].reserved);
    &&& r is Ok <==> (!used || (builtins && required))
    &&& r matches Ok(store) ==> store.store_uuid == uuid && store.roles@ == t.0 && store.posits@ == t.1
        && store.has_required_codecs == required
    &&& r is Err ==> is_corruption(r)
}

/// The logical content rebuilt so far from committed records.
pub struct LogicalReplay {
    store_uuid: [u8; 16],
    roles: Vec<ReplayedRole>,
    posits: Vec<ReplayedPosit>,
    codecs: Vec<BuiltinCodec>,
    identities: Vec<Thing>,
}

/// `identity` names no construct yet and `name` no role.
pub open spec fn role_is_fresh(roles: Seq<ReplayedRole>, identities: Seq<Thing>, identity: u64, name: Seq<char>) -> bool {
    &&& !identities.contains(identity)
    &&& forall|i: int| 0 <= i < roles.len() ==> (#[trigger] roles[i]).identity != identity && roles[i].name@ != name
}

/// `role` is the identity of a replayed role.
pub open spec fn role_listed(roles: Seq<ReplayedRole>, role: u64) -> bool {
    exists|i: int| 0 <= i < roles.len() && (#[trigger] roles[i]).identity == role
}

/// Every role of the appearances is a replayed role.
pub open spec fn roles_known(roles: Seq<ReplayedRole>, pairs: Seq<(u64, u64)>) -> bool {
    forall|k: int| 0 <= k < pairs.len() ==> role_listed(roles, (#[trigger] pairs[k]).0)
}

impl LogicalReplay {
    pub closed spec fn roles_spec(&self) -> Seq<ReplayedRole> {
        self.roles@
    }

    pub closed spec fn posits_spec(&self) -> Seq<ReplayedPosit> {
        self.posits@
    }

    pub closed spec fn codecs_spec(&self) -> Seq<BuiltinCodec> {
        self.codecs@
    }

    pub closed spec fn identities_spec(&self) -> Seq<Thing> {
        self.identities@
    }

    pub closed spec fn uuid(&self) -> [u8; 16] {
        self.store_uuid
    }

    /// The rebuilt content.
    pub open spec fn state(&self) -> ReplayState {
        (self.roles_spec(), self.posits_spec(), self.codecs_spec(), self.identities_spec())
    }

    pub fn new(store_uuid: [u8; 16]) -> (r: Self)
        ensures
            r.uuid() == store_uuid,
            r.roles_spec().len() == 0,
            r.posits_spec().len() == 0,
            r.codecs_spec().len() == 0,
            r.identities_spec().len() == 0,
    {
        LogicalReplay { store_uuid, roles: Vec::new(), posits: Vec::new(), codecs: Vec::new(), identities: Vec::new() }
    }

    fn has_identity(&self, identity: Thing) -> (r: bool)
        ensures
            r == self.identities@.contains(identity),
    {
        let mut i: usize = 0;
        while i < self.identities.len()
            invariant
                i <= self.identities@.len(),
                forall|k: int| 0 <= k < i ==> self.identities@[k] != identity,
            decreases self.identities@.len() - i,
        {
            if self.identities[i] == identity {
                return true;
            }
            i = i + 1;
        }
        false
    }

    fn role_conflicts(&self, identity: Thing, name: &String) -> (r: bool)
        ensures
            r == !(forall|i: int| 0 <= i < self.roles@.len() ==> (#[trigger] self.roles@[i]).identity != identity
                && self.roles@[i].name@ != name@),
    {
        let mut i: usize = 0;
        while i < self.roles.len()
            invariant
                i <= self.roles@.len(),
                forall|k: int| 0 <= k < i ==> (#[trigger] self.roles@[k]).identity != identity && self.roles@[k].name@ != name@,
            decreases self.roles@.len() - i,
        {
            if self.roles[i].identity == identity || self.roles[i].name == *name {
                return true;
            }
            i = i + 1;
        }
        false
    }

    fn role_known(&self, role: Thing) -> (r: bool)
        ensures
            r == role_listed(self.roles@, role),
    {
        let mut i: usize = 0;
        while i < self.roles.len()
            invariant
                i <= self.roles@.len(),
                forall|k: int| 0 <= k < i ==> (#[trigger] self.roles@[k]).identity != role,
            decreases self.roles@.len() - i,
        {
            if self.roles[i].identity == role {
                return true;
            }
            i = i + 1;
        }
        false
    }

    fn codec_declared(&self, codec: BuiltinCodec) -> (r: bool)
        ensures
            r == self.codecs@.contains(codec),
    {
        declared(self.codecs.as_slice(), codec)
    }

    fn proposition_kept(&self, posit: &ReplayedPosit) -> (r: bool)
        ensures
            r == exists|i: int| 0 <= i < self.posits@.len() && proposition_of(#[trigger] self.posits@[i]) == proposition_of(*posit),
    {
        let mut i: usize = 0;
        while i < self.posits.len()
            invariant
                i <= self.posits@.len(),
                forall|k: int| 0 <= k < i ==> proposition_of(#[trigger] self.posits@[k]) != proposition_of(*posit),
            decreases self.posits@.len() - i,
        {
            let other = &self.posits[i];
            if pairs_equal(&other.appearances, &posit.appearances) && other.value.exactly_equals(&posit.value)
                && other.time == posit.time {
                return true;
            }
            proof {
                if other.time.moment_spec() == posit.time.moment_spec() {
                    crate::datatype::times_equal_by_moment(other.time, posit.time);
                }
                assert(proposition_of(self.posits@[i as int]) != proposition_of(*posit));
            }
            i = i + 1;
        }
        false
    }

    /// Applies one committed logical record.
    pub fn apply_record(&mut self, record: &StoredRecord) -> (r: Result<(), DatabaseError>)
        ensures
            final(self).uuid() == old(self).uuid(),
            r is Ok ==> replay_step(old(self).state(), *record, final(self).state()),
            replay_admits(old(self).state(), *record) ==> r is Ok,
            r is Err ==> is_corruption(r) && final(self).roles_spec() == old(self).roles_spec()
                && final(self).posits_spec() == old(self).posits_spec() && final(self).codecs_spec()
                == old(self).codecs_spec() && final(self).identities_spec() == old(self).identities_spec(),
            record.record_type != RECORD_ROLE && record.record_type != RECORD_CODEC && record.record_type
                != RECORD_POSIT ==> r is Err,
            record.record_type == RECORD_ROLE ==> {
                &&& r is Ok ==> exists|role: ReplayedRole|
                    role_fields_ok(role.identity, role.name@) && record.payload@ == role_payload(
                        role.identity,
                        role.reserved,
                        encode_utf8(role.name@),
                    ) && role_is_fresh(old(self).roles_spec(), old(self).identities_spec(), role.identity, role.name@)
                        && final(self).roles_spec() == old(self).roles_spec().push(role)
                        && final(self).identities_spec() == old(self).identities_spec().push(role.identity)
                        && final(self).posits_spec() == old(self).posits_spec()
                        && final(self).codecs_spec() == old(self).codecs_spec()
                &&& forall|identity: u64, reserved: bool, name: Seq<char>|
                    role_fields_ok(identity, name) && record.payload@ == #[trigger] role_payload(
                        identity,
                        reserved,
                        encode_utf8(name),
                    ) && role_is_fresh(old(self).roles_spec(), old(self).identities_spec(), identity, name) ==> r is Ok
            },
            record.record_type == RECORD_CODEC ==> {
                &&& r is Ok ==> exists|c: BuiltinCodec|
                    record.payload@ == codec_payload(c) && !old(self).codecs_spec().contains(c)
                        && final(self).codecs_spec() == old(self).codecs_spec().push(c)
                        && final(self).roles_spec() == old(self).roles_spec()
                        && final(self).posits_spec() == old(self).posits_spec()
                        && final(self).identities_spec() == old(self).identities_spec()
                &&& forall|c: BuiltinCodec|
                    record.payload@ == #[trigger] codec_payload(c) && !old(self).codecs_spec().contains(c) ==> r is Ok
            },
            record.record_type == RECORD_POSIT ==> {
                &&& r is Ok ==> exists|p: ReplayedPosit|
                    !old(self).identities_spec().contains(p.identity) && roles_known(old(self).roles_spec(), p.appearances@)
                        && (forall|i: int| 0 <= i < old(self).posits_spec().len() ==> proposition_of(#[trigger] old(self).posits_spec()[i]) != proposition_of(p))
                        && final(self).posits_spec() == old(self).posits_spec().push(p)
                        && final(self).identities_spec() == old(self).identities_spec().push(p.identity)
                        && final(self).roles_spec() == old(self).roles_spec()
                        && final(self).codecs_spec() == old(self).codecs_spec()
                        && p.identity != 0 && canonical_pairs(p.appearances@)
            },
    {
        if record.record_type == RECORD_ROLE {
            let role = match decode_role(record.payload.as_slice()) {
                Ok(role) => role,
                Err(e) => {
                    return Err(e);
                },
            };
            if self.role_conflicts(role.identity, &role.name) || self.has_identity(role.identity) {
                return Err(corruption_error(text::text("duplicate or conflicting Role record")));
            }
            let identity = role.identity;
            let ghost pushed = role;
            self.roles.push(role);
            self.identities.push(identity);
            proof {
                assert(self.roles@ == old(self).roles_spec().push(pushed));
                assert(role_is_fresh(old(self).roles_spec(), old(self).identities_spec(), pushed.identity, pushed.name@));
                assert(role_fields_ok(pushed.identity, pushed.name@) && record.payload@ == role_payload(
                    pushed.identity,
                    pushed.reserved,
                    encode_utf8(pushed.name@),
                ) && role_is_fresh(old(self).roles_spec(), old(self).identities_spec(), pushed.identity, pushed.name@)
                    && self.roles_spec() == old(self).roles_spec().push(pushed)
                    && self.identities_spec() == old(self).identities_spec().push(pushed.identity)
                    && self.posits_spec() == old(self).posits_spec()
                    && self.codecs_spec() == old(self).codecs_spec());
            }
            return Ok(());
        }
        if record.record_type == RECORD_CODEC {
            let codec = decode_codec(record.payload.as_slice())?;
            if self.codec_declared(codec) {
                return Err(corruption_error(text::text("duplicate Codec record")));
            }
            self.codecs.push(codec);
            return Ok(());
        }
        if record.record_type == RECORD_POSIT {
            let posit = decode_posit(record.payload.as_slice(), self.codecs.as_slice())?;
            let ghost admitted_form = replay_admits(old(self).state(), *record);
            let ghost form: (u64, Seq<(u64, u64)>, Seq<char>, LiteralFamily, BuiltinCodec, TimeType) = choose|
                identity: u64,
                pairs: Seq<(u64, u64)>,
                token: Seq<char>,
                family: LiteralFamily,
                codec: BuiltinCodec,
                moment: TimeType,
            |
                #[trigger] posit_form(record.payload@, old(self).codecs_spec(), identity, pairs, token, family, codec, moment)
                    && !old(self).identities_spec().contains(identity) && roles_known(old(self).roles_spec(), pairs)
                    && forall|i: int|
                    0 <= i < old(self).posits_spec().len() ==> #[trigger] proposition_of(old(self).posits_spec()[i]) != (
                        pairs,
                        token,
                        moment,
                    );
            proof {
                if admitted_form {
                    assert(posit_form(record.payload@, self.codecs@, form.0, form.1, form.2, form.3, form.4, form.5));
                    assert(posit.appearances@ == form.1 && posit.identity == form.0);
                    assert(proposition_of(posit) == (form.1, form.2, form.5));
                }
            }
            if self.has_identity(posit.identity) {
                return Err(corruption_error(text::text("duplicate Role or Posit identity")));
            }
            let mut k: usize = 0;
            while k < posit.appearances.len()
                invariant
                    *self == *old(self),
                    record.record_type == RECORD_POSIT,
                    k <= posit.appearances@.len(),
                    forall|j: int| 0 <= j < k ==> role_listed(self.roles@, (#[trigger] posit.appearances@[j]).0),
                    admitted_form ==> roles_known(self.roles@, posit.appearances@),
                    admitted_form == replay_admits(old(self).state(), *record),
                decreases posit.appearances@.len() - k,
            {
                proof {
                    if admitted_form {
                        assert(role_listed(self.roles@, posit.appearances@[k as int].0));
                    }
                }
                if !self.role_known(posit.appearances[k].0) {
                    return Err(corruption_error(text::text("Posit references an unknown Role")));
                }
                k = k + 1;
            }
            if self.proposition_kept(&posit) {
                return Err(corruption_error(text::text("duplicate Posit proposition")));
            }
            let identity = posit.identity;
            let ghost pushed = posit;
            self.posits.push(posit);
            self.identities.push(identity);
            proof {
                assert(posit_read(record.payload@, old(self).codecs_spec(), pushed));
                assert(posit_admitted(old(self).state(), pushed));
                assert(self.state() == (old(self).state().0, old(self).state().1.push(pushed), old(self).state().2, old(self).state().3.push(pushed.identity)));
                assert(self.posits@ == old(self).posits_spec().push(pushed));
                assert(roles_known(old(self).roles_spec(), pushed.appearances@));
                assert(!old(self).identities_spec().contains(pushed.identity) && roles_known(old(self).roles_spec(), pushed.appearances@)
                    && (forall|i: int| 0 <= i < old(self).posits_spec().len() ==> proposition_of(#[trigger] old(self).posits_spec()[i]) != proposition_of(pushed))
                    && self.posits_spec() == old(self).posits_spec().push(pushed)
                    && self.identities_spec() == old(self).identities_spec().push(pushed.identity)
                    && self.roles_spec() == old(self).roles_spec()
                    && self.codecs_spec() == old(self).codecs_spec()
                    && pushed.identity != 0 && canonical_pairs(pushed.appearances@));
            }
            return Ok(());
        }
        Err(corruption_error(text::text("unsupported logical record type")))
    }

    /// Whether the built-in role `identity` was replayed, reserved, under
    /// `name`.
    fn builtin_present(&self, identity: Thing, name: &str) -> (r: bool)
        ensures
            r == exists|i: int|
                0 <= i < self.roles@.len() && (#[trigger] self.roles@[i]).identity == identity && self.roles@[i].name@
                    == name@ && self.roles@[i].reserved,
    {
        let wanted = String::from_str(name);
        let mut i: usize = 0;
        while i < self.roles.len()
            invariant
                i <= self.roles@.len(),
                wanted@ == name@,
                forall|k: int|
                    0 <= k < i ==> !((#[trigger] self.roles@[k]).identity == identity && self.roles@[k].name@ == name@
                        && self.roles@[k].reserved),
            decreases self.roles@.len() - i,
        {
            if self.roles[i].identity == identity && self.roles[i].name == wanted && self.roles[i].reserved {
                return true;
            }
            i = i + 1;
        }
        false
    }

    /// The replayed store; a non-empty store must hold the reserved
    /// built-in roles and declare every mandatory codec.
    pub fn finish(self) -> (r: Result<ReplayedStore, DatabaseError>)
        ensures
            finish_outcome(self.state(), self.uuid(), r),
    {
        let used = self.roles.len() > 0 || self.posits.len() > 0 || self.codecs.len() > 0;
        let required = self.codec_declared(BuiltinCodec::RawUtf8) && self.codec_declared(BuiltinCodec::CanonicalI64)
            && self.codec_declared(BuiltinCodec::CanonicalCertainty);
        if used {
            if !self.builtin_present(POSIT_ROLE_ID, "posit") || !self.builtin_present(ASCERTAINS_ROLE_ID, "ascertains") {
                return Err(corruption_error(text::text("built-in Role must be reserved with its fixed identity")));
            }
            if !required {
                return Err(corruption_error(text::text("store lacks one or more mandatory v1 codecs")));
            }
        }
        Ok(ReplayedStore { store_uuid: self.store_uuid, roles: self.roles, posits: self.posits, has_required_codecs: required })
    }
}

pub fn pairs_equal(a: &Vec<(Thing, Thing)>, b: &Vec<(Thing, Thing)>) -> (r: bool)
    ensures
        r == (a@ == b@),
{
    if a.len() != b.len() {
        return false;
    }
    let mut i: usize = 0;
    while i < a.len()
        invariant
            i <= a@.len(),
            a@.len() == b@.len(),
            forall|k: int| 0 <= k < i ==> a@[k] == b@[k],
        decreases a@.len() - i,
    {
        if a[i].0 != b[i].0 || a[i].1 != b[i].1 {
            return false;
        }
        i = i + 1;
    }
    assert(a@ =~= b@);
    true
}

/// The records of the first `j` batches come first among those of all.
proof fn lemma_batch_records_prefix(bs: Seq<Vec<StoredRecord>>, j: int)
    requires
        0 <= j <= bs.len(),
    ensures
        batch_records(bs.take(j)) == batch_records(bs).take(batch_records(bs.take(j)).len() as int),
        batch_records(bs.take(j)).len() <= batch_records(bs).len(),
    decreases bs.len(),
{
    if j == bs.len() {
        assert(bs.take(j) =~= bs);
        assert(batch_records(bs).take(batch_records(bs).len() as int) =~= batch_records(bs));
    } else {
        assert(bs.take(j) =~= bs.drop_last().take(j));
        lemma_batch_records_prefix(bs.drop_last(), j);
        let inner = batch_records(bs.drop_last());
        let k = batch_records(bs.take(j)).len() as int;
        assert(batch_records(bs) == inner + bs.last()@);
        assert(batch_records(bs).take(k) =~= inner.take(k));
    }
}

/// One more step extends a replay by one record.
proof fn lemma_replays_push(s: ReplayState, records: Seq<StoredRecord>, m: ReplayState, x: StoredRecord, t: ReplayState)
    requires
        replays(s, records, m),
        replay_step(m, x, t),
    ensures
        replays(s, records.push(x), t),
{
    let states = choose|states: Seq<ReplayState>| #[trigger] replay_run(s, records, states) && states.last() == m;
    let longer = states.push(t);
    let more = records.push(x);
    assert forall|i: int| 0 <= i < more.len() implies replay_step(#[trigger] longer[i], more[i], longer[i + 1]) by {
        if i < records.len() {
            assert(longer[i] == states[i] && longer[i + 1] == states[i + 1] && more[i] == records[i]);
        } else {
            assert(longer[i] == m && more[i] == x && longer[i + 1] == t);
        }
    }
    assert(replay_run(s, more, longer));
}

/// Rebuilds the logical content of a store from its committed batches: each
/// record of each batch in turn takes one replay step, and the final state is
/// finished into the store. The replay fails on the first record the state
/// does not accept, or where the finished state lacks the built-in roles or
/// the mandatory codecs.
pub fn replay_logical(store_uuid: [u8; 16], batches: &[Vec<StoredRecord>]) -> (r: Result<ReplayedStore, DatabaseError>)
    ensures
        ({
            let records = batch_records(batches@);
            &&& r is Ok ==> exists|t: ReplayState| replays(empty_replay(), records, t) && finish_outcome(t, store_uuid, r)
            &&& r is Err ==> is_corruption(r)
            &&& r is Err ==> (exists|k: int, t: ReplayState|
                0 <= k < records.len() && replays(empty_replay(), records.take(k), t) && !replay_admits(t, records[k]))
                || (exists|t: ReplayState| replays(empty_replay(), records, t) && finish_outcome(t, store_uuid, r))
        }),
{
    let ghost all = batch_records(batches@);
    let mut replay = LogicalReplay::new(store_uuid);
    assert(replay.state() =~= empty_replay());
    assert(replay_run(empty_replay(), Seq::<StoredRecord>::empty(), seq![empty_replay()]));
    assert(batch_records(batches@.take(0)) =~= Seq::<StoredRecord>::empty());
    let mut b: usize = 0;
    while b < batches.len()
        invariant
            b <= batches@.len(),
            replay.uuid() == store_uuid,
            all == batch_records(batches@),
            replays(empty_replay(), batch_records(batches@.take(b as int)), replay.state()),
        decreases batches@.len() - b,
    {
        let batch = &batches[b];
        let ghost done = batch_records(batches@.take(b as int));
        proof {
            assert(batches@.take(b + 1).drop_last() =~= batches@.take(b as int));
            assert(batch_records(batches@.take(b + 1)) == done + batch@);
            lemma_batch_records_prefix(batches@, b + 1);
        }
        let mut i: usize = 0;
        assert(done + batch@.take(0) =~= done);
        while i < batch.len()
            invariant
                i <= batch@.len(),
                replay.uuid() == store_uuid,
                all == batch_records(batches@),
                done == batch_records(batches@.take(b as int)),
                b < batches@.len(),
                *batch == batches@[b as int],
                batch_records(batches@.take(b + 1)) == done + batch@,
                all.take((done + batch@).len() as int) == done + batch@,
                (done + batch@).len() <= all.len(),
                replays(empty_replay(), done + batch@.take(i as int), replay.state()),
            decreases batch@.len() - i,
        {
            let ghost before = replay.state();
            let ghost prefix = done + batch@.take(i as int);
            proof {
                assert(prefix.len() < all.len());
                assert(all.take(prefix.len() as int) =~= prefix) by {
                    assert forall|q: int| 0 <= q < prefix.len() implies all.take(prefix.len() as int)[q] == prefix[q] by {
                        assert(all.take((done + batch@).len() as int)[q] == (done + batch@)[q]);
                    }
                }
                assert(all[prefix.len() as int] == batch@[i as int]) by {
                    assert(all.take((done + batch@).len() as int)[prefix.len() as int] == (done + batch@)[prefix.len() as int]);
                }
            }
            match replay.apply_record(&batch[i]) {
                Ok(()) => {},
                Err(e) => {
                    proof {
                        assert(!replay_admits(before, all[prefix.len() as int]));
                        assert(replays(empty_replay(), all.take(prefix.len() as int), before));
                    }
                    return Err(e);
                },
            }
            proof {
                lemma_replays_push(empty_replay(), prefix, before, batch@[i as int], replay.state());
                assert(prefix.push(batch@[i as int]) =~= done + batch@.take(i + 1));
            }
            i = i + 1;
        }
        assert(batch@.take(batch@.len() as int) =~= batch@);
        b = b + 1;
    }
    assert(batches@.take(batches@.len() as int) =~= batches@);
    replay.finish()
}

// ---------------------------------------------------------------------------
// Manifest and log header
// ---------------------------------------------------------------------------

/// The durable facts of a store: its identity and how much of its log is
/// committed.
#[derive(Debug, Clone, Copy)]
pub struct Manifest {
    pub store_uuid: [u8; 16],
    pub committed_length: u64,
}

/// `POSITPMF`.
pub open spec fn manifest_magic() -> Seq<u8> {
    seq![80u8, 79u8, 83u8, 73u8, 84u8, 80u8, 77u8, 70u8]
}

/// `POSITLOG`.
pub open spec fn log_magic() -> Seq<u8> {
    seq![80u8, 79u8, 83u8, 73u8, 84u8, 76u8, 79u8, 71u8]
}

/// A manifest without its checksum.
pub open spec fn manifest_body(uuid: Seq<u8>, committed_length: u64) -> Seq<u8> {
    manifest_magic() + u16_le(FORMAT_MAJOR) + u16_le(FORMAT_MINOR) + u32_le(MANIFEST_HEADER_LEN) + uuid + u64_le(0)
        + u64_le(0) + uleb128(1) + blob(LOG_NAME.spec_bytes()) + u64_le(1) + seq![0u8] + u64_le(committed_length)
}

/// A manifest: its body and the CRC-32C of the body.
#[verifier::opaque]
pub open spec fn manifest_bytes(uuid: Seq<u8>, committed_length: u64) -> Seq<u8> {
    manifest_body(uuid, committed_length) + u32_le(crc32c_of(manifest_body(uuid, committed_length)))
}

fn push_array(target: &mut Vec<u8>, bytes: &[u8; 16])
    ensures
        final(target)@ == old(target)@ + bytes@,
{
    crate::codec::push_bytes(target, bytes.as_slice());
}

/// The bytes of a manifest.
pub fn encode_manifest(manifest: &Manifest) -> (bytes: Vec<u8>)
    ensures
        bytes@ == manifest_bytes(manifest.store_uuid@, manifest.committed_length),
{
    let mut bytes: Vec<u8> = Vec::new();
    bytes.push(80);
    bytes.push(79);
    bytes.push(83);
    bytes.push(73);
    bytes.push(84);
    bytes.push(80);
    bytes.push(77);
    bytes.push(70);
    push_u16(&mut bytes, FORMAT_MAJOR);
    push_u16(&mut bytes, FORMAT_MINOR);
    push_u32(&mut bytes, MANIFEST_HEADER_LEN);
    push_array(&mut bytes, &manifest.store_uuid);
    push_u64(&mut bytes, 0);
    push_u64(&mut bytes, 0);
    encode_uleb128(1, &mut bytes);
    encode_text(LOG_NAME, &mut bytes);
    push_u64(&mut bytes, 1);
    bytes.push(0);
    push_u64(&mut bytes, manifest.committed_length);
    proof {
        assert(bytes@ =~= manifest_body(manifest.store_uuid@, manifest.committed_length));
    }
    let checksum = crc32c(bytes.as_slice());
    push_u32(&mut bytes, checksum);
    proof {
        reveal(manifest_bytes);
    }
    bytes
}

proof fn lemma_manifest_shape(uuid: Seq<u8>, committed_length: u64)
    requires
        uuid.len() == 16,
    ensures
        manifest_body(uuid, committed_length).len() == 91,
        manifest_bytes(uuid, committed_length).len() == 95,
        manifest_bytes(uuid, committed_length).subrange(16, 32) == uuid,
        manifest_bytes(uuid, committed_length).subrange(83, 91) == u64_le(committed_length),
{
    lemma_auto_spec_u64_to_from_le_bytes();
    lemma_auto_spec_u32_to_from_le_bytes();
    lemma_auto_spec_u16_to_from_le_bytes();
    reveal_strlit("log-0000000000000001.ptl");
    assert(LOG_NAME.spec_bytes().len() == 24) by {
        vstd::string::is_ascii_spec_bytes(LOG_NAME);
        assert(vstd::string::is_ascii(LOG_NAME));
    }
    crate::codec::lemma_uleb128_shape(24);
    crate::codec::lemma_uleb128_shape(1);
    reveal(manifest_bytes);
    assert(uleb128(1).len() == 1);
    assert(uleb128(24).len() == 1);
    let m = manifest_bytes(uuid, committed_length);
    assert(m.subrange(16, 32) =~= uuid);
    assert(m.subrange(83, 91) =~= u64_le(committed_length));
}

/// Reads a manifest.
///
/// Succeeds exactly on the bytes of a manifest, and reads back its store
/// identity and committed length.
pub fn decode_manifest(bytes: &[u8]) -> (r: Result<Manifest, DatabaseError>)
    ensures
        r matches Ok(m) ==> bytes@ == manifest_bytes(m.store_uuid@, m.committed_length),
        r is Err ==> is_corruption(r),
        forall|uuid: Seq<u8>, committed_length: u64|
            uuid.len() == 16 && bytes@ == #[trigger] manifest_bytes(uuid, committed_length) ==> (r matches Ok(m)
                && m.store_uuid@ == uuid && m.committed_length == committed_length),
{
    let total = bytes.len();
    if total != 95 {
        proof {
            assert forall|uuid: Seq<u8>, committed_length: u64|
                uuid.len() == 16 implies bytes@ != #[trigger] manifest_bytes(uuid, committed_length) by {
                lemma_manifest_shape(uuid, committed_length);
            }
        }
        return Err(corruption_error(text::text("manifest is truncated or has trailing fields")));
    }
    let uuid: [u8; 16] = [
        bytes[16], bytes[17], bytes[18], bytes[19], bytes[20], bytes[21], bytes[22], bytes[23],
        bytes[24], bytes[25], bytes[26], bytes[27], bytes[28], bytes[29], bytes[30], bytes[31],
    ];
    let mut length_cursor: usize = 83;
    let committed_length = take_u64(bytes, &mut length_cursor, "committed length")?;
    let candidate = Manifest { store_uuid: uuid, committed_length };
    let encoded = encode_manifest(&candidate);
    if !crate::codec::slices_equal(encoded.as_slice(), bytes) {
        proof {
            assert forall|u: Seq<u8>, c: u64| u.len() == 16 implies bytes@ != #[trigger] manifest_bytes(u, c) by {
                if bytes@ == manifest_bytes(u, c) {
                    lemma_manifest_shape(u, c);
                    lemma_u64_bytes(c);
                    assert(bytes@.subrange(16, 32) =~= u);
                    assert(uuid@ =~= u);
                    assert(bytes@.subrange(83, 91) =~= u64_le(c));
                }
            }
        }
        return Err(corruption_error(text::text("manifest checksum or layout mismatch")));
    }
    proof {
        assert forall|u: Seq<u8>, c: u64| u.len() == 16 && bytes@ == #[trigger] manifest_bytes(u, c) implies
            candidate.store_uuid@ == u && candidate.committed_length == c by {
            lemma_manifest_shape(u, c);
            lemma_u64_bytes(c);
            assert(bytes@.subrange(16, 32) =~= u);
            assert(uuid@ =~= u);
            assert(bytes@.subrange(83, 91) =~= u64_le(c));
        }
    }
    Ok(candidate)
}

/// The log header of a store.
pub open spec fn log_header_body(uuid: Seq<u8>) -> Seq<u8> {
    log_magic() + u16_le(FORMAT_MAJOR) + u16_le(FORMAT_MINOR) + u32_le(LOG_HEADER_LEN) + uuid + u64_le(1) + Seq::new(
        20,
        |i: int| 0u8,
    )
}

/// The log header with its checksum.
pub open spec fn log_header_bytes(uuid: Seq<u8>) -> Seq<u8> {
    log_header_body(uuid) + u32_le(crc32c_of(log_header_body(uuid)))
}

/// The log header of a store with identity `store_uuid`.
pub fn encode_log_header(store_uuid: &[u8; 16]) -> (bytes: Vec<u8>)
    ensures
        bytes@ == log_header_bytes(store_uuid@),
{
    let mut bytes: Vec<u8> = Vec::new();
    bytes.push(80);
    bytes.push(79);
    bytes.push(83);
    bytes.push(73);
    bytes.push(84);
    bytes.push(76);
    bytes.push(79);
    bytes.push(71);
    push_u16(&mut bytes, FORMAT_MAJOR);
    push_u16(&mut bytes, FORMAT_MINOR);
    push_u32(&mut bytes, LOG_HEADER_LEN);
    push_array(&mut bytes, store_uuid);
    push_u64(&mut bytes, 1);
    let ghost before_zeros = bytes@;
    let mut i: usize = 0;
    while i < 20
        invariant
            i <= 20,
            bytes@ == before_zeros + Seq::new(i as nat, |k: int| 0u8),
        decreases 20 - i,
    {
        bytes.push(0);
        proof {
            assert(bytes@ =~= before_zeros + Seq::new((i + 1) as nat, |k: int| 0u8));
        }
        i = i + 1;
    }
    proof {
        assert(bytes@ =~= log_header_body(store_uuid@));
    }
    let checksum = crc32c(bytes.as_slice());
    push_u32(&mut bytes, checksum);
    bytes
}

/// Checks the log header read from the start of the log file.
pub fn verify_log_header(header: &[u8], store_uuid: &[u8; 16]) -> (r: Result<(), DatabaseError>)
    ensures
        r is Ok <==> header@ == log_header_bytes(store_uuid@),
        r is Err ==> is_corruption(r),
{
    let expected = encode_log_header(store_uuid);
    if crate::codec::slices_equal(expected.as_slice(), header) {
        Ok(())
    } else {
        Err(corruption_error(text::text("invalid log header")))
    }
}

/// Where a reopened log stands: refused where the manifest's committed
/// length is shorter than the header or longer than the log; otherwise
/// whether an uncommitted tail must be cut off.
pub fn check_committed_length(committed_length: u64, file_length: u64) -> (r: Result<bool, DatabaseError>)
    ensures
        r is Ok <==> LOG_HEADER_LEN <= committed_length <= file_length,
        r matches Ok(truncate) ==> truncate == (file_length > committed_length),
        r is Err ==> is_corruption(r),
{
    if committed_length < LOG_HEADER_LEN as u64 || committed_length > file_length {
        return Err(corruption_error(text::text("manifest committed length is invalid for the log length")));
    }
    Ok(file_length > committed_length)
}

/// A random store identity marked as an RFC 4122 version 4 UUID.
pub fn stamp_store_uuid(bytes: [u8; 16]) -> (uuid: [u8; 16])
    ensures
        uuid@[6] == ((bytes@[6] & 0x0f) | 0x40),
        uuid@[8] == ((bytes@[8] & 0x3f) | 0x80),
        forall|i: int| 0 <= i < 16 && i != 6 && i != 8 ==> uuid@[i] == bytes@[i],
{
    [
        bytes[0], bytes[1], bytes[2], bytes[3], bytes[4], bytes[5], (bytes[6] & 0x0f) | 0x40, bytes[7],
        (bytes[8] & 0x3f) | 0x80, bytes[9], bytes[10], bytes[11], bytes[12], bytes[13], bytes[14], bytes[15],
    ]
}

/// Sixteen random bytes from `getrandom::fill`. Nothing is claimed of
/// them; they come from the operating system.
#[verifier::external_body]
pub fn random_bytes() -> (r: Result<[u8; 16], DatabaseError>)
    ensures
        r matches Err(e) ==> e is Persistence,
{
    let mut bytes = [0u8; 16];
    match getrandom::fill(&mut bytes) {
        Ok(()) => Ok(bytes),
        Err(error) => Err(DatabaseError::Persistence(format!("failed to generate store UUID: {error}"))),
    }
}

/// A fresh store identity: random, with the version 4 marks.
pub fn fresh_store_uuid() -> (r: Result<[u8; 16], DatabaseError>)
    ensures
        r matches Ok(uuid) ==> (uuid@[6] & 0xf0) == 0x40 && (uuid@[8] & 0xc0) == 0x80,
        r matches Err(e) ==> e is Persistence,
{
    let bytes = random_bytes()?;
    let uuid = stamp_store_uuid(bytes);
    let (a, b) = (bytes[6], bytes[8]);
    assert(((a & 0x0f) | 0x40) & 0xf0 == 0x40) by (bit_vector);
    assert(((b & 0x3f) | 0x80) & 0xc0 == 0x80) by (bit_vector);
    Ok(uuid)
}

// ---------------------------------------------------------------------------
// The writer's bookkeeping
// ---------------------------------------------------------------------------

/// What a store writer keeps between batches: whether an uncertain write
/// closed it, how much of the log is committed, and the numbers the next
/// record and batch take.
#[derive(Debug, Clone, Copy, PartialEq, Eq, Structural)]
pub struct WriterState {
    pub poisoned: bool,
    pub committed_length: u64,
    pub next_sequence: u64,
    pub next_batch: u64,
    pub batch_count: usize,
}

/// A writer closed by an uncertain write refuses every further batch.
pub fn writer_refusal(state: &WriterState) -> (r: Option<DatabaseError>)
    ensures
        r is Some <==> state.poisoned,
        r matches Some(e) ==> (e matches DatabaseError::Persistence(m) && m@
            == "store writer is fail-closed after an earlier uncertain write; reopen the store"@),
{
    if state.poisoned {
        Some(DatabaseError::Persistence(text::text("store writer is fail-closed after an earlier uncertain write; reopen the store")))
    } else {
        None
    }
}

/// The writer after a write whose outcome is uncertain: closed.
pub fn poison(state: WriterState) -> (s: WriterState)
    ensures
        s == (WriterState { poisoned: true, ..state }),
{
    WriterState { poisoned: true, ..state }
}

/// The committed length once `framed_len` more bytes are written.
pub fn length_after(state: &WriterState, framed_len: usize) -> (r: Result<u64, DatabaseError>)
    ensures
        state.committed_length + framed_len <= u64::MAX ==> r == Ok::<u64, DatabaseError>(
            (state.committed_length + framed_len) as u64,
        ),
        state.committed_length + framed_len > u64::MAX ==> (r matches Err(e) && (e matches DatabaseError::Invariant(m)
            && m@ == "log length exhausted"@)),
{
    if framed_len as u64 > u64::MAX - state.committed_length {
        Err(DatabaseError::Invariant(text::text("log length exhausted")))
    } else {
        Ok(state.committed_length + framed_len as u64)
    }
}

/// The writer once the manifest records `new_length` as committed after a
/// batch of `record_count` records and its Commit: the next record and batch
/// numbers and the batch count move on, each failing where it would pass
/// its type's range (the committed length moves all the same).
pub fn after_commit(state: WriterState, new_length: u64, record_count: usize) -> (r: (WriterState, Result<(), DatabaseError>))
    ensures
        r.0.poisoned == state.poisoned,
        r.0.committed_length == new_length,
        ({
            let seq = state.next_sequence + record_count + 1;
            if seq > u64::MAX {
                r.0.next_sequence == state.next_sequence && r.0.next_batch == state.next_batch && r.0.batch_count
                    == state.batch_count && (r.1 matches Err(e) && (e matches DatabaseError::Invariant(m) && m@
                    == "record sequence exhausted"@))
            } else if state.next_batch + 1 > u64::MAX {
                r.0.next_sequence == seq && r.0.next_batch == state.next_batch && r.0.batch_count == state.batch_count
                    && (r.1 matches Err(e) && (e matches DatabaseError::Invariant(m) && m@ == "batch sequence exhausted"@))
            } else if state.batch_count + 1 > usize::MAX {
                r.0.next_sequence == seq && r.0.next_batch == state.next_batch + 1 && r.0.batch_count == state.batch_count
                    && (r.1 matches Err(e) && (e matches DatabaseError::Invariant(m) && m@ == "batch count exhausted"@))
            } else {
                r.0.next_sequence == seq && r.0.next_batch == state.next_batch + 1 && r.0.batch_count == state.batch_count
                    + 1 && r.1 is Ok
            }
        }),
{
    let mut s = WriterState { committed_length: new_length, ..state };
    if record_count as u64 >= u64::MAX - state.next_sequence || (record_count as u64) + 1 > u64::MAX - state.next_sequence {
        return (s, Err(DatabaseError::Invariant(text::text("record sequence exhausted"))));
    }
    s.next_sequence = state.next_sequence + record_count as u64 + 1;
    if state.next_batch == u64::MAX {
        return (s, Err(DatabaseError::Invariant(text::text("batch sequence exhausted"))));
    }
    s.next_batch = state.next_batch + 1;
    if state.batch_count == usize::MAX {
        return (s, Err(DatabaseError::Invariant(text::text("batch count exhausted"))));
    }
    s.batch_count = state.batch_count + 1;
    (s, Ok(()))
}

} // verus!
