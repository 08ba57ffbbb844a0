//! The rules of the maintenance tools: store identities in text, the
//! logical export's vocabulary, the checks an import must pass, and the
//! renumbering of identities into a fresh store.

use crate::construct::{Thing, ASCERTAINS_ROLE_ID, LAST_BUILTIN_IDENTITY, POSIT_ROLE_ID};
use crate::datatype::{CalendarDate, CalendarDateTime, Time, TimeType};
use crate::error::DatabaseError;
use crate::literal::{valid_literal, LiteralFamily};
use crate::storage::{canonical_pairs, persistable_moment, ReplayedPosit, ReplayedRole};
use crate::text::{hex_char, hex_text, push_hex};
use std::collections::HashSet;
use vstd::prelude::*;
use vstd::string::StrSliceExecFns;
use vstd::string::StringExecFns;

verus! {

pub const LOGICAL_EXPORT_FORMAT: &'static str = "positorium.logical-export";

pub const LOGICAL_EXPORT_VERSION: u16 = 1;

pub const IDENTITY_REMAP_FORMAT: &'static str = "positorium.identity-remap";

pub const IDENTITY_REMAP_VERSION: u16 = 1;

pub const MAX_LOGICAL_RECORD_SIZE: usize = 16777216;

pub const IMPORT_BATCH_SIZE: usize = 1024;

/// The first identity handed out to imported constructs that are not
/// built in.
pub const FIRST_IMPORTED_IDENTITY: u64 = 6;

/// A construct named across stores: its store and its local identity.
#[derive(Debug, Clone)]
pub struct ExternalIdentity {
    pub store_uuid: String,
    pub local: Thing,
}

/// What `inspect_store` reports.
#[derive(Debug, Clone)]
pub struct StoreInspection {
    pub store_uuid: String,
    pub storage_format_major: u16,
    pub storage_format_minor: u16,
    pub committed_length: u64,
    pub physical_log_length: u64,
    pub ignored_tail_bytes: u64,
    pub committed_batches: usize,
    pub roles: usize,
    pub posits: usize,
    pub referenced_things: usize,
}

/// What a logical export wrote.
#[derive(Debug, Clone)]
pub struct ExportReport {
    pub source_store_uuid: String,
    pub roles: usize,
    pub posits: usize,
    pub bytes_written: u64,
}

/// What a logical import did.
#[derive(Debug, Clone)]
pub struct ImportReport {
    pub source_store_uuid: String,
    pub destination_store_uuid: String,
    pub roles: usize,
    pub posits: usize,
    pub remapped_identities: usize,
}

/// What a physical backup copied.
#[derive(Debug, Clone)]
pub struct BackupReport {
    pub store_uuid: String,
    pub committed_length: u64,
    pub roles: usize,
    pub posits: usize,
}

/// Where an imported identity went.
#[derive(Debug, Clone)]
pub struct IdentityRemap {
    pub source: ExternalIdentity,
    pub destination: ExternalIdentity,
}

/// One appearance of a logical export.
#[derive(Debug, Clone)]
pub struct LogicalAppearance {
    pub role: ExternalIdentity,
    pub thing: ExternalIdentity,
}

/// The literal of a logical export: family name and token.
#[derive(Debug, Clone)]
pub struct LogicalLiteral {
    pub family: String,
    pub token: String,
}

/// The time of a logical export, by precision.
#[derive(Debug, Clone, Copy, PartialEq, Eq, Structural)]
pub enum LogicalTime {
    BeginningOfTime,
    EndOfTime,
    Year { year: i32 },
    YearMonth { year: i32, month: u8 },
    Date { year: i32, month: u8, day: u8 },
    DateTimeUtc { year: i32, month: u8, day: u8, hour: u8, minute: u8, second: u8, nanosecond: u32 },
}

/// One line of a logical export.
#[derive(Debug, Clone)]
pub enum LogicalRecord {
    Header { format: String, version: u16, source_store_uuid: String },
    Role { identity: ExternalIdentity, name: String, reserved: bool },
    Posit {
        identity: ExternalIdentity,
        appearances: Vec<LogicalAppearance>,
        literal: LogicalLiteral,
        time: LogicalTime,
    },
}

// ---------------------------------------------------------------------------
// Store identities as text
// ---------------------------------------------------------------------------

/// Two lowercase hexadecimal digits of a byte.
pub open spec fn byte_hex(b: u8) -> Seq<char> {
    hex_text(b as nat, 2)
}

/// The hexadecimal digits of `bytes[from..to]`.
pub open spec fn bytes_hex(bytes: Seq<u8>, from: int, to: int) -> Seq<char>
    decreases to - from,
{
    if to <= from {
        Seq::empty()
    } else {
        bytes_hex(bytes, from, to - 1) + byte_hex(bytes[to - 1])
    }
}

/// The canonical text of a store identity: 8-4-4-4-12 lowercase
/// hexadecimal digits.
pub open spec fn uuid_text(uuid: Seq<u8>) -> Seq<char> {
    bytes_hex(uuid, 0, 4) + seq!['-'] + bytes_hex(uuid, 4, 6) + seq!['-'] + bytes_hex(uuid, 6, 8) + seq!['-']
        + bytes_hex(uuid, 8, 10) + seq!['-'] + bytes_hex(uuid, 10, 16)
}

fn push_hex_bytes(target: &mut String, uuid: &[u8; 16], from: usize, to: usize)
    requires
        from <= to <= 16,
    ensures
        final(target)@ == old(target)@ + bytes_hex(uuid@, from as int, to as int),
{
    let ghost start = target@;
    let mut i = from;
    while i < to
        invariant
            from <= i <= to <= 16,
            target@ == start + bytes_hex(uuid@, from as int, i as int),
        decreases to - i,
    {
        push_hex(target, uuid[i] as u64, 2);
        i = i + 1;
    }
}

/// The canonical text of a store identity.
pub fn format_uuid(uuid: &[u8; 16]) -> (s: String)
    ensures
        s@ == uuid_text(uuid@),
{
    proof {
        reveal_strlit("-");
    }
    let mut s = String::new();
    push_hex_bytes(&mut s, uuid, 0, 4);
    s.append("-");
    push_hex_bytes(&mut s, uuid, 4, 6);
    s.append("-");
    push_hex_bytes(&mut s, uuid, 6, 8);
    s.append("-");
    push_hex_bytes(&mut s, uuid, 8, 10);
    s.append("-");
    push_hex_bytes(&mut s, uuid, 10, 16);
    proof {
        assert(s@ =~= uuid_text(uuid@));
    }
    s
}

/// The value of a hexadecimal digit, either case.
pub open spec fn hex_value(c: char) -> Option<nat> {
    if '0' <= c && c <= '9' {
        Some((c as u32 - 48) as nat)
    } else if 'a' <= c && c <= 'f' {
        Some((c as u32 - 87) as nat)
    } else if 'A' <= c && c <= 'F' {
        Some((c as u32 - 55) as nat)
    } else {
        None
    }
}

/// The byte that two characters denote as `u8::from_str_radix(_, 16)` reads
/// them: two hexadecimal digits, or a plus sign and one.
pub open spec fn pair_value(a: char, b: char) -> Option<nat> {
    if a == '+' {
        hex_value(b)
    } else {
        match (hex_value(a), hex_value(b)) {
            (Some(x), Some(y)) => Some(16 * x + y),
            _ => None,
        }
    }
}

/// The positions of the 32 digit characters of a 36-character identity.
pub open spec fn digit_position(k: int) -> int {
    if k < 8 {
        k
    } else if k < 12 {
        k + 1
    } else if k < 16 {
        k + 2
    } else if k < 20 {
        k + 3
    } else {
        k + 4
    }
}

/// Text that denotes a store identity: 36 ASCII characters, hyphens at
/// positions 8, 13, 18 and 23 and nowhere else, and 16 byte pairs between.
pub open spec fn uuid_syntax(t: Seq<char>) -> bool {
    &&& t.len() == 36
    &&& forall|i: int| 0 <= i < 36 ==> (#[trigger] t[i] as u32) < 128
    &&& forall|i: int| 0 <= i < 36 ==> ((#[trigger] t[i] == '-') <==> (i == 8 || i == 13 || i == 18 || i == 23))
    &&& forall|j: int| 0 <= j < 16 ==> (#[trigger] pair_value(t[digit_position(2 * j)], t[digit_position(2 * j + 1)])) is Some
}

fn hex_digit(c: char) -> (r: Option<u8>)
    ensures
        match hex_value(c) {
            Some(v) => r == Some(v as u8),
            None => r is None,
        },
{
    if '0' <= c && c <= '9' {
        Some((c as u32 - 48) as u8)
    } else if 'a' <= c && c <= 'f' {
        Some((c as u32 - 87) as u8)
    } else if 'A' <= c && c <= 'F' {
        Some((c as u32 - 55) as u8)
    } else {
        None
    }
}

fn digit_index(k: usize) -> (p: usize)
    requires
        k < 32,
    ensures
        p == digit_position(k as int),
        p < 36,
{
    if k < 8 {
        k
    } else if k < 12 {
        k + 1
    } else if k < 16 {
        k + 2
    } else if k < 20 {
        k + 3
    } else {
        k + 4
    }
}

/// Reads the text of a store identity.
///
/// Text with non-ASCII characters is refused.
#[verifier::rlimit(60)]
pub fn parse_uuid(value: &str) -> (r: Result<[u8; 16], DatabaseError>)
    ensures
        r is Ok <==> uuid_syntax(value@),
        r matches Ok(uuid) ==> forall|j: int|
            0 <= j < 16 ==> pair_value(value@[digit_position(2 * j)], value@[digit_position(2 * j + 1)]) == Some(
                #[trigger] uuid@[j] as nat,
            ),
        r matches Ok(uuid) ==> uuid@ == uuid_bytes_of(value@),
        r matches Err(e) ==> e is DataCorruption,
{
    let n = value.unicode_len();
    if n != 36 {
        return Err(DatabaseError::DataCorruption { message: String::from_str("invalid store UUID") });
    }
    let mut i: usize = 0;
    while i < 36
        invariant
            n == 36,
            value@.len() == 36,
            i <= 36,
            forall|k: int| 0 <= k < i ==> (#[trigger] value@[k] as u32) < 128,
            forall|k: int| 0 <= k < i ==> ((#[trigger] value@[k] == '-') <==> (k == 8 || k == 13 || k == 18 || k == 23)),
        decreases 36 - i,
    {
        let c = value.get_char(i);
        let dash_here = i == 8 || i == 13 || i == 18 || i == 23;
        if (c as u32) >= 128 || (c == '-') != dash_here {
            return Err(DatabaseError::DataCorruption { message: String::from_str("invalid store UUID") });
        }
        i = i + 1;
    }
    let mut out: Vec<u8> = Vec::new();
    let mut j: usize = 0;
    while j < 16
        invariant
            value@.len() == 36,
            j <= 16,
            out@.len() == j,
            forall|k: int| 0 <= k < 36 ==> (#[trigger] value@[k] as u32) < 128,
            forall|k: int| 0 <= k < 36 ==> ((#[trigger] value@[k] == '-') <==> (k == 8 || k == 13 || k == 18 || k == 23)),
            forall|k: int|
                0 <= k < j ==> pair_value(value@[digit_position(2 * k)], value@[digit_position(2 * k + 1)]) == Some(
                    #[trigger] out@[k] as nat,
                ),
        decreases 16 - j,
    {
        let a = value.get_char(digit_index(2 * j));
        let b = value.get_char(digit_index(2 * j + 1));
        let byte: u8 = if a == '+' {
            match hex_digit(b) {
                Some(v) => v,
                None => {
                    proof {
                        assert(pair_value(value@[digit_position(2 * j as int)], value@[digit_position(2 * j + 1)]) is None);
                    }
                    return Err(DatabaseError::DataCorruption { message: String::from_str("invalid store UUID") });
                },
            }
        } else {
            match (hex_digit(a), hex_digit(b)) {
                (Some(x), Some(y)) => x * 16 + y,
                _ => {
                    proof {
                        assert(pair_value(value@[digit_position(2 * j as int)], value@[digit_position(2 * j + 1)]) is None);
                    }
                    return Err(DatabaseError::DataCorruption { message: String::from_str("invalid store UUID") });
                },
            }
        };
        out.push(byte);
        j = j + 1;
    }
    let uuid: [u8; 16] = [
        out[0], out[1], out[2], out[3], out[4], out[5], out[6], out[7], out[8], out[9], out[10], out[11], out[12],
        out[13], out[14], out[15],
    ];
    proof {
        assert forall|k: int| 0 <= k < 16 implies pair_value(value@[digit_position(2 * k)], value@[digit_position(2 * k + 1)])
            == Some(#[trigger] uuid@[k] as nat) by {
            assert(uuid@[k] == out@[k]);
        }
        assert(uuid@ =~= uuid_bytes_of(value@)) by {
            assert forall|k: int| 0 <= k < 16 implies uuid@[k] == uuid_bytes_of(value@)[k] by {
                assert(pair_value(value@[digit_position(2 * k)], value@[digit_position(2 * k + 1)]) == Some(
                    uuid@[k] as nat,
                ));
            }
        }
    }
    Ok(uuid)
}

// ---------------------------------------------------------------------------
// Literal families by name
// ---------------------------------------------------------------------------

/// The name of a literal family in a logical export.
pub open spec fn family_text(family: LiteralFamily) -> Seq<char> {
    match family {
        LiteralFamily::String => "string"@,
        LiteralFamily::Integer => "integer"@,
        LiteralFamily::Decimal => "decimal"@,
        LiteralFamily::Certainty => "certainty"@,
        LiteralFamily::Json => "json"@,
        LiteralFamily::Time => "time"@,
    }
}

pub fn family_name(family: LiteralFamily) -> (name: &'static str)
    ensures
        name@ == family_text(family),
{
    match family {
        LiteralFamily::String => "string",
        LiteralFamily::Integer => "integer",
        LiteralFamily::Decimal => "decimal",
        LiteralFamily::Certainty => "certainty",
        LiteralFamily::Json => "json",
        LiteralFamily::Time => "time",
    }
}

/// The literal family a logical export names.
pub fn parse_family(name: &str) -> (r: Result<LiteralFamily, DatabaseError>)
    ensures
        r matches Ok(f) ==> family_text(f) == name@,
        r is Err <==> forall|f: LiteralFamily| family_text(f) != name@,
        r matches Err(e) ==> e is DataCorruption,
{
    let text = String::from_str(name);
    let families = [
        LiteralFamily::String,
        LiteralFamily::Integer,
        LiteralFamily::Decimal,
        LiteralFamily::Certainty,
        LiteralFamily::Json,
        LiteralFamily::Time,
    ];
    let mut i: usize = 0;
    while i < 6
        invariant
            i <= 6,
            text@ == name@,
            families@ == seq![
                LiteralFamily::String,
                LiteralFamily::Integer,
                LiteralFamily::Decimal,
                LiteralFamily::Certainty,
                LiteralFamily::Json,
                LiteralFamily::Time,
            ],
            forall|k: int| 0 <= k < i ==> family_text(#[trigger] families@[k]) != name@,
        decreases 6 - i,
    {
        let candidate = String::from_str(family_name(families[i]));
        if candidate == text {
            return Ok(families[i]);
        }
        i = i + 1;
    }
    proof {
        assert forall|f: LiteralFamily| family_text(f) != name@ by {
            match f {
                LiteralFamily::String => assert(family_text(families@[0]) != name@),
                LiteralFamily::Integer => assert(family_text(families@[1]) != name@),
                LiteralFamily::Decimal => assert(family_text(families@[2]) != name@),
                LiteralFamily::Certainty => assert(family_text(families@[3]) != name@),
                LiteralFamily::Json => assert(family_text(families@[4]) != name@),
                LiteralFamily::Time => assert(family_text(families@[5]) != name@),
            }
        }
    }
    Err(DatabaseError::DataCorruption { message: String::from_str("unknown logical literal family") })
}

// ---------------------------------------------------------------------------
// External identities
// ---------------------------------------------------------------------------

/// The external name of a local identity of store `uuid`.
pub fn external_identity(uuid: &str, local: Thing) -> (e: ExternalIdentity)
    ensures
        e.store_uuid@ == uuid@,
        e.local == local,
{
    ExternalIdentity { store_uuid: String::from_str(uuid), local }
}

/// The local identity of an external name that belongs to
/// `expected_uuid`.
pub fn validate_external(identity: &ExternalIdentity, expected_uuid: &str) -> (r: Result<Thing, DatabaseError>)
    ensures
        r is Ok <==> identity.store_uuid@ == expected_uuid@,
        r matches Ok(local) ==> local == identity.local,
        r matches Err(e) ==> e is DataCorruption,
{
    let expected = String::from_str(expected_uuid);
    if !(identity.store_uuid == expected) {
        return Err(DatabaseError::DataCorruption { message: String::from_str("external identity belongs to another store") });
    }
    Ok(identity.local)
}

// ---------------------------------------------------------------------------
// Times in a logical export
// ---------------------------------------------------------------------------

/// The logical time of a moment.
pub open spec fn logical_of(m: TimeType) -> LogicalTime {
    match m {
        TimeType::BeginningOfTime => LogicalTime::BeginningOfTime,
        TimeType::EndOfTime => LogicalTime::EndOfTime,
        TimeType::Year(year) => LogicalTime::Year { year },
        TimeType::YearMonth(year, month) => LogicalTime::YearMonth { year, month },
        TimeType::Date(d) => LogicalTime::Date { year: d.parts().0, month: d.parts().1, day: d.parts().2 },
        TimeType::DateTime(dt) => LogicalTime::DateTimeUtc {
            year: dt.date_parts().0,
            month: dt.date_parts().1,
            day: dt.date_parts().2,
            hour: dt.time_parts().0,
            minute: dt.time_parts().1,
            second: dt.time_parts().2,
            nanosecond: dt.time_parts().3,
        },
    }
}

impl LogicalTime {
    /// The logical form of `time`.
    pub fn from_time(time: &Time) -> (l: LogicalTime)
        ensures
            l == logical_of(time.moment_spec()),
    {
        match time.time_type() {
            TimeType::BeginningOfTime => LogicalTime::BeginningOfTime,
            TimeType::EndOfTime => LogicalTime::EndOfTime,
            TimeType::Year(year) => LogicalTime::Year { year },
            TimeType::YearMonth(year, month) => LogicalTime::YearMonth { year, month },
            TimeType::Date(date) => {
                let (year, month, day) = date.ymd();
                LogicalTime::Date { year, month, day }
            },
            TimeType::DateTime(datetime) => {
                let (year, month, day) = datetime.date().ymd();
                let (hour, minute, second, nanosecond) = datetime.hms_nano();
                LogicalTime::DateTimeUtc { year, month, day, hour, minute, second, nanosecond }
            },
        }
    }

    /// The time a logical time denotes; refused where its parts do not form
    /// a valid time.
    pub fn into_time(self) -> (r: Result<Time, DatabaseError>)
        ensures
            r matches Ok(t) ==> logical_of(t.moment_spec()) == self && persistable_moment(t.moment_spec()),
            forall|m: TimeType| persistable_moment(m) && #[trigger] logical_of(m) == self ==> (r matches Ok(t)
                && t.moment_spec() == m),
            r matches Err(e) ==> e is DataCorruption,
    {
        let moment = match self {
            LogicalTime::BeginningOfTime => TimeType::BeginningOfTime,
            LogicalTime::EndOfTime => TimeType::EndOfTime,
            LogicalTime::Year { year } => TimeType::Year(year),
            LogicalTime::YearMonth { year, month } => {
                if month < 1 || month > 12 {
                    return Err(DatabaseError::DataCorruption { message: String::from_str("invalid logical year-month") });
                }
                TimeType::YearMonth(year, month)
            },
            LogicalTime::Date { year, month, day } => match CalendarDate::new(year, month, day) {
                Some(date) => {
                    proof {
                        assert forall|m: TimeType| persistable_moment(m) && #[trigger] logical_of(m) == self implies m == TimeType::Date(date) by {
                            if let TimeType::Date(d) = m {
                                crate::datatype::dates_equal_by_parts(d, date);
                            }
                        }
                    }
                    TimeType::Date(date)
                },
                None => {
                    return Err(DatabaseError::DataCorruption { message: String::from_str("invalid logical date") });
                },
            },
            LogicalTime::DateTimeUtc { year, month, day, hour, minute, second, nanosecond } => {
                let date = match CalendarDate::new(year, month, day) {
                    Some(date) => date,
                    None => {
                        return Err(DatabaseError::DataCorruption { message: String::from_str("invalid logical datetime date") });
                    },
                };
                match CalendarDateTime::new(date, hour, minute, second, nanosecond) {
                    Some(datetime) => {
                        proof {
                            assert forall|m: TimeType| persistable_moment(m) && #[trigger] logical_of(m) == self implies m == TimeType::DateTime(datetime) by {
                                if let TimeType::DateTime(dt) = m {
                                    crate::datatype::date_times_equal_by_parts(dt, datetime);
                                }
                            }
                        }
                        TimeType::DateTime(datetime)
                    },
                    None => {
                        return Err(DatabaseError::DataCorruption { message: String::from_str("invalid logical UTC datetime") });
                    },
                }
            },
        };
        let date_parts = match moment {
            TimeType::Date(date) => {
                let _ = date.ymd();
                true
            },
            TimeType::DateTime(datetime) => {
                let _ = datetime.date().ymd();
                let _ = datetime.hms_nano();
                true
            },
            _ => true,
        };
        Ok(Time::from_time_type(moment))
    }
}

/// A time read back from its logical form is the same time.
pub proof fn logical_time_round_trip(m: TimeType, back: TimeType)
    requires
        persistable_moment(m),
        persistable_moment(back),
        logical_of(back) == logical_of(m),
    ensures
        back == m,
{
    match (m, back) {
        (TimeType::Date(a), TimeType::Date(b)) => crate::datatype::dates_equal_by_parts(a, b),
        (TimeType::DateTime(a), TimeType::DateTime(b)) => crate::datatype::date_times_equal_by_parts(a, b),
        _ => {},
    }
}

// ---------------------------------------------------------------------------
// Import checks and identity renumbering
// ---------------------------------------------------------------------------

/// A posit's appearances are acceptable for import: at least one, no
/// genesis identity, no role twice in a row.
pub open spec fn import_appearances_ok(pairs: Seq<(u64, u64)>) -> bool {
    &&& pairs.len() >= 1
    &&& forall|i: int| 0 <= i < pairs.len() ==> (#[trigger] pairs[i]).0 != 0 && pairs[i].1 != 0
    &&& forall|i: int| 0 <= i < pairs.len() - 1 ==> (#[trigger] pairs[i]).0 != pairs[i + 1].0
}

/// The built-in role `identity` named `name` is present and reserved.
pub open spec fn builtin_present(roles: Seq<ReplayedRole>, identity: u64, name: Seq<char>) -> bool {
    exists|i: int| 0 <= i < roles.len() && (#[trigger] roles[i]).identity == identity && roles[i].name@ == name && roles[i].reserved
}

/// What an imported store must satisfy before anything is written.
pub open spec fn import_ok(roles: Seq<ReplayedRole>, posits: Seq<ReplayedPosit>) -> bool {
    &&& forall|i: int| 0 <= i < roles.len() ==> (#[trigger] roles[i]).identity != 0
    &&& forall|i: int, j: int| 0 <= i < j < roles.len() ==> (#[trigger] roles[i]).identity != (#[trigger] roles[j]).identity
        && roles[i].name@ != roles[j].name@
    &&& builtin_present(roles, POSIT_ROLE_ID, "posit"@)
    &&& builtin_present(roles, ASCERTAINS_ROLE_ID, "ascertains"@)
    &&& forall|k: int| 0 <= k < posits.len() ==> (#[trigger] posits[k]).identity != 0
    &&& forall|k: int, i: int| 0 <= k < posits.len() && 0 <= i < roles.len() ==> (#[trigger] posits[k]).identity
        != (#[trigger] roles[i]).identity
    &&& forall|k: int, l: int| 0 <= k < l < posits.len() ==> (#[trigger] posits[k]).identity != (#[trigger] posits[l]).identity
    &&& forall|k: int| 0 <= k < posits.len() ==> import_appearances_ok((#[trigger] posits[k]).appearances@)
    &&& forall|k: int| 0 <= k < posits.len() ==> crate::storage::roles_known(roles, (#[trigger] posits[k]).appearances@)
    &&& forall|k: int, l: int| 0 <= k < l < posits.len() ==> crate::storage::proposition_of(#[trigger] posits[k])
        != crate::storage::proposition_of(#[trigger] posits[l])
}

/// Every identity an imported store refers to.
pub open spec fn referenced(roles: Seq<ReplayedRole>, posits: Seq<ReplayedPosit>) -> Set<u64> {
    Set::new(|t: u64| {
        ||| exists|i: int| 0 <= i < roles.len() && (#[trigger] roles[i]).identity == t
        ||| exists|k: int| 0 <= k < posits.len() && (#[trigger] posits[k]).identity == t
        ||| exists|k: int, a: int|
            0 <= k < posits.len() && 0 <= a < posits[k].appearances@.len() && ((#[trigger] posits[k].appearances@[a]).0 == t
                || posits[k].appearances@[a].1 == t)
    })
}

/// Strictly increasing identities.
pub open spec fn increasing(s: Seq<u64>) -> bool {
    forall|i: int, j: int| 0 <= i < j < s.len() ==> (#[trigger] s[i]) < (#[trigger] s[j])
}

/// Inserts `t` into a strictly increasing vector unless it is there.
pub fn insert_sorted(ids: &mut Vec<u64>, t: u64)
    requires
        increasing(old(ids)@),
    ensures
        increasing(final(ids)@),
        final(ids)@.to_set() == old(ids)@.to_set().insert(t),
{
    let mut p: usize = 0;
    while p < ids.len() && ids[p] < t
        invariant
            p <= ids@.len(),
            forall|k: int| 0 <= k < p ==> (#[trigger] ids@[k]) < t,
        decreases ids@.len() - p,
    {
        p = p + 1;
    }
    if p < ids.len() && ids[p] == t {
        proof {
            assert(ids@.to_set() =~= ids@.to_set().insert(t)) by {
                assert(ids@.contains(t));
            }
        }
        return;
    }
    let ghost before = ids@;
    proof {
        assert forall|j: int| p <= j < before.len() implies (#[trigger] before[j]) > t by {
            if j > p {
                assert(before[p as int] < before[j]);
            }
        }
    }
    ids.insert(p as usize, t);
    proof {
        assert(ids@ == before.insert(p as int, t));
        assert(ids@.to_set() =~= before.to_set().insert(t)) by {
            assert forall|x: u64| ids@.contains(x) <==> before.to_set().insert(t).contains(x) by {
                if ids@.contains(x) {
                    let k = choose|k: int| 0 <= k < ids@.len() && ids@[k] == x;
                    if k < p {
                        assert(before[k] == x);
                    } else if k > p {
                        assert(before[k - 1] == x);
                    }
                }
                if before.contains(x) {
                    let k = choose|k: int| 0 <= k < before.len() && before[k] == x;
                    if k < p {
                        assert(ids@[k] == x);
                    } else {
                        assert(ids@[k + 1] == x);
                    }
                }
                if x == t {
                    assert(ids@[p as int] == t);
                }
            }
        }
    }
}

/// The identities an imported store refers to, in increasing order.
pub fn referenced_identities(roles: &[ReplayedRole], posits: &[ReplayedPosit]) -> (ids: Vec<u64>)
    ensures
        increasing(ids@),
        ids@.to_set() == referenced(roles@, posits@),
{
    let mut ids: Vec<u64> = Vec::new();
    let mut i: usize = 0;
    while i < roles.len()
        invariant
            i <= roles@.len(),
            increasing(ids@),
            ids@.to_set() == Set::new(|t: u64| exists|k: int| 0 <= k < i && (#[trigger] roles@[k]).identity == t),
        decreases roles@.len() - i,
    {
        insert_sorted(&mut ids, roles[i].identity);
        proof {
            assert(ids@.to_set() =~= Set::new(|t: u64| exists|k: int| 0 <= k < i + 1 && (#[trigger] roles@[k]).identity == t)) by {
                assert forall|t: u64| (exists|k: int| 0 <= k < i + 1 && (#[trigger] roles@[k]).identity == t) implies ids@.to_set().contains(t) by {
                    let k = choose|k: int| 0 <= k < i + 1 && (#[trigger] roles@[k]).identity == t;
                    if k < i {
                        assert(exists|k2: int| 0 <= k2 < i && (#[trigger] roles@[k2]).identity == t);
                    }
                }
            }
        }
        i = i + 1;
    }
    let ghost role_part = ids@.to_set();
    let mut k: usize = 0;
    while k < posits.len()
        invariant
            k <= posits@.len(),
            i == roles@.len(),
            increasing(ids@),
            role_part == Set::new(|t: u64| exists|r: int| 0 <= r < roles@.len() && (#[trigger] roles@[r]).identity == t),
            ids@.to_set() == role_part.union(Set::new(|t: u64| {
                ||| exists|q: int| 0 <= q < k && (#[trigger] posits@[q]).identity == t
                ||| exists|q: int, a: int|
                    0 <= q < k && 0 <= a < posits@[q].appearances@.len() && ((#[trigger] posits@[q].appearances@[a]).0 == t
                        || posits@[q].appearances@[a].1 == t)
            })),
        decreases posits@.len() - k,
    {
        let posit = &posits[k];
        let ghost before_posit = ids@.to_set();
        insert_sorted(&mut ids, posit.identity);
        let mut a: usize = 0;
        while a < posit.appearances.len()
            invariant
                a <= posit.appearances@.len(),
                increasing(ids@),
                ids@.to_set() == before_posit.insert(posit.identity).union(Set::new(|t: u64|
                    exists|b: int| 0 <= b < a && ((#[trigger] posit.appearances@[b]).0 == t || posit.appearances@[b].1 == t))),
            decreases posit.appearances@.len() - a,
        {
            let (role, thing) = posit.appearances[a];
            insert_sorted(&mut ids, role);
            insert_sorted(&mut ids, thing);
            proof {
                assert(ids@.to_set() =~= before_posit.insert(posit.identity).union(Set::new(|t: u64|
                    exists|b: int| 0 <= b < a + 1 && ((#[trigger] posit.appearances@[b]).0 == t || posit.appearances@[b].1 == t)))) by {
                    assert forall|t: u64| (exists|b: int| 0 <= b < a + 1 && ((#[trigger] posit.appearances@[b]).0 == t || posit.appearances@[b].1 == t))
                        implies ids@.to_set().contains(t) by {
                        let b = choose|b: int| 0 <= b < a + 1 && ((#[trigger] posit.appearances@[b]).0 == t || posit.appearances@[b].1 == t);
                        if b < a {
                            assert(exists|b2: int| 0 <= b2 < a && ((#[trigger] posit.appearances@[b2]).0 == t || posit.appearances@[b2].1 == t));
                        }
                    }
                }
            }
            a = a + 1;
        }
        proof {
            assert(ids@.to_set() =~= role_part.union(Set::new(|t: u64| {
                ||| exists|q: int| 0 <= q < k + 1 && (#[trigger] posits@[q]).identity == t
                ||| exists|q: int, a: int|
                    0 <= q < k + 1 && 0 <= a < posits@[q].appearances@.len() && ((#[trigger] posits@[q].appearances@[a]).0 == t
                        || posits@[q].appearances@[a].1 == t)
            }))) by {
                assert forall|t: u64| ids@.to_set().contains(t) implies role_part.union(Set::new(|t: u64| {
                    ||| exists|q: int| 0 <= q < k + 1 && (#[trigger] posits@[q]).identity == t
                    ||| exists|q: int, a: int|
                        0 <= q < k + 1 && 0 <= a < posits@[q].appearances@.len() && ((#[trigger] posits@[q].appearances@[a]).0 == t
                            || posits@[q].appearances@[a].1 == t)
                })).contains(t) by {
                    if t == posit.identity {
                        assert(posits@[k as int].identity == t);
                    } else if !before_posit.contains(t) {
                        let b = choose|b: int| 0 <= b < posit.appearances@.len() && ((#[trigger] posit.appearances@[b]).0 == t || posit.appearances@[b].1 == t);
                        assert(posits@[k as int].appearances@[b] == posit.appearances@[b]);
                    }
                }
                assert forall|t: u64| role_part.union(Set::new(|t: u64| {
                    ||| exists|q: int| 0 <= q < k + 1 && (#[trigger] posits@[q]).identity == t
                    ||| exists|q: int, a: int|
                        0 <= q < k + 1 && 0 <= a < posits@[q].appearances@.len() && ((#[trigger] posits@[q].appearances@[a]).0 == t
                            || posits@[q].appearances@[a].1 == t)
                })).contains(t) implies ids@.to_set().contains(t) by {
                    if (exists|q: int| 0 <= q < k + 1 && (#[trigger] posits@[q]).identity == t) {
                        let q = choose|q: int| 0 <= q < k + 1 && (#[trigger] posits@[q]).identity == t;
                        if q < k {
                            assert(exists|q2: int| 0 <= q2 < k && (#[trigger] posits@[q2]).identity == t);
                        }
                    }
                    if (exists|q: int, a: int|
                        0 <= q < k + 1 && 0 <= a < posits@[q].appearances@.len() && ((#[trigger] posits@[q].appearances@[a]).0 == t
                            || posits@[q].appearances@[a].1 == t)) {
                        let (q, a) = choose|q: int, a: int|
                            0 <= q < k + 1 && 0 <= a < posits@[q].appearances@.len() && ((#[trigger] posits@[q].appearances@[a]).0 == t
                                || posits@[q].appearances@[a].1 == t);
                        if q < k {
                            assert(exists|q2: int, a2: int|
                                0 <= q2 < k && 0 <= a2 < posits@[q2].appearances@.len() && ((#[trigger] posits@[q2].appearances@[a2]).0 == t
                                    || posits@[q2].appearances@[a2].1 == t));
                        } else {
                            assert(posit.appearances@[a] == posits@[k as int].appearances@[a]);
                            assert(exists|b: int| 0 <= b < posit.appearances@.len() && ((#[trigger] posit.appearances@[b]).0 == t || posit.appearances@[b].1 == t));
                        }
                    }
                }
            }
        }
        k = k + 1;
    }
    proof {
        assert(ids@.to_set() =~= referenced(roles@, posits@));
    }
    ids
}

/// The destination of an imported identity: built-in identities keep
/// their number; the others, in increasing order, take the numbers from
/// 6 up, skipping a number equal to the identity itself.
pub open spec fn remap_ok(sources: Seq<u64>, map: Seq<(u64, u64)>) -> bool {
    &&& map.len() == sources.len()
    &&& forall|i: int| 0 <= i < map.len() ==> (#[trigger] map[i]).0 == sources[i]
    &&& forall|i: int|
        0 <= i < map.len() ==> ((1 <= (#[trigger] map[i]).0 <= LAST_BUILTIN_IDENTITY) ==> map[i].1 == map[i].0)
    &&& forall|i: int|
        0 <= i < map.len() ==> (!(1 <= (#[trigger] map[i]).0 <= LAST_BUILTIN_IDENTITY) ==> map[i].1 >= FIRST_IMPORTED_IDENTITY
            && map[i].1 != map[i].0)
    &&& forall|i: int, j: int|
        0 <= i < j < map.len() && !(1 <= map[i].0 <= LAST_BUILTIN_IDENTITY) && !(1 <= map[j].0 <= LAST_BUILTIN_IDENTITY)
            ==> (#[trigger] map[i]).1 < (#[trigger] map[j]).1
}

/// Renumbers the given identities, in increasing order, for a fresh
/// store.
pub fn build_identity_map(sources: &[u64]) -> (r: Result<Vec<(u64, u64)>, DatabaseError>)
    requires
        increasing(sources@),
    ensures
        r matches Ok(map) ==> remap_ok(sources@, map@),
        r matches Err(e) ==> e is Invariant,
{
    let mut map: Vec<(u64, u64)> = Vec::new();
    let mut next: u64 = FIRST_IMPORTED_IDENTITY;
    let mut i: usize = 0;
    while i < sources.len()
        invariant
            i <= sources@.len(),
            increasing(sources@),
            next >= FIRST_IMPORTED_IDENTITY,
            remap_ok(sources@.subrange(0, i as int), map@),
            forall|k: int| 0 <= k < map@.len() && !(1 <= map@[k].0 <= LAST_BUILTIN_IDENTITY) ==> (#[trigger] map@[k]).1 < next,
        decreases sources@.len() - i,
    {
        let source = sources[i];
        let destination = if 1 <= source && source <= LAST_BUILTIN_IDENTITY {
            source
        } else {
            if next == source {
                next = match next.checked_add(1) {
                    Some(n) => n,
                    None => {
                        return Err(DatabaseError::Invariant(String::from_str("identity space exhausted during import")));
                    },
                };
            }
            let d = next;
            next = match next.checked_add(1) {
                Some(n) => n,
                None => {
                    return Err(DatabaseError::Invariant(String::from_str("identity space exhausted during import")));
                },
            };
            d
        };
        map.push((source, destination));
        proof {
            assert(sources@.subrange(0, i + 1) =~= sources@.subrange(0, i as int).push(source));
        }
        i = i + 1;
    }
    proof {
        assert(sources@.subrange(0, sources@.len() as int) =~= sources@);
    }
    Ok(map)
}

/// Distinct imported identities never share a destination.
pub proof fn remap_is_injective(sources: Seq<u64>, map: Seq<(u64, u64)>, i: int, j: int)
    requires
        increasing(sources),
        remap_ok(sources, map),
        0 <= i < map.len(),
        0 <= j < map.len(),
        i != j,
    ensures
        map[i].1 != map[j].1,
{
    if i < j {
        assert(sources[i] < sources[j]);
    } else {
        assert(sources[j] < sources[i]);
    }
}

/// The destination of the first entry of `map` for `source`.
pub open spec fn lookup_map(map: Seq<(u64, u64)>, source: u64) -> Option<u64>
    decreases map.len(),
{
    if map.len() == 0 {
        None
    } else if map[0].0 == source {
        Some(map[0].1)
    } else {
        lookup_map(map.drop_first(), source)
    }
}

proof fn lemma_lookup_map(map: Seq<(u64, u64)>, source: u64, i: int)
    requires
        0 <= i <= map.len(),
        forall|k: int| 0 <= k < i ==> (#[trigger] map[k]).0 != source,
    ensures
        lookup_map(map, source) == lookup_map(map.skip(i), source),
    decreases i,
{
    if i > 0 {
        assert(map.skip(1) =~= map.drop_first());
        assert forall|k: int| 0 <= k < i - 1 implies (#[trigger] map.drop_first()[k]).0 != source by {
            assert(map.drop_first()[k] == map[k + 1]);
        }
        lemma_lookup_map(map.drop_first(), source, i - 1);
        assert(map.drop_first().skip(i - 1) =~= map.skip(i));
    } else {
        assert(map.skip(0) =~= map);
    }
}

/// The destination of `source` in an identity map: that of its first entry.
pub fn mapped(map: &[(u64, u64)], source: u64) -> (r: Result<u64, DatabaseError>)
    ensures
        r matches Ok(d) ==> exists|i: int| 0 <= i < map@.len() && (#[trigger] map@[i]) == (source, d),
        r matches Ok(d) ==> lookup_map(map@, source) == Some(d),
        r is Err <==> forall|i: int| 0 <= i < map@.len() ==> (#[trigger] map@[i]).0 != source,
        r is Err <==> lookup_map(map@, source) is None,
        r matches Err(e) ==> e is Invariant,
{
    let mut i: usize = 0;
    while i < map.len()
        invariant
            i <= map@.len(),
            forall|k: int| 0 <= k < i ==> (#[trigger] map@[k]).0 != source,
        decreases map@.len() - i,
    {
        if map[i].0 == source {
            proof {
                lemma_lookup_map(map@, source, i as int);
                assert(map@.skip(i as int)[0] == map@[i as int]);
            }
            return Ok(map[i].1);
        }
        i = i + 1;
    }
    proof {
        lemma_lookup_map(map@, source, i as int);
        assert(map@.skip(i as int) =~= Seq::<(u64, u64)>::empty());
    }
    Err(DatabaseError::Invariant(String::from_str("identity is absent from the import remap")))
}

/// Whether two posits state the same proposition.
pub fn same_proposition(a: &ReplayedPosit, b: &ReplayedPosit) -> (r: bool)
    ensures
        r == (crate::storage::proposition_of(*a) == crate::storage::proposition_of(*b)),
{
    let r = crate::storage::pairs_equal(&a.appearances, &b.appearances) && a.value.exactly_equals(&b.value)
        && a.time == b.time;
    proof {
        if a.time.moment_spec() == b.time.moment_spec() {
            crate::datatype::times_equal_by_moment(a.time, b.time);
        }
    }
    r
}

fn role_present(roles: &[ReplayedRole], identity: u64) -> (r: bool)
    ensures
        r == crate::storage::role_listed(roles@, identity),
{
    let mut i: usize = 0;
    while i < roles.len()
        invariant
            i <= roles@.len(),
            forall|k: int| 0 <= k < i ==> (#[trigger] roles@[k]).identity != identity,
        decreases roles@.len() - i,
    {
        if roles[i].identity == identity {
            return true;
        }
        i = i + 1;
    }
    false
}

fn builtin_role_present(roles: &[ReplayedRole], identity: u64, name: &str) -> (r: bool)
    ensures
        r == builtin_present(roles@, identity, name@),
{
    let wanted = String::from_str(name);
    let mut i: usize = 0;
    while i < roles.len()
        invariant
            i <= roles@.len(),
            wanted@ == name@,
            forall|k: int| 0 <= k < i ==> !((#[trigger] roles@[k]).identity == identity && roles@[k].name@ == name@ && roles@[k].reserved),
        decreases roles@.len() - i,
    {
        if roles[i].identity == identity && roles[i].name == wanted && roles[i].reserved {
            return true;
        }
        i = i + 1;
    }
    false
}

fn import_error() -> (e: DatabaseError)
    ensures
        e matches DatabaseError::DataCorruption { message } && message@ == "logical export fails validation"@,
{
    DatabaseError::DataCorruption { message: String::from_str("logical export fails validation") }
}

/// Checks an imported store before anything is written: identities,
/// names, the built-in roles, appearance sets, known roles and distinct
/// propositions.
pub fn validate_imported(roles: &[ReplayedRole], posits: &[ReplayedPosit]) -> (r: Result<(), DatabaseError>)
    ensures
        r is Ok <==> import_ok(roles@, posits@),
        r matches Err(e) ==> e matches DatabaseError::DataCorruption { message } && message@
            == "logical export fails validation"@,
{
    let mut i: usize = 0;
    while i < roles.len()
        invariant
            i <= roles@.len(),
            forall|k: int| 0 <= k < i ==> (#[trigger] roles@[k]).identity != 0,
            forall|k: int, l: int| 0 <= k < l < i ==> (#[trigger] roles@[k]).identity != (#[trigger] roles@[l]).identity
                && roles@[k].name@ != roles@[l].name@,
        decreases roles@.len() - i,
    {
        if roles[i].identity == 0 {
            return Err(import_error());
        }
        let mut j: usize = 0;
        while j < i
            invariant
                i < roles@.len(),
                j <= i,
                forall|k: int| 0 <= k < j ==> (#[trigger] roles@[k]).identity != roles@[i as int].identity
                    && roles@[k].name@ != roles@[i as int].name@,
            decreases i - j,
        {
            if roles[j].identity == roles[i].identity || roles[j].name == roles[i].name {
                return Err(import_error());
            }
            j = j + 1;
        }
        i = i + 1;
    }
    if !builtin_role_present(roles, POSIT_ROLE_ID, "posit") || !builtin_role_present(roles, ASCERTAINS_ROLE_ID, "ascertains") {
        return Err(import_error());
    }
    let mut k: usize = 0;
    while k < posits.len()
        invariant
            k <= posits@.len(),
            forall|q: int| 0 <= q < k ==> (#[trigger] posits@[q]).identity != 0,
            forall|q: int, x: int| 0 <= q < k && 0 <= x < roles@.len() ==> (#[trigger] posits@[q]).identity
                != (#[trigger] roles@[x]).identity,
            forall|q: int, l: int| 0 <= q < l < k ==> (#[trigger] posits@[q]).identity != (#[trigger] posits@[l]).identity,
            forall|q: int| 0 <= q < k ==> import_appearances_ok((#[trigger] posits@[q]).appearances@),
            forall|q: int| 0 <= q < k ==> crate::storage::roles_known(roles@, (#[trigger] posits@[q]).appearances@),
            forall|q: int, l: int| 0 <= q < l < k ==> crate::storage::proposition_of(#[trigger] posits@[q])
                != crate::storage::proposition_of(#[trigger] posits@[l]),
        decreases posits@.len() - k,
    {
        let posit = &posits[k];
        if posit.identity == 0 || role_present(roles, posit.identity) {
            return Err(import_error());
        }
        let mut q: usize = 0;
        while q < k
            invariant
                k < posits@.len(),
                q <= k,
                forall|x: int| 0 <= x < q ==> (#[trigger] posits@[x]).identity != posits@[k as int].identity
                    && crate::storage::proposition_of(posits@[x]) != crate::storage::proposition_of(posits@[k as int]),
            decreases k - q,
        {
            if posits[q].identity == posits[k].identity || same_proposition(&posits[q], &posits[k]) {
                return Err(import_error());
            }
            q = q + 1;
        }
        let n = posit.appearances.len();
        if n == 0 {
            return Err(import_error());
        }
        let mut a: usize = 0;
        while a < n
            invariant
                k < posits@.len(),
                *posit == posits@[k as int],
                n == posit.appearances@.len(),
                a <= n,
                forall|b: int| 0 <= b < a ==> (#[trigger] posit.appearances@[b]).0 != 0 && posit.appearances@[b].1 != 0,
                forall|b: int| 0 <= b < a && b < n - 1 ==> (#[trigger] posit.appearances@[b]).0 != posit.appearances@[b + 1].0,
                forall|b: int| 0 <= b < a ==> crate::storage::role_listed(roles@, (#[trigger] posit.appearances@[b]).0),
            decreases n - a,
        {
            let (role, thing) = posit.appearances[a];
            if role == 0 || thing == 0 || !role_present(roles, role) {
                proof {
                    assert(posits@[k as int].appearances@[a as int] == (role, thing));
                }
                return Err(import_error());
            }
            if a + 1 < n && posit.appearances[a + 1].0 == role {
                proof {
                    assert(posits@[k as int].appearances@[a as int] == (role, thing));
                    assert(!import_appearances_ok(posits@[k as int].appearances@));
                }
                return Err(import_error());
            }
            a = a + 1;
        }
        proof {
            assert(crate::storage::roles_known(roles@, posits@[k as int].appearances@));
        }
        k = k + 1;
    }
    Ok(())
}

proof fn lemma_hex_char(d: nat)
    requires
        d < 16,
    ensures
        hex_value(hex_char(d)) == Some(d),
        hex_char(d) != '-',
        hex_char(d) != '+',
        (hex_char(d) as u32) < 128,
{
    if d == 0 { assert(hex_char(d) == '0'); }
    else if d == 1 { assert(hex_char(d) == '1'); }
    else if d == 2 { assert(hex_char(d) == '2'); }
    else if d == 3 { assert(hex_char(d) == '3'); }
    else if d == 4 { assert(hex_char(d) == '4'); }
    else if d == 5 { assert(hex_char(d) == '5'); }
    else if d == 6 { assert(hex_char(d) == '6'); }
    else if d == 7 { assert(hex_char(d) == '7'); }
    else if d == 8 { assert(hex_char(d) == '8'); }
    else if d == 9 { assert(hex_char(d) == '9'); }
    else if d == 10 { assert(hex_char(d) == 'a'); }
    else if d == 11 { assert(hex_char(d) == 'b'); }
    else if d == 12 { assert(hex_char(d) == 'c'); }
    else if d == 13 { assert(hex_char(d) == 'd'); }
    else if d == 14 { assert(hex_char(d) == 'e'); }
    else { assert(hex_char(d) == 'f'); }
}

proof fn lemma_bytes_hex(bytes: Seq<u8>, from: int, to: int)
    requires
        0 <= from <= to <= bytes.len(),
    ensures
        bytes_hex(bytes, from, to).len() == 2 * (to - from),
        forall|j: int|
            from <= j < to ==> bytes_hex(bytes, from, to)[2 * (j - from)] == hex_char((#[trigger] bytes[j]) as nat / 16)
                && bytes_hex(bytes, from, to)[2 * (j - from) + 1] == hex_char(bytes[j] as nat % 16),
    decreases to - from,
{
    if to > from {
        lemma_bytes_hex(bytes, from, to - 1);
        let b = bytes[to - 1];
        assert(hex_text(b as nat / 16, 1) == hex_text((b as nat / 16) / 16, 0) + seq![hex_char((b as nat / 16) % 16)]);
        assert(byte_hex(b) == hex_text(b as nat / 16, 1) + seq![hex_char(b as nat % 16)]);
        assert((b as nat / 16) % 16 == b as nat / 16);
        assert(byte_hex(b).len() == 2);
        assert(byte_hex(b)[0] == hex_char(b as nat / 16));
        assert(byte_hex(b)[1] == hex_char(b as nat % 16));
    }
}

/// The canonical text of a store identity reads back as that identity:
/// it has the syntax of one, is canonical, and denotes the same bytes.
pub proof fn store_identity_text_round_trip(uuid: Seq<u8>)
    requires
        uuid.len() == 16,
    ensures
        uuid_syntax(uuid_text(uuid)),
        uuid_bytes_of(uuid_text(uuid)) == uuid,
        canonical_uuid(uuid_text(uuid)),
{
    let t = uuid_text(uuid);
    let a = bytes_hex(uuid, 0, 4);
    let b = bytes_hex(uuid, 4, 6);
    let c = bytes_hex(uuid, 6, 8);
    let d = bytes_hex(uuid, 8, 10);
    let e = bytes_hex(uuid, 10, 16);
    lemma_bytes_hex(uuid, 0, 4);
    lemma_bytes_hex(uuid, 4, 6);
    lemma_bytes_hex(uuid, 6, 8);
    lemma_bytes_hex(uuid, 8, 10);
    lemma_bytes_hex(uuid, 10, 16);
    assert(t.len() == 36);
    // each digit position holds the nibbles of its byte
    assert forall|j: int| 0 <= j < 16 implies t[digit_position(2 * j)] == hex_char((#[trigger] uuid[j]) as nat / 16)
        && t[digit_position(2 * j + 1)] == hex_char(uuid[j] as nat % 16) by {
        if j < 4 {
            assert(t[2 * j] == a[2 * j]);
            assert(t[2 * j + 1] == a[2 * j + 1]);
        } else if j < 6 {
            assert(t[2 * j + 1] == b[2 * (j - 4)]);
            assert(t[2 * j + 2] == b[2 * (j - 4) + 1]);
        } else if j < 8 {
            assert(t[2 * j + 2] == c[2 * (j - 6)]);
            assert(t[2 * j + 3] == c[2 * (j - 6) + 1]);
        } else if j < 10 {
            assert(t[2 * j + 3] == d[2 * (j - 8)]);
            assert(t[2 * j + 4] == d[2 * (j - 8) + 1]);
        } else {
            assert(t[2 * j + 4] == e[2 * (j - 10)]);
            assert(t[2 * j + 5] == e[2 * (j - 10) + 1]);
        }
    }
    // every other position is a hyphen, every digit position a digit
    assert forall|i: int| 0 <= i < 36 implies ((#[trigger] t[i] as u32) < 128 && ((t[i] == '-') <==> (i == 8 || i == 13
        || i == 18 || i == 23))) by {
        if i == 8 || i == 13 || i == 18 || i == 23 {
        } else {
            let k = if i < 8 {
                i
            } else if i < 13 {
                i - 1
            } else if i < 18 {
                i - 2
            } else if i < 23 {
                i - 3
            } else {
                i - 4
            };
            assert(digit_position(k) == i);
            let j = k / 2;
            assert(0 <= j < 16);
            lemma_hex_char(uuid[j] as nat / 16);
            lemma_hex_char(uuid[j] as nat % 16);
            if k % 2 == 0 {
                assert(2 * j == k);
            } else {
                assert(2 * j + 1 == k);
            }
        }
    }
    assert forall|j: int| 0 <= j < 16 implies (#[trigger] pair_value(t[digit_position(2 * j)], t[digit_position(2 * j + 1)]))
        == Some(uuid[j] as nat) by {
        lemma_hex_char(uuid[j] as nat / 16);
        lemma_hex_char(uuid[j] as nat % 16);
    }
    assert(uuid_bytes_of(t) =~= uuid) by {
        assert forall|j: int| 0 <= j < 16 implies uuid_bytes_of(t)[j] == uuid[j] by {
            assert(pair_value(t[digit_position(2 * j)], t[digit_position(2 * j + 1)]) == Some(uuid[j] as nat));
        }
    }
}

// ---------------------------------------------------------------------------
// Reading a logical export
// ---------------------------------------------------------------------------

/// The bytes of a store identity written as `t`.
pub open spec fn uuid_bytes_of(t: Seq<char>) -> Seq<u8> {
    Seq::new(16, |j: int| pair_value(t[digit_position(2 * j)], t[digit_position(2 * j + 1)])->0 as u8)
}

/// `t` is a store identity in canonical lowercase form.
pub open spec fn canonical_uuid(t: Seq<char>) -> bool {
    uuid_syntax(t) && uuid_text(uuid_bytes_of(t)) == t
}

/// The byte is ASCII white space as Rust's `u8::is_ascii_whitespace` has it.
pub open spec fn ascii_space(b: u8) -> bool {
    b == 32 || b == 9 || b == 10 || b == 12 || b == 13
}

/// A line holds nothing but white space.
pub open spec fn blank_line(line: Seq<u8>) -> bool {
    forall|i: int| 0 <= i < line.len() ==> ascii_space(#[trigger] line[i])
}

/// Lexicographic order of (Role, Thing) pairs.
pub open spec fn pair_before(a: (u64, u64), b: (u64, u64)) -> bool {
    a.0 < b.0 || (a.0 == b.0 && a.1 < b.1)
}

/// Pairs in lexicographic order.
pub open spec fn pairs_sorted(s: Seq<(u64, u64)>) -> bool {
    forall|i: int, j: int| 0 <= i < j < s.len() ==> !pair_before(#[trigger] s[j], #[trigger] s[i])
}

/// The pairs sorted lexicographically.
pub fn sort_pairs(pairs: &Vec<(u64, u64)>) -> (out: Vec<(u64, u64)>)
    ensures
        out@.to_multiset() == pairs@.to_multiset(),
        pairs_sorted(out@),
{
    broadcast use vstd::seq_lib::to_multiset_build, vstd::seq_lib::to_multiset_insert;

    let mut out: Vec<(u64, u64)> = Vec::new();
    let mut i: usize = 0;
    assert(pairs@.take(0) =~= Seq::<(u64, u64)>::empty());
    while i < pairs.len()
        invariant
            i <= pairs@.len(),
            out@.to_multiset() == pairs@.take(i as int).to_multiset(),
            pairs_sorted(out@),
        decreases pairs@.len() - i,
    {
        let x = pairs[i];
        let mut p: usize = 0;
        while p < out.len() && !(x.0 < out[p].0 || (x.0 == out[p].0 && x.1 < out[p].1))
            invariant
                p <= out@.len(),
                forall|k: int| 0 <= k < p ==> !pair_before(x, #[trigger] out@[k]),
            decreases out@.len() - p,
        {
            p = p + 1;
        }
        let ghost before = out@;
        out.insert(p, x);
        proof {
            assert(pairs@.take(i + 1) =~= pairs@.take(i as int).push(x));
            vstd::seq_lib::to_multiset_insert(before, p as int, x);
            vstd::seq_lib::to_multiset_build(pairs@.take(i as int), x);
        }
        i = i + 1;
    }
    assert(pairs@.take(i as int) =~= pairs@);
    out
}

/// The logical content of an export, read and checked.
#[derive(Debug)]
pub struct ImportedStore {
    pub uuid: String,
    pub roles: Vec<ReplayedRole>,
    pub posits: Vec<ReplayedPosit>,
}

/// The (Role, Thing) pairs of a posit's appearances.
pub open spec fn appearance_pairs(appearances: Seq<LogicalAppearance>) -> Seq<(u64, u64)> {
    appearances.map_values(|a: LogicalAppearance| (a.role.local, a.thing.local))
}

/// Every identity of the appearances belongs to store `uuid`.
pub open spec fn appearances_of_store(appearances: Seq<LogicalAppearance>, uuid: Seq<char>) -> bool {
    forall|a: int| 0 <= a < appearances.len() ==> (#[trigger] appearances[a]).role.store_uuid@ == uuid
        && appearances[a].thing.store_uuid@ == uuid
}

/// A logical time that denotes a storable time.
pub open spec fn denotes_time(time: LogicalTime) -> bool {
    exists|m: TimeType| persistable_moment(m) && #[trigger] logical_of(m) == time
}

/// Reads a logical export one line at a time: the Header first and only
/// once, Role records before Posit records, every identity of the source
/// store.
#[derive(Debug)]
pub struct ExportReader {
    line_number: usize,
    uuid: Option<String>,
    roles: Vec<ReplayedRole>,
    posits: Vec<ReplayedPosit>,
    saw_posit: bool,
}

impl ExportReader {
    /// The number of lines read.
    pub closed spec fn lines(&self) -> nat {
        self.line_number as nat
    }

    /// The source store identity, once the Header is read.
    pub closed spec fn source(&self) -> Option<Seq<char>> {
        match self.uuid {
            Some(u) => Some(u@),
            None => None,
        }
    }

    pub closed spec fn roles_read(&self) -> Seq<ReplayedRole> {
        self.roles@
    }

    pub closed spec fn posits_read(&self) -> Seq<ReplayedPosit> {
        self.posits@
    }

    /// A Posit record was read.
    pub closed spec fn posits_started(&self) -> bool {
        self.saw_posit
    }

    pub fn new() -> (r: Self)
        ensures
            r.lines() == 0,
            r.source() is None,
            r.roles_read() == Seq::<ReplayedRole>::empty(),
            r.posits_read() == Seq::<ReplayedPosit>::empty(),
            !r.posits_started(),
    {
        ExportReader { line_number: 0, uuid: None, roles: Vec::new(), posits: Vec::new(), saw_posit: false }
    }

    /// Counts the next line; a line of white space only is refused.
    /// Gives the line's number.
    pub fn next_line(&mut self, line: &[u8]) -> (r: Result<usize, DatabaseError>)
        requires
            old(self).lines() < usize::MAX,
        ensures
            final(self).lines() == old(self).lines() + 1,
            final(self).source() == old(self).source(),
            final(self).roles_read() == old(self).roles_read(),
            final(self).posits_read() == old(self).posits_read(),
            final(self).posits_started() == old(self).posits_started(),
            r is Ok <==> !blank_line(line@),
            r matches Ok(n) ==> n == final(self).lines(),
            r matches Err(e) ==> e is DataCorruption,
    {
        self.line_number = self.line_number + 1;
        let mut i: usize = 0;
        while i < line.len()
            invariant
                i <= line@.len(),
                old(self).line_number < usize::MAX,
                *self == (ExportReader { line_number: (old(self).line_number + 1) as usize, ..*old(self) }),
                forall|k: int| 0 <= k < i ==> ascii_space(#[trigger] line@[k]),
            decreases line@.len() - i,
        {
            let b = line[i];
            if !(b == 32 || b == 9 || b == 10 || b == 12 || b == 13) {
                return Ok(self.line_number);
            }
            i = i + 1;
        }
        let mut m = String::from_str("logical export line ");
        crate::text::push_decimal(&mut m, self.line_number as u64);
        m.append(" is empty");
        Err(DatabaseError::DataCorruption { message: m })
    }

    /// Takes the record of the current line.
    pub fn accept(&mut self, record: LogicalRecord) -> (r: Result<(), DatabaseError>)
        ensures
            r matches Err(e) ==> e is DataCorruption,
            final(self).lines() == old(self).lines(),
            match record {
                LogicalRecord::Header { format, version, source_store_uuid } => {
                    &&& (r is Ok <==> old(self).lines() == 1 && old(self).source() is None && format@
                        == LOGICAL_EXPORT_FORMAT@ && version == LOGICAL_EXPORT_VERSION && canonical_uuid(
                        source_store_uuid@,
                    ))
                    &&& (r is Ok ==> final(self).source() == Some(source_store_uuid@) && final(self).roles_read()
                        == old(self).roles_read() && final(self).posits_read() == old(self).posits_read()
                        && final(self).posits_started() == old(self).posits_started())
                },
                LogicalRecord::Role { identity, name, reserved } => {
                    &&& (r is Ok <==> (old(self).source() matches Some(u) && !old(self).posits_started()
                        && identity.store_uuid@ == u))
                    &&& (r is Ok ==> final(self).source() == old(self).source() && final(self).roles_read()
                        == old(self).roles_read().push(ReplayedRole { identity: identity.local, name, reserved })
                        && final(self).posits_read() == old(self).posits_read() && final(self).posits_started()
                        == old(self).posits_started())
                },
                LogicalRecord::Posit { .. } => {
                    &&& (r is Ok <==> (old(self).source() matches Some(u) && accepts_posit(record, u)))
                    &&& (r is Ok ==> {
                        &&& final(self).source() == old(self).source()
                        &&& final(self).roles_read() == old(self).roles_read()
                        &&& final(self).posits_started()
                        &&& final(self).posits_read().drop_last() == old(self).posits_read()
                        &&& final(self).posits_read().len() == old(self).posits_read().len() + 1
                        &&& read_as(final(self).posits_read().last(), record)
                    })
                },
            },
    {
        match record {
            LogicalRecord::Header { format, version, source_store_uuid } => {
                if self.line_number != 1 || self.uuid.is_some() {
                    return Err(corruption("logical export Header must be the first and only header"));
                }
                let expected = String::from_str(LOGICAL_EXPORT_FORMAT);
                if !(format == expected) || version != LOGICAL_EXPORT_VERSION {
                    return Err(corruption("unsupported logical export format or version"));
                }
                let parsed = parse_uuid(source_store_uuid.as_str())?;
                let canonical = format_uuid(&parsed);
                proof {
                    assert(parsed@ =~= uuid_bytes_of(source_store_uuid@));
                }
                if !(canonical == source_store_uuid) {
                    return Err(corruption("source store UUID is not in canonical lowercase form"));
                }
                self.uuid = Some(source_store_uuid);
                Ok(())
            },
            LogicalRecord::Role { identity, name, reserved } => {
                let source = match &self.uuid {
                    Some(u) => u,
                    None => {
                        return Err(corruption("logical export is missing its Header"));
                    },
                };
                if self.saw_posit {
                    return Err(corruption("Role records must precede Posit records"));
                }
                let local = validate_external(&identity, source.as_str())?;
                self.roles.push(ReplayedRole { identity: local, name, reserved });
                Ok(())
            },
            LogicalRecord::Posit { identity, appearances, literal, time } => {
                let source = match &self.uuid {
                    Some(u) => u.clone(),
                    None => {
                        return Err(corruption("logical export is missing its Header"));
                    },
                };
                self.saw_posit = true;
                let mut decoded: Vec<(u64, u64)> = Vec::new();
                let mut a: usize = 0;
                while a < appearances.len()
                    invariant
                        a <= appearances@.len(),
                        record == (LogicalRecord::Posit { identity, appearances, literal, time }),
                        *self == (ExportReader { saw_posit: true, ..*old(self) }),
                        old(self).source() == Some(source@),
                        decoded@ == appearance_pairs(appearances@).take(a as int),
                        forall|b: int| 0 <= b < a ==> (#[trigger] appearances@[b]).role.store_uuid@ == source@
                            && appearances@[b].thing.store_uuid@ == source@,
                    decreases appearances@.len() - a,
                {
                    let role = validate_external(&appearances[a].role, source.as_str())?;
                    let thing = validate_external(&appearances[a].thing, source.as_str())?;
                    decoded.push((role, thing));
                    proof {
                        assert(appearance_pairs(appearances@).take(a + 1) =~= appearance_pairs(appearances@).take(
                            a as int,
                        ).push((role, thing)));
                    }
                    a = a + 1;
                }
                proof {
                    assert(appearance_pairs(appearances@).take(a as int) =~= appearance_pairs(appearances@));
                }
                let sorted = sort_pairs(&decoded);
                let family = parse_family(literal.family.as_str())?;
                let value = match crate::literal::LiteralValue::new(literal.token, family) {
                    Ok(v) => v,
                    Err(_) => {
                        proof {
                            assert forall|f: LiteralFamily| #[trigger] family_text(f) == literal.family@ implies !valid_literal(
                                literal.token@,
                                f,
                            ) by {
                                lemma_family_text_injective(f, family);
                            }
                        }
                        return Err(corruption("invalid logical export literal"));
                    },
                };
                let local = validate_external(&identity, source.as_str())?;
                let t = match time.into_time() {
                    Ok(t) => t,
                    Err(e) => {
                        return Err(e);
                    },
                };
                let ghost before = self.posits@;
                self.posits.push(ReplayedPosit { identity: local, appearances: sorted, value, time: t });
                proof {
                    assert(self.posits@.drop_last() =~= before);
                }
                Ok(())
            },
        }
    }

    /// The export as read, once every line is: refused without a Header or
    /// where it fails the import checks.
    pub fn finish(self) -> (r: Result<ImportedStore, DatabaseError>)
        ensures
            r is Ok <==> self.source() is Some && import_ok(self.roles_read(), self.posits_read()),
            r matches Ok(store) ==> Some(store.uuid@) == self.source() && store.roles@ == self.roles_read()
                && store.posits@ == self.posits_read(),
            r matches Err(e) ==> e is DataCorruption,
    {
        let uuid = match self.uuid {
            Some(u) => u,
            None => {
                return Err(corruption("logical export has no Header"));
            },
        };
        validate_imported(self.roles.as_slice(), self.posits.as_slice())?;
        Ok(ImportedStore { uuid, roles: self.roles, posits: self.posits })
    }
}

fn corruption(message: &str) -> (e: DatabaseError)
    ensures
        e matches DatabaseError::DataCorruption { message: m } && m@ == message@,
{
    DatabaseError::DataCorruption { message: String::from_str(message) }
}

/// Distinct families have distinct names.
pub proof fn lemma_family_text_injective(a: LiteralFamily, b: LiteralFamily)
    requires
        family_text(a) == family_text(b),
    ensures
        a == b,
{
    reveal_strlit("string");
    reveal_strlit("integer");
    reveal_strlit("decimal");
    reveal_strlit("certainty");
    reveal_strlit("json");
    reveal_strlit("time");
    assert("string"@.len() != "integer"@.len());
    assert("decimal"@[0] != "certainty"@[0]);
    assert("decimal"@.len() != "certainty"@.len());
    assert("json"@.len() != "time"@.len() || "json"@[0] != "time"@[0]);
    assert("integer"@.len() == "decimal"@.len() ==> "integer"@[0] != "decimal"@[0]);
}

// ---------------------------------------------------------------------------
// Writing a logical export
// ---------------------------------------------------------------------------

/// The Header record of an export of store `uuid`.
pub fn header_record(uuid: &str) -> (r: LogicalRecord)
    ensures
        r matches LogicalRecord::Header { format, version, source_store_uuid } && format@ == LOGICAL_EXPORT_FORMAT@
            && version == LOGICAL_EXPORT_VERSION && source_store_uuid@ == uuid@,
{
    LogicalRecord::Header {
        format: String::from_str(LOGICAL_EXPORT_FORMAT),
        version: LOGICAL_EXPORT_VERSION,
        source_store_uuid: String::from_str(uuid),
    }
}

/// The export record of a role of store `uuid`.
pub fn role_export_record(uuid: &str, role: &ReplayedRole) -> (r: LogicalRecord)
    ensures
        r matches LogicalRecord::Role { identity, name, reserved } && identity.store_uuid@ == uuid@ && identity.local
            == role.identity && name@ == role.name@ && reserved == role.reserved,
{
    LogicalRecord::Role {
        identity: external_identity(uuid, role.identity),
        name: role.name.clone(),
        reserved: role.reserved,
    }
}

/// `record` is what an export writes for posit `p` of store `uuid`.
pub open spec fn exported_posit(record: LogicalRecord, uuid: Seq<char>, p: ReplayedPosit) -> bool {
    record matches LogicalRecord::Posit { identity, appearances, literal, time } && identity.store_uuid@ == uuid
        && identity.local == p.identity && appearance_pairs(appearances@) == p.appearances@ && appearances_of_store(
        appearances@,
        uuid,
    ) && literal.family@ == family_text(p.value.family_spec()) && literal.token@ == p.value.token_spec() && time
        == logical_of(p.time.moment_spec())
}

/// A reader of store `uuid` takes the posit record `record`: its
/// identities are of that store, its literal is valid in its family, and
/// its time denotes a storable time.
pub open spec fn accepts_posit(record: LogicalRecord, uuid: Seq<char>) -> bool {
    record matches LogicalRecord::Posit { identity, appearances, literal, time } && appearances_of_store(
        appearances@,
        uuid,
    ) && (exists|f: LiteralFamily| #[trigger] family_text(f) == literal.family@ && valid_literal(literal.token@, f))
        && identity.store_uuid@ == uuid && denotes_time(time)
}

/// `q` is the posit a reader reads from the posit record `record`.
pub open spec fn read_as(q: ReplayedPosit, record: LogicalRecord) -> bool {
    record matches LogicalRecord::Posit { identity, appearances, literal, time } && q.identity == identity.local
        && q.appearances@.to_multiset() == appearance_pairs(appearances@).to_multiset() && pairs_sorted(q.appearances@)
        && q.value.token_spec() == literal.token@ && family_text(q.value.family_spec()) == literal.family@ && logical_of(
        q.time.moment_spec(),
    ) == time && persistable_moment(q.time.moment_spec())
}

/// A posit an export writes reads back as itself: a reader of the same
/// store takes its record, and the posit it reads has the same identity,
/// appearances, value and time.
pub proof fn exported_posits_read_back(record: LogicalRecord, uuid: Seq<char>, p: ReplayedPosit, q: ReplayedPosit)
    requires
        exported_posit(record, uuid, p),
        valid_literal(p.value.token_spec(), p.value.family_spec()),
        persistable_moment(p.time.moment_spec()),
    ensures
        accepts_posit(record, uuid),
        read_as(q, record) ==> {
            &&& q.identity == p.identity
            &&& q.appearances@.to_multiset() == p.appearances@.to_multiset()
            &&& q.value.token_spec() == p.value.token_spec()
            &&& q.value.family_spec() == p.value.family_spec()
            &&& q.time.moment_spec() == p.time.moment_spec()
        },
{
    if let LogicalRecord::Posit { identity, appearances, literal, time } = record {
        assert(family_text(p.value.family_spec()) == literal.family@ && valid_literal(literal.token@, p.value.family_spec()));
        assert(persistable_moment(p.time.moment_spec()) && logical_of(p.time.moment_spec()) == time);
        if read_as(q, record) {
            lemma_family_text_injective(q.value.family_spec(), p.value.family_spec());
            logical_time_round_trip(p.time.moment_spec(), q.time.moment_spec());
        }
    }
}

/// The export record of a posit of store `uuid`: its appearances in their
/// order, its literal by family name and token, and its time by precision.
pub fn posit_export_record(uuid: &str, posit: &ReplayedPosit) -> (r: LogicalRecord)
    ensures
        exported_posit(r, uuid@, *posit),
{
    let mut appearances: Vec<LogicalAppearance> = Vec::new();
    let mut a: usize = 0;
    while a < posit.appearances.len()
        invariant
            a <= posit.appearances@.len(),
            appearance_pairs(appearances@) == posit.appearances@.take(a as int),
            appearances_of_store(appearances@, uuid@),
        decreases posit.appearances@.len() - a,
    {
        let (role, thing) = posit.appearances[a];
        let ghost before = appearances@;
        appearances.push(LogicalAppearance { role: external_identity(uuid, role), thing: external_identity(uuid, thing) });
        proof {
            assert(appearance_pairs(appearances@) =~= appearance_pairs(before).push((role, thing)));
            assert(posit.appearances@.take(a + 1) =~= posit.appearances@.take(a as int).push((role, thing)));
        }
        a = a + 1;
    }
    proof {
        assert(posit.appearances@.take(a as int) =~= posit.appearances@);
    }
    LogicalRecord::Posit {
        identity: external_identity(uuid, posit.identity),
        appearances,
        literal: LogicalLiteral {
            family: String::from_str(family_name(posit.value.family())),
            token: String::from_str(posit.value.token()),
        },
        time: LogicalTime::from_time(&posit.time),
    }
}

/// Roles in order of identity, as an export writes them.
pub fn roles_by_identity(roles: Vec<ReplayedRole>) -> (out: Vec<ReplayedRole>)
    ensures
        out@.to_multiset() == roles@.to_multiset(),
        forall|i: int, j: int| 0 <= i < j < out@.len() ==> (#[trigger] out@[i]).identity <= (#[trigger] out@[j]).identity,
{
    broadcast use vstd::seq_lib::to_multiset_build, vstd::seq_lib::to_multiset_insert;

    let ghost all = roles@;
    let mut pending = roles;
    let n = pending.len();
    let mut out: Vec<ReplayedRole> = Vec::new();
    let mut i: usize = 0;
    assert(all.take(0) =~= Seq::<ReplayedRole>::empty());
    assert(all.skip(0) =~= all);
    while i < n
        invariant
            n == all.len(),
            i <= n,
            pending@ == all.skip(i as int),
            out@.to_multiset() == all.take(i as int).to_multiset(),
            forall|a: int, b: int| 0 <= a < b < out@.len() ==> (#[trigger] out@[a]).identity <= (#[trigger] out@[b]).identity,
        decreases n - i,
    {
        let x = pending.remove(0);
        proof {
            assert(all.skip(i as int)[0] == all[i as int]);
            assert(pending@ =~= all.skip(i + 1));
        }
        let mut p: usize = 0;
        while p < out.len() && out[p].identity <= x.identity
            invariant
                p <= out@.len(),
                forall|k: int| 0 <= k < p ==> (#[trigger] out@[k]).identity <= x.identity,
            decreases out@.len() - p,
        {
            p = p + 1;
        }
        let ghost before = out@;
        let ghost xv = x;
        out.insert(p, x);
        proof {
            assert(all.take(i + 1) =~= all.take(i as int).push(xv));
            vstd::seq_lib::to_multiset_insert(before, p as int, xv);
            vstd::seq_lib::to_multiset_build(all.take(i as int), xv);
        }
        i = i + 1;
    }
    assert(all.take(i as int) =~= all);
    out
}

/// Posits in order of identity, as an export writes them.
pub fn posits_by_identity(posits: Vec<ReplayedPosit>) -> (out: Vec<ReplayedPosit>)
    ensures
        out@.to_multiset() == posits@.to_multiset(),
        forall|i: int, j: int| 0 <= i < j < out@.len() ==> (#[trigger] out@[i]).identity <= (#[trigger] out@[j]).identity,
{
    broadcast use vstd::seq_lib::to_multiset_build, vstd::seq_lib::to_multiset_insert;

    let ghost all = posits@;
    let mut pending = posits;
    let n = pending.len();
    let mut out: Vec<ReplayedPosit> = Vec::new();
    let mut i: usize = 0;
    assert(all.take(0) =~= Seq::<ReplayedPosit>::empty());
    assert(all.skip(0) =~= all);
    while i < n
        invariant
            n == all.len(),
            i <= n,
            pending@ == all.skip(i as int),
            out@.to_multiset() == all.take(i as int).to_multiset(),
            forall|a: int, b: int| 0 <= a < b < out@.len() ==> (#[trigger] out@[a]).identity <= (#[trigger] out@[b]).identity,
        decreases n - i,
    {
        let x = pending.remove(0);
        proof {
            assert(all.skip(i as int)[0] == all[i as int]);
            assert(pending@ =~= all.skip(i + 1));
        }
        let mut p: usize = 0;
        while p < out.len() && out[p].identity <= x.identity
            invariant
                p <= out@.len(),
                forall|k: int| 0 <= k < p ==> (#[trigger] out@[k]).identity <= x.identity,
            decreases out@.len() - p,
        {
            p = p + 1;
        }
        let ghost before = out@;
        let ghost xv = x;
        out.insert(p, x);
        proof {
            assert(all.take(i + 1) =~= all.take(i as int).push(xv));
            vstd::seq_lib::to_multiset_insert(before, p as int, xv);
            vstd::seq_lib::to_multiset_build(all.take(i as int), xv);
        }
        i = i + 1;
    }
    assert(all.take(i as int) =~= all);
    out
}

// ---------------------------------------------------------------------------
// Moving an import into a fresh store
// ---------------------------------------------------------------------------

/// `map` sends `source` to `destination`.
pub open spec fn maps_to(map: Seq<(u64, u64)>, source: u64, destination: u64) -> bool {
    exists|i: int| 0 <= i < map.len() && (#[trigger] map[i]) == (source, destination)
}

/// `map` has an entry for `source`.
pub open spec fn maps(map: Seq<(u64, u64)>, source: u64) -> bool {
    exists|i: int| 0 <= i < map.len() && (#[trigger] map[i]).0 == source
}

/// An imported role under its new identity, with the record that stores it.
pub fn remapped_role(map: &[(u64, u64)], role: &ReplayedRole) -> (r: Result<
    (ReplayedRole, crate::storage::PendingRecord),
    DatabaseError,
>)
    ensures
        r is Ok <==> maps(map@, role.identity),
        r matches Ok((moved, record)) ==> maps_to(map@, role.identity, moved.identity) && moved.name@ == role.name@
            && moved.reserved == role.reserved && record.record_type == crate::storage::RECORD_ROLE
            && record.payload@ == crate::storage::role_payload(moved.identity, role.reserved, vstd::utf8::encode_utf8(role.name@)),
        r matches Err(e) ==> e is Invariant,
{
    let identity = match mapped(map, role.identity) {
        Ok(identity) => identity,
        Err(e) => {
            return Err(e);
        },
    };
    let record = crate::storage::role_record_parts(identity, role.name.as_str(), role.reserved);
    Ok((ReplayedRole { identity, name: role.name.clone(), reserved: role.reserved }, record))
}

/// The pairs with both identities sent through `map`, where each has an
/// entry.
pub open spec fn remap_pairs(map: Seq<(u64, u64)>, pairs: Seq<(u64, u64)>) -> Option<Seq<(u64, u64)>>
    decreases pairs.len(),
{
    if pairs.len() == 0 {
        Some(Seq::empty())
    } else {
        match (remap_pairs(map, pairs.drop_last()), lookup_map(map, pairs.last().0), lookup_map(map, pairs.last().1)) {
            (Some(front), Some(role), Some(thing)) => Some(front.push((role, thing))),
            _ => None,
        }
    }
}

proof fn lemma_remap_pairs_stays_none(map: Seq<(u64, u64)>, pairs: Seq<(u64, u64)>, k: int)
    requires
        0 <= k <= pairs.len(),
        remap_pairs(map, pairs.take(k)) is None,
    ensures
        remap_pairs(map, pairs) is None,
    decreases pairs.len() - k,
{
    if k < pairs.len() {
        assert(pairs.take(k + 1).drop_last() =~= pairs.take(k));
        lemma_remap_pairs_stays_none(map, pairs, k + 1);
    } else {
        assert(pairs.take(k) =~= pairs);
    }
}

/// An imported posit under its new identities, its appearances in role
/// order, with the record that stores it.
pub fn remapped_posit(map: &[(u64, u64)], posit: &ReplayedPosit) -> (r: Result<
    (ReplayedPosit, crate::storage::PendingRecord),
    DatabaseError,
>)
    ensures
        r is Ok <==> (lookup_map(map@, posit.identity) is Some && (remap_pairs(map@, posit.appearances@) matches Some(
            ps,
        ) && pair_roles_distinct_all(ps))),
        r matches Ok((moved, record)) ==> {
            &&& Some(moved.identity) == lookup_map(map@, posit.identity)
            &&& moved.appearances@.to_multiset() == remap_pairs(map@, posit.appearances@)->0.to_multiset()
            &&& forall|i: int, j: int| 0 <= i < j < moved.appearances@.len() ==> (#[trigger] moved.appearances@[i]).0
                < (#[trigger] moved.appearances@[j]).0
            &&& moved.value.token_spec() == posit.value.token_spec()
            &&& moved.value.family_spec() == posit.value.family_spec()
            &&& moved.time == posit.time
            &&& record.record_type == crate::storage::RECORD_POSIT
            &&& record.payload@ == crate::storage::posit_payload(
                moved.identity,
                moved.appearances@,
                posit.value.family_spec(),
                crate::storage::codec_for(posit.value.token_spec(), posit.value.family_spec()),
                crate::storage::literal_bytes(
                    posit.value.token_spec(),
                    crate::storage::codec_for(posit.value.token_spec(), posit.value.family_spec()),
                )->0,
                posit.time.moment_spec(),
            )
        },
        r matches Err(e) ==> e is Invariant || e is InvalidAppearanceSet,
{
    let identity = mapped(map, posit.identity)?;
    let mut pairs: Vec<(u64, u64)> = Vec::new();
    let mut a: usize = 0;
    assert(posit.appearances@.take(0) =~= Seq::<(u64, u64)>::empty());
    while a < posit.appearances.len()
        invariant
            a <= posit.appearances@.len(),
            remap_pairs(map@, posit.appearances@.take(a as int)) == Some(pairs@),
        decreases posit.appearances@.len() - a,
    {
        let (role, thing) = posit.appearances[a];
        proof {
            assert(posit.appearances@.take(a + 1).drop_last() =~= posit.appearances@.take(a as int));
        }
        let role = match mapped(map, role) {
            Ok(d) => d,
            Err(e) => {
                proof {
                    lemma_remap_pairs_stays_none(map@, posit.appearances@, a + 1);
                }
                return Err(e);
            },
        };
        let thing = match mapped(map, thing) {
            Ok(d) => d,
            Err(e) => {
                proof {
                    lemma_remap_pairs_stays_none(map@, posit.appearances@, a + 1);
                }
                return Err(e);
            },
        };
        pairs.push((role, thing));
        a = a + 1;
    }
    proof {
        assert(posit.appearances@.take(a as int) =~= posit.appearances@);
    }
    let record = crate::storage::posit_record_logical(identity, pairs.as_slice(), &posit.value, &posit.time)?;
    let ordered = match crate::storage::order_pairs(pairs.as_slice()) {
        Some(ordered) => ordered,
        None => {
            return Err(
                DatabaseError::InvalidAppearanceSet(String::from_str("a persisted appearance set cannot repeat a role")),
            );
        },
    };
    proof {
        let sorted = choose|sorted: Seq<(u64, u64)>|
            sorted.to_multiset() == pairs@.to_multiset() && (forall|i: int, j: int|
                0 <= i < j < sorted.len() ==> (#[trigger] sorted[i]).0 < (#[trigger] sorted[j]).0) && record.payload@
                == #[trigger] crate::storage::posit_payload(
                identity,
                sorted,
                posit.value.family_spec(),
                crate::storage::codec_for(posit.value.token_spec(), posit.value.family_spec()),
                crate::storage::literal_bytes(
                    posit.value.token_spec(),
                    crate::storage::codec_for(posit.value.token_spec(), posit.value.family_spec()),
                )->0,
                posit.time.moment_spec(),
            );
        lemma_role_ordered_unique(sorted, ordered@);
    }
    Ok((ReplayedPosit { identity, appearances: ordered, value: posit.value.clone(), time: posit.time }, record))
}

/// No role appears twice among `pairs`.
pub open spec fn pair_roles_distinct_all(pairs: Seq<(u64, u64)>) -> bool {
    forall|i: int, j: int|
        0 <= i < pairs.len() && 0 <= j < pairs.len() && i != j ==> (#[trigger] pairs[i]).0 != (#[trigger] pairs[j]).0
}

proof fn lemma_role_ordered_unique(a: Seq<(u64, u64)>, b: Seq<(u64, u64)>)
    requires
        a.to_multiset() == b.to_multiset(),
        forall|i: int, j: int| 0 <= i < j < a.len() ==> (#[trigger] a[i]).0 < (#[trigger] a[j]).0,
        forall|i: int, j: int| 0 <= i < j < b.len() ==> (#[trigger] b[i]).0 < (#[trigger] b[j]).0,
    ensures
        a == b,
{
    crate::construct::keys_in_role_order_are_unique(a, b);
}

/// Two replays hold the same roles and posits, in the same order.
pub fn same_replay(
    roles_a: &Vec<ReplayedRole>,
    posits_a: &Vec<ReplayedPosit>,
    roles_b: &Vec<ReplayedRole>,
    posits_b: &Vec<ReplayedPosit>,
) -> (r: bool)
    ensures
        r == (roles_a@.len() == roles_b@.len() && posits_a@.len() == posits_b@.len() && (forall|i: int|
            0 <= i < roles_a@.len() ==> same_role_record(#[trigger] roles_a@[i], roles_b@[i])) && forall|i: int|
            0 <= i < posits_a@.len() ==> same_posit_record(#[trigger] posits_a@[i], posits_b@[i])),
{
    if roles_a.len() != roles_b.len() || posits_a.len() != posits_b.len() {
        return false;
    }
    let mut i: usize = 0;
    while i < roles_a.len()
        invariant
            i <= roles_a@.len(),
            roles_a@.len() == roles_b@.len(),
            forall|k: int| 0 <= k < i ==> same_role_record(#[trigger] roles_a@[k], roles_b@[k]),
        decreases roles_a@.len() - i,
    {
        if roles_a[i].identity != roles_b[i].identity || !(roles_a[i].name == roles_b[i].name) || roles_a[i].reserved
            != roles_b[i].reserved {
            return false;
        }
        i = i + 1;
    }
    let mut k: usize = 0;
    while k < posits_a.len()
        invariant
            k <= posits_a@.len(),
            posits_a@.len() == posits_b@.len(),
            roles_a@.len() == roles_b@.len(),
            forall|q: int| 0 <= q < roles_a@.len() ==> same_role_record(#[trigger] roles_a@[q], roles_b@[q]),
            forall|q: int| 0 <= q < k ==> same_posit_record(#[trigger] posits_a@[q], posits_b@[q]),
        decreases posits_a@.len() - k,
    {
        let a = &posits_a[k];
        let b = &posits_b[k];
        if a.identity != b.identity || !crate::storage::pairs_equal(&a.appearances, &b.appearances)
            || !a.value.exactly_equals(&b.value) || a.time != b.time {
            return false;
        }
        k = k + 1;
    }
    true
}

/// Two role records agree.
pub open spec fn same_role_record(a: ReplayedRole, b: ReplayedRole) -> bool {
    a.identity == b.identity && a.name@ == b.name@ && a.reserved == b.reserved
}

/// Two posit records agree: identity, appearances, value token and time.
pub open spec fn same_posit_record(a: ReplayedPosit, b: ReplayedPosit) -> bool {
    &&& a.identity == b.identity
    &&& a.appearances@ == b.appearances@
    &&& a.value.token_spec() == b.value.token_spec()
    &&& a.time == b.time
}

// ---------------------------------------------------------------------------
// Inspection and backup
// ---------------------------------------------------------------------------

impl StoreInspection {
    /// What an inspection reports of a store with identity `uuid`, a
    /// committed prefix of `committed_length` bytes in a log of
    /// `file_length` bytes, `batches` committed batches and the given
    /// logical content.
    pub fn of(
        uuid: &[u8; 16],
        committed_length: u64,
        file_length: u64,
        batches: usize,
        roles: &[ReplayedRole],
        posits: &[ReplayedPosit],
    ) -> (r: StoreInspection)
        requires
            committed_length <= file_length,
        ensures
            r.store_uuid@ == uuid_text(uuid@),
            r.storage_format_major == crate::storage::FORMAT_MAJOR,
            r.storage_format_minor == crate::storage::FORMAT_MINOR,
            r.committed_length == committed_length,
            r.physical_log_length == file_length,
            r.ignored_tail_bytes == file_length - committed_length,
            r.committed_batches == batches,
            r.roles == roles@.len(),
            r.posits == posits@.len(),
            r.referenced_things == referenced(roles@, posits@).len(),
    {
        let ids = referenced_identities(roles, posits);
        proof {
            lemma_increasing_no_duplicates(ids@);
            ids@.unique_seq_to_set();
        }
        StoreInspection {
            store_uuid: format_uuid(uuid),
            storage_format_major: crate::storage::FORMAT_MAJOR,
            storage_format_minor: crate::storage::FORMAT_MINOR,
            committed_length,
            physical_log_length: file_length,
            ignored_tail_bytes: file_length - committed_length,
            committed_batches: batches,
            roles: roles.len(),
            posits: posits.len(),
            referenced_things: ids.len(),
        }
    }
}

proof fn lemma_increasing_no_duplicates(s: Seq<u64>)
    requires
        increasing(s),
    ensures
        s.no_duplicates(),
{
    assert forall|i: int, j: int| 0 <= i < s.len() && 0 <= j < s.len() && i != j implies s[i] != s[j] by {
        if i < j {
            assert(s[i] < s[j]);
        } else {
            assert(s[j] < s[i]);
        }
    }
}

/// Whether a backup's inspection matches its source: same identity, the
/// whole committed prefix and nothing after it, the same counts.
pub fn backup_matches(
    backup: &StoreInspection,
    source_uuid: &[u8; 16],
    committed_length: u64,
    roles: usize,
    posits: usize,
) -> (r: bool)
    ensures
        r == (backup.store_uuid@ == uuid_text(source_uuid@) && backup.committed_length == committed_length
            && backup.physical_log_length == committed_length && backup.roles == roles && backup.posits == posits),
{
    let expected = format_uuid(source_uuid);
    backup.store_uuid == expected && backup.committed_length == committed_length && backup.physical_log_length
        == committed_length && backup.roles == roles && backup.posits == posits
}

/// The published form of an identity map: each source identity of store
/// `source_uuid` with its destination in store `destination_uuid`, in the
/// map's order.
pub fn remap_entries(source_uuid: &str, destination_uuid: &str, map: &[(u64, u64)]) -> (out: Vec<IdentityRemap>)
    ensures
        out@.len() == map@.len(),
        forall|i: int|
            0 <= i < out@.len() ==> (#[trigger] out@[i]).source.store_uuid@ == source_uuid@ && out@[i].source.local
                == map@[i].0 && out@[i].destination.store_uuid@ == destination_uuid@ && out@[i].destination.local
                == map@[i].1,
{
    let mut out: Vec<IdentityRemap> = Vec::new();
    let mut i: usize = 0;
    while i < map.len()
        invariant
            i <= map@.len(),
            out@.len() == i,
            forall|k: int|
                0 <= k < i ==> (#[trigger] out@[k]).source.store_uuid@ == source_uuid@ && out@[k].source.local
                    == map@[k].0 && out@[k].destination.store_uuid@ == destination_uuid@ && out@[k].destination.local
                    == map@[k].1,
        decreases map@.len() - i,
    {
        out.push(
            IdentityRemap {
                source: external_identity(source_uuid, map[i].0),
                destination: external_identity(destination_uuid, map[i].1),
            },
        );
        i = i + 1;
    }
    out
}

} // verus!
