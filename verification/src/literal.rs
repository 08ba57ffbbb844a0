//! Lossless user-visible literal values and their semantic interpretations.
//!
//! A literal keeps the exact token that was entered; its family decides how
//! the token is validated and compared. Exact identity is token equality;
//! nominal equality and ordering compare the denoted values.

use crate::json::{is_digit, json_equal, json_reads, json_text, parse_json, semantic_json_equal, SemanticJson};
use crate::numeric::{
    compare_decimals, decimal_numeral, decimal_order, decimals_equal, decode_json_string, is_decimal_numeral,
    json_string_value, reversed_order, same_number,
};
use std::cmp::Ordering;
use vstd::prelude::*;
use vstd::string::StringExecFns;
use vstd::string::StringSliceAdditionalSpecFns;
use vstd::utf8::encode_utf8;

verus! {

/// The kind of value a literal token denotes.
#[derive(Debug, Clone, Copy, PartialEq, Eq, Structural, Hash, PartialOrd, Ord)]
pub enum LiteralFamily {
    String,
    Integer,
    Decimal,
    Certainty,
    Json,
    Time,
}

/// The stable one-byte identifier of each family.
pub open spec fn family_identifier(family: LiteralFamily) -> u8 {
    match family {
        LiteralFamily::String => 1,
        LiteralFamily::Integer => 2,
        LiteralFamily::Decimal => 3,
        LiteralFamily::Certainty => 4,
        LiteralFamily::Json => 5,
        LiteralFamily::Time => 6,
    }
}

impl LiteralFamily {
    /// The family with the given identifier, if any.
    pub fn from_identifier(identifier: u8) -> (family: Option<Self>)
        ensures
            family matches Some(f) ==> family_identifier(f) == identifier,
            family is None <==> !(1 <= identifier <= 6),
    {
        match identifier {
            1 => Some(Self::String),
            2 => Some(Self::Integer),
            3 => Some(Self::Decimal),
            4 => Some(Self::Certainty),
            5 => Some(Self::Json),
            6 => Some(Self::Time),
            _ => None,
        }
    }

    /// The stable identifier of this family.
    pub fn identifier(self) -> (identifier: u8)
        ensures
            identifier == family_identifier(self),
    {
        match self {
            Self::String => 1,
            Self::Integer => 2,
            Self::Decimal => 3,
            Self::Certainty => 4,
            Self::Json => 5,
            Self::Time => 6,
        }
    }
}

/// Identifiers and families correspond one to one.
pub proof fn family_identifier_round_trip(family: LiteralFamily)
    ensures
        1 <= family_identifier(family) <= 6,
        forall|other: LiteralFamily| family_identifier(other) == family_identifier(family) ==> other
            == family,
{
}

// ---------------------------------------------------------------------------
// Token syntax
// ---------------------------------------------------------------------------

/// The digits after an optional leading `+` or `-`.
pub open spec fn unsigned_part(b: Seq<u8>) -> Seq<u8> {
    if b.len() > 0 && (b[0] == 43 || b[0] == 45) { b.drop_first() } else { b }
}

pub open spec fn all_digits(b: Seq<u8>) -> bool {
    forall|i: int| 0 <= i < b.len() ==> is_digit(#[trigger] b[i])
}

/// An integer token: an optional sign and at least one ASCII digit.
pub open spec fn integer_token(b: Seq<u8>) -> bool {
    let d = unsigned_part(b);
    &&& d.len() > 0
    &&& all_digits(d)
    &&& decimal_numeral(b)
}

/// A decimal token: an optional sign, digits, a point, digits.
pub open spec fn decimal_token(b: Seq<u8>) -> bool {
    let u = unsigned_part(b);
    &&& exists|k: int|
        0 < k < u.len() - 1 && u[k] == 46 && all_digits(#[trigger] u.subrange(0, k)) && all_digits(
            u.subrange(k + 1, u.len() as int),
        )
    &&& decimal_numeral(b)
}

/// The value of a string of decimal digits.
pub open spec fn digits_value(d: Seq<u8>) -> nat
    decreases d.len(),
{
    if d.len() == 0 {
        0
    } else {
        10 * digits_value(d.drop_last()) + (d.last() - 48) as nat
    }
}

/// The whole percentage of a certainty token such as `75%` or `-010%`,
/// when it lies within -100..=100.
pub open spec fn certainty_of(b: Seq<u8>) -> Option<int> {
    if b.len() >= 1 && b.last() == 37 {
        let p = b.drop_last();
        let negative = p.len() > 0 && p[0] == 45;
        let d = unsigned_part(p);
        if d.len() > 0 && all_digits(d) {
            let v = if negative { -digits_value(d) } else { digits_value(d) as int };
            if -100 <= v <= 100 { Some(v) } else { None }
        } else {
            None
        }
    } else {
        None
    }
}

/// A token acceptable for its family.
pub open spec fn valid_literal(token: Seq<char>, family: LiteralFamily) -> bool {
    let b = encode_utf8(token);
    match family {
        LiteralFamily::String => json_string_value(b) is Some,
        LiteralFamily::Integer => integer_token(b),
        LiteralFamily::Decimal => decimal_token(b),
        LiteralFamily::Certainty => certainty_of(b) is Some,
        LiteralFamily::Json => json_text(b),
        LiteralFamily::Time => token.len() > 0,
    }
}

fn msg(text: &str) -> (r: String)
    ensures
        r@ == text@,
{
    String::from_str(text)
}

fn all_digits_from(b: &[u8], start: usize, end: usize) -> (r: bool)
    requires
        start <= end <= b@.len(),
    ensures
        r == all_digits(b@.subrange(start as int, end as int)),
{
    let mut i = start;
    while i < end
        invariant
            start <= i <= end <= b@.len(),
            forall|j: int| start <= j < i ==> is_digit(b@[j]),
        decreases end - i,
    {
        if !(48 <= b[i] && b[i] <= 57) {
            assert(b@.subrange(start as int, end as int)[i - start] == b@[i as int]);
            return false;
        }
        i += 1;
    }
    assert forall|j: int| 0 <= j < end - start implies is_digit(
        #[trigger] b@.subrange(start as int, end as int)[j],
    ) by {
        assert(b@.subrange(start as int, end as int)[j] == b@[start + j]);
    }
    true
}

fn sign_length(b: &[u8]) -> (n: usize)
    ensures
        n <= b@.len(),
        unsigned_part(b@) == b@.subrange(n as int, b@.len() as int),
        n == 1 <==> (b@.len() > 0 && (b@[0] == 43 || b@[0] == 45)),
        n <= 1,
{
    if b.len() > 0 && (b[0] == 43 || b[0] == 45) {
        assert(b@.drop_first() == b@.subrange(1, b@.len() as int));
        1
    } else {
        assert(b@ == b@.subrange(0, b@.len() as int));
        0
    }
}

fn validate_integer(token: &str) -> (r: Result<(), String>)
    ensures
        r is Ok <==> integer_token(token.spec_bytes()),
{
    let b = token.as_bytes();
    let start = sign_length(b);
    if start == b.len() || !all_digits_from(b, start, b.len()) {
        return Err(msg("invalid integer literal"));
    }
    if is_decimal_numeral(b) {
        Ok(())
    } else {
        Err(msg("invalid number"))
    }
}

fn validate_decimal(token: &str) -> (r: Result<(), String>)
    ensures
        r is Ok <==> decimal_token(token.spec_bytes()),
{
    let b = token.as_bytes();
    let start = sign_length(b);
    let ghost u = unsigned_part(b@);
    let mut dot = start;
    while dot < b.len() && b[dot] != 46
        invariant
            start <= dot <= b@.len(),
            forall|j: int| start <= j < dot ==> b@[j] != 46,
        decreases b@.len() - dot,
    {
        dot += 1;
    }
    let shaped = dot < b.len() && dot > start && dot + 1 < b.len() && all_digits_from(b, start, dot)
        && all_digits_from(b, dot + 1, b.len());
    proof {
        let k = dot - start;
        assert(u == b@.subrange(start as int, b@.len() as int));
        if shaped {
            assert(u.subrange(0, k) == b@.subrange(start as int, dot as int));
            assert(u.subrange(k + 1, u.len() as int) == b@.subrange(dot + 1, b@.len() as int));
            assert(u[k] == 46);
        } else {
            assert forall|k2: int|
                0 < k2 < u.len() - 1 && u[k2] == 46 && all_digits(#[trigger] u.subrange(0, k2))
                    implies !all_digits(u.subrange(k2 + 1, u.len() as int)) by {
                assert(u[k2] == b@[start + k2]);
                if start + k2 < dot {
                } else if start + k2 > dot {
                    assert(u.subrange(0, k2)[k] == 46);
                } else {
                    assert(u.subrange(0, k2) == b@.subrange(start as int, dot as int));
                    assert(u.subrange(k2 + 1, u.len() as int) == b@.subrange(dot + 1, b@.len() as int));
                }
            }
        }
    }
    if !shaped {
        return Err(msg("invalid decimal literal"));
    }
    if is_decimal_numeral(b) {
        Ok(())
    } else {
        Err(msg("invalid number"))
    }
}

proof fn lemma_digits_value_bound(d: Seq<u8>)
    requires
        all_digits(d),
    ensures
        d.len() > 0 ==> digits_value(d) >= digits_value(d.drop_last()),
    decreases d.len(),
{
}

/// Reads the percentage of a certainty token.
fn parse_certainty(token: &str) -> (r: Result<i8, String>)
    ensures
        match certainty_of(token.spec_bytes()) {
            Some(v) => r == Ok::<i8, String>(v as i8),
            None => r is Err,
        },
{
    let b = token.as_bytes();
    if b.len() == 0 || b[b.len() - 1] != 37 {
        return Err(msg("certainty literal lacks percent sign"));
    }
    let end = b.len() - 1;
    let ghost p = b@.drop_last();
    let negative = end > 0 && b[0] == 45;
    let start: usize = if end > 0 && (b[0] == 43 || b[0] == 45) { 1 } else { 0 };
    proof {
        assert(p == b@.subrange(0, end as int));
        if start == 1 {
            assert(unsigned_part(p) == b@.subrange(1, end as int));
        } else {
            assert(unsigned_part(p) == b@.subrange(0, end as int));
        }
    }
    if start == end || !all_digits_from(b, start, end) {
        return Err(msg("invalid certainty"));
    }
    let ghost d = b@.subrange(start as int, end as int);
    let mut value: u32 = 0;
    let mut i = start;
    while i < end
        invariant
            start <= i <= end,
            end < b@.len(),
            d == b@.subrange(start as int, end as int),
            all_digits(d),
            value <= 101,
            value <= 100 ==> value == digits_value(d.subrange(0, i - start)),
            value == 101 ==> digits_value(d.subrange(0, i - start)) > 100,
        decreases end - i,
    {
        proof {
            assert(d[i - start] == b@[i as int]);
            assert(is_digit(d[i - start]));
            let q = d.subrange(0, i + 1 - start);
            assert(q.drop_last() == d.subrange(0, i - start));
            assert(q.last() == b@[i as int]);
        }
        let digit = (b[i] - 48) as u32;
        if value <= 100 {
            let next = value * 10 + digit;
            value = if next > 100 { 101 } else { next };
        }
        i += 1;
    }
    assert(d.subrange(0, end - start) == d);
    if value > 100 {
        return Err(msg("certainty is outside -100%..=100%"));
    }
    if negative {
        Ok(0i8 - (value as i8))
    } else {
        Ok(value as i8)
    }
}

/// Checks `token` against the rules of `family`.
fn validate(token: &str, family: LiteralFamily) -> (r: Result<(), String>)
    ensures
        r is Ok <==> valid_literal(token@, family),
{
    match family {
        LiteralFamily::String => match decode_json_string(token.as_bytes()) {
            Some(_) => Ok(()),
            None => Err(msg("invalid string literal")),
        },
        LiteralFamily::Integer => validate_integer(token),
        LiteralFamily::Decimal => validate_decimal(token),
        LiteralFamily::Certainty => match parse_certainty(token) {
            Ok(_) => Ok(()),
            Err(e) => Err(e),
        },
        LiteralFamily::Json => match parse_json(token.as_bytes()) {
            Ok(_) => Ok(()),
            Err(e) => Err(e),
        },
        LiteralFamily::Time => if token.is_empty() {
            Err(msg("time literal token cannot be empty"))
        } else {
            Ok(())
        },
    }
}

// ---------------------------------------------------------------------------
// Literal values
// ---------------------------------------------------------------------------

/// A complete, presentation-preserving UTF-8 value token and its family.
#[derive(Debug)]
pub struct LiteralValue {
    token: String,
    family: LiteralFamily,
}

impl LiteralValue {
    #[verifier::type_invariant]
    spec fn valid(self) -> bool {
        valid_literal(self.token@, self.family)
    }

    /// The exact token text.
    pub closed spec fn token_spec(self) -> Seq<char> {
        self.token@
    }

    /// The family.
    pub closed spec fn family_spec(self) -> LiteralFamily {
        self.family
    }

    /// Validates `token` for `family`.
    pub fn new(token: String, family: LiteralFamily) -> (r: Result<Self, String>)
        ensures
            r is Ok <==> valid_literal(token@, family),
            r matches Ok(v) ==> v.token_spec() == token@ && v.family_spec() == family,
    {
        match validate(token.as_str(), family) {
            Ok(()) => Ok(Self { token, family }),
            Err(e) => Err(e),
        }
    }

    /// Every literal satisfies the rules of its family.
    pub fn token(&self) -> (t: &str)
        ensures
            t@ == self.token_spec(),
            valid_literal(t@, self.family_spec()),
    {
        proof {
            use_type_invariant(self);
        }
        self.token.as_str()
    }

    pub fn family(&self) -> (f: LiteralFamily)
        ensures
            f == self.family_spec(),
    {
        self.family
    }

    /// The signed percentage of a certainty literal; `None` for other families.
    pub fn certainty_percent(&self) -> (r: Result<Option<i8>, String>)
        ensures
            self.family_spec() == LiteralFamily::Certainty ==> (r matches Ok(Some(p)) && Some(
                p as int,
            ) == certainty_of(encode_utf8(self.token_spec()))),
            self.family_spec() != LiteralFamily::Certainty ==> r == Ok::<Option<i8>, String>(None),
    {
        proof {
            use_type_invariant(self);
        }
        if self.family == LiteralFamily::Certainty {
            match parse_certainty(self.token.as_str()) {
                Ok(p) => Ok(Some(p)),
                Err(e) => Err(e),
            }
        } else {
            Ok(None)
        }
    }

    /// Exact literal identity: byte-for-byte token equality.
    pub fn exactly_equals(&self, other: &Self) -> (r: bool)
        ensures
            r == (self.token_spec() == other.token_spec()),
    {
        self.token == other.token
    }

    /// Nominal equality: numbers by value, certainties by percentage,
    /// strings by decoded text, JSON semantically, times by token.
    ///
    /// Fails for literals of unrelated families.
    pub fn nominally_equals(&self, other: &Self) -> (r: Result<bool, String>)
        ensures
            r is Ok <==> comparable_nominally(self.family_spec(), other.family_spec()),
            (self.family_spec() == LiteralFamily::Certainty && other.family_spec()
                == LiteralFamily::Certainty) ==> r == Ok::<bool, String>(
                certainty_of(encode_utf8(self.token_spec())) == certainty_of(
                    encode_utf8(other.token_spec()),
                ),
            ),
            (self.family_spec() == LiteralFamily::String && other.family_spec()
                == LiteralFamily::String) ==> r == Ok::<bool, String>(
                json_string_value(encode_utf8(self.token_spec())) == json_string_value(
                    encode_utf8(other.token_spec()),
                ),
            ),
            (self.family_spec() == LiteralFamily::Time && other.family_spec()
                == LiteralFamily::Time) ==> r == Ok::<bool, String>(
                self.token_spec() == other.token_spec(),
            ),
            (is_numeric(self.family_spec()) && is_numeric(other.family_spec())) ==> r == Ok::<bool, String>(
                same_number(encode_utf8(self.token_spec()), encode_utf8(other.token_spec())),
            ),
            (is_numeric(self.family_spec()) && is_numeric(other.family_spec())) ==> r == Ok::<bool, String>(
                same_number(encode_utf8(other.token_spec()), encode_utf8(self.token_spec())),
            ),
            (self.family_spec() == LiteralFamily::Json && other.family_spec() == LiteralFamily::Json) ==> exists|
                a: SemanticJson,
                b: SemanticJson,
            |
                json_reads(encode_utf8(self.token_spec()), a) && json_reads(encode_utf8(other.token_spec()), b) && r
                    == Ok::<bool, String>(json_equal(a, b)),
            (self.family_spec() == LiteralFamily::Json && other.family_spec() == LiteralFamily::Json) ==> forall|
                a: SemanticJson,
                b: SemanticJson,
            |
                #[trigger] json_reads(encode_utf8(self.token_spec()), a) && #[trigger] json_reads(
                    encode_utf8(other.token_spec()),
                    b,
                ) ==> r == Ok::<bool, String>(json_equal(a, b)),
            r is Ok <==> nominal_outcome(self.family_spec(), self.token_spec(), other.family_spec(), other.token_spec()) is Some,
            r matches Ok(b) ==> nominal_outcome(self.family_spec(), self.token_spec(), other.family_spec(), other.token_spec())
                == Some(b),
    {
        proof {
            use_type_invariant(self);
            use_type_invariant(other);
        }
        let left = self.token.as_str();
        let right = other.token.as_str();
        match (self.family, other.family) {
            (LiteralFamily::Integer, LiteralFamily::Integer) | (
                LiteralFamily::Integer,
                LiteralFamily::Decimal,
            ) | (LiteralFamily::Decimal, LiteralFamily::Integer) | (
                LiteralFamily::Decimal,
                LiteralFamily::Decimal,
            ) => {
                match decimals_equal(left.as_bytes(), right.as_bytes()) {
                    Some(equal) => Ok(equal),
                    None => Err(msg("invalid number")),
                }
            },
            (LiteralFamily::Certainty, LiteralFamily::Certainty) => {
                let a = parse_certainty(left);
                let b = parse_certainty(right);
                match (a, b) {
                    (Ok(a), Ok(b)) => Ok(a == b),
                    _ => Err(msg("invalid certainty")),
                }
            },
            (LiteralFamily::String, LiteralFamily::String) => {
                let a = decode_json_string(left.as_bytes());
                let b = decode_json_string(right.as_bytes());
                match (a, b) {
                    (Some(a), Some(b)) => Ok(a == b),
                    _ => Err(msg("invalid string literal")),
                }
            },
            (LiteralFamily::Json, LiteralFamily::Json) => {
                let a = parse_json(left.as_bytes());
                let b = parse_json(right.as_bytes());
                match (a, b) {
                    (Ok(a), Ok(b)) => {
                        proof {
                            assert forall|a2: SemanticJson, b2: SemanticJson|
                                #[trigger] json_reads(encode_utf8(self.token_spec()), a2) && #[trigger] json_reads(
                                    encode_utf8(other.token_spec()),
                                    b2,
                                ) implies json_equal(a2, b2) == json_equal(a, b) by {
                                crate::json::readings_compare_alike(
                                    encode_utf8(self.token_spec()),
                                    encode_utf8(other.token_spec()),
                                    a,
                                    a2,
                                    b,
                                    b2,
                                );
                            }
                            let a3 = choose|x: SemanticJson| json_reads(encode_utf8(self.token_spec()), x);
                            let b3 = choose|y: SemanticJson| json_reads(encode_utf8(other.token_spec()), y);
                            assert(json_reads(encode_utf8(self.token_spec()), a3));
                            assert(json_reads(encode_utf8(other.token_spec()), b3));
                            assert(json_equal(a3, b3) == json_equal(a, b));
                        }
                        Ok(semantic_json_equal(&a, &b))
                    },
                    _ => Err(msg("invalid JSON literal")),
                }
            },
            (LiteralFamily::Time, LiteralFamily::Time) => Ok(self.token == other.token),
            _ => Err(msg("unsupported nominal comparison")),
        }
    }

    /// Beta literals denote exact values, so possible equality is nominal equality.
    pub fn possibly_equals(&self, other: &Self) -> (r: Result<bool, String>)
        ensures
            r is Ok <==> comparable_nominally(self.family_spec(), other.family_spec()),
            (self.family_spec() == LiteralFamily::Certainty && other.family_spec()
                == LiteralFamily::Certainty) ==> r == Ok::<bool, String>(
                certainty_of(encode_utf8(self.token_spec())) == certainty_of(
                    encode_utf8(other.token_spec()),
                ),
            ),
            (self.family_spec() == LiteralFamily::String && other.family_spec()
                == LiteralFamily::String) ==> r == Ok::<bool, String>(
                json_string_value(encode_utf8(self.token_spec())) == json_string_value(
                    encode_utf8(other.token_spec()),
                ),
            ),
            (self.family_spec() == LiteralFamily::Time && other.family_spec()
                == LiteralFamily::Time) ==> r == Ok::<bool, String>(
                self.token_spec() == other.token_spec(),
            ),
            (is_numeric(self.family_spec()) && is_numeric(other.family_spec())) ==> r == Ok::<bool, String>(
                same_number(encode_utf8(self.token_spec()), encode_utf8(other.token_spec())),
            ),
            (is_numeric(self.family_spec()) && is_numeric(other.family_spec())) ==> r == Ok::<bool, String>(
                same_number(encode_utf8(other.token_spec()), encode_utf8(self.token_spec())),
            ),
            (self.family_spec() == LiteralFamily::Json && other.family_spec() == LiteralFamily::Json) ==> exists|
                a: SemanticJson,
                b: SemanticJson,
            |
                json_reads(encode_utf8(self.token_spec()), a) && json_reads(encode_utf8(other.token_spec()), b) && r
                    == Ok::<bool, String>(json_equal(a, b)),
            (self.family_spec() == LiteralFamily::Json && other.family_spec() == LiteralFamily::Json) ==> forall|
                a: SemanticJson,
                b: SemanticJson,
            |
                #[trigger] json_reads(encode_utf8(self.token_spec()), a) && #[trigger] json_reads(
                    encode_utf8(other.token_spec()),
                    b,
                ) ==> r == Ok::<bool, String>(json_equal(a, b)),
            r is Ok <==> nominal_outcome(self.family_spec(), self.token_spec(), other.family_spec(), other.token_spec()) is Some,
            r matches Ok(b) ==> nominal_outcome(self.family_spec(), self.token_spec(), other.family_spec(), other.token_spec())
                == Some(b),
    {
        self.nominally_equals(other)
    }
}

/// The exact numeric families.
pub open spec fn is_numeric(f: LiteralFamily) -> bool {
    f == LiteralFamily::Integer || f == LiteralFamily::Decimal
}

/// What nominal equality answers for two literals given by family and token:
/// numbers by value, certainties by percentage, strings by decoded text,
/// JSON by its reading, times by token; `None` for unrelated families.
pub open spec fn nominal_outcome(af: LiteralFamily, at: Seq<char>, bf: LiteralFamily, bt: Seq<char>) -> Option<bool> {
    if is_numeric(af) && is_numeric(bf) {
        Some(same_number(encode_utf8(at), encode_utf8(bt)))
    } else if af == LiteralFamily::Certainty && bf == LiteralFamily::Certainty {
        Some(certainty_of(encode_utf8(at)) == certainty_of(encode_utf8(bt)))
    } else if af == LiteralFamily::String && bf == LiteralFamily::String {
        Some(json_string_value(encode_utf8(at)) == json_string_value(encode_utf8(bt)))
    } else if af == LiteralFamily::Time && bf == LiteralFamily::Time {
        Some(at == bt)
    } else if af == LiteralFamily::Json && bf == LiteralFamily::Json {
        Some(
            json_equal(
                choose|x: SemanticJson| json_reads(encode_utf8(at), x),
                choose|y: SemanticJson| json_reads(encode_utf8(bt), y),
            ),
        )
    } else {
        None
    }
}

/// Nominal equality of certainties, strings and times is symmetric, and
/// every such literal is nominally equal to itself.
pub proof fn nominal_equality_of_plain_families(af: LiteralFamily, at: Seq<char>, bf: LiteralFamily, bt: Seq<char>)
    requires
        af == LiteralFamily::Certainty || af == LiteralFamily::String || af == LiteralFamily::Time,
    ensures
        nominal_outcome(af, at, bf, bt) == nominal_outcome(bf, bt, af, at),
        nominal_outcome(af, at, af, at) == Some(true),
{
}

/// The order of two literals given by family and token: numbers by value,
/// certainties by percentage; `None` for families without an order.
pub open spec fn semantic_outcome(af: LiteralFamily, at: Seq<char>, bf: LiteralFamily, bt: Seq<char>) -> Option<Ordering> {
    if is_numeric(af) && is_numeric(bf) {
        Some(decimal_order(encode_utf8(at), encode_utf8(bt)))
    } else if af == LiteralFamily::Certainty && bf == LiteralFamily::Certainty {
        Some(int_order(certainty_of(encode_utf8(at)).unwrap(), certainty_of(encode_utf8(bt)).unwrap()))
    } else {
        None
    }
}

/// Numbers compare with numbers; every other family only with itself.
pub open spec fn comparable_nominally(a: LiteralFamily, b: LiteralFamily) -> bool {
    ||| (a == LiteralFamily::Integer || a == LiteralFamily::Decimal) && (b == LiteralFamily::Integer
        || b == LiteralFamily::Decimal)
    ||| a == b
}

/// Exact numerics and certainties are ordered; other families are not.
pub open spec fn orderable(a: LiteralFamily, b: LiteralFamily) -> bool {
    ||| (a == LiteralFamily::Integer || a == LiteralFamily::Decimal) && (b == LiteralFamily::Integer
        || b == LiteralFamily::Decimal)
    ||| a == LiteralFamily::Certainty && b == LiteralFamily::Certainty
}

/// The ordering of two integers.
pub open spec fn int_order(a: int, b: int) -> Ordering {
    if a < b {
        Ordering::Less
    } else if a == b {
        Ordering::Equal
    } else {
        Ordering::Greater
    }
}

/// The order of whole numbers: less, equal or greater as the numbers are,
/// and reversed when the numbers are swapped.
pub proof fn int_order_is_the_order_of_numbers(a: int, b: int)
    ensures
        (int_order(a, b) == Ordering::Less) <==> a < b,
        (int_order(a, b) == Ordering::Equal) <==> a == b,
        (int_order(a, b) == Ordering::Greater) <==> a > b,
        int_order(b, a) == reversed_order(int_order(a, b)),
{
}

impl LiteralValue {
    /// Ordering of exact numerics (by value) and of certainties (by
    /// percentage); fails for every other pair of families.
    pub fn semantic_cmp(&self, other: &Self) -> (r: Result<Ordering, String>)
        ensures
            r is Ok <==> orderable(self.family_spec(), other.family_spec()),
            r is Ok <==> semantic_outcome(self.family_spec(), self.token_spec(), other.family_spec(), other.token_spec()) is Some,
            r matches Ok(o) ==> semantic_outcome(self.family_spec(), self.token_spec(), other.family_spec(), other.token_spec())
                == Some(o),
            (self.family_spec() == LiteralFamily::Certainty && other.family_spec()
                == LiteralFamily::Certainty) ==> r == Ok::<Ordering, String>(
                int_order(
                    certainty_of(encode_utf8(self.token_spec())).unwrap(),
                    certainty_of(encode_utf8(other.token_spec())).unwrap(),
                ),
            ),
            (is_numeric(self.family_spec()) && is_numeric(other.family_spec())) ==> r == Ok::<Ordering, String>(
                decimal_order(encode_utf8(self.token_spec()), encode_utf8(other.token_spec())),
            ),
            (is_numeric(self.family_spec()) && is_numeric(other.family_spec())) ==> r == Ok::<Ordering, String>(
                reversed_order(decimal_order(encode_utf8(other.token_spec()), encode_utf8(self.token_spec()))),
            ),
    {
        proof {
            use_type_invariant(self);
            use_type_invariant(other);
        }
        let left = self.token.as_str();
        let right = other.token.as_str();
        match (self.family, other.family) {
            (LiteralFamily::Integer, LiteralFamily::Integer) | (
                LiteralFamily::Integer,
                LiteralFamily::Decimal,
            ) | (LiteralFamily::Decimal, LiteralFamily::Integer) | (
                LiteralFamily::Decimal,
                LiteralFamily::Decimal,
            ) => {
                match compare_decimals(left.as_bytes(), right.as_bytes()) {
                    Some(order) => Ok(order),
                    None => Err(msg("invalid number")),
                }
            },
            (LiteralFamily::Certainty, LiteralFamily::Certainty) => {
                let a = parse_certainty(left);
                let b = parse_certainty(right);
                match (a, b) {
                    (Ok(a), Ok(b)) => if a < b {
                        Ok(Ordering::Less)
                    } else if a == b {
                        Ok(Ordering::Equal)
                    } else {
                        Ok(Ordering::Greater)
                    },
                    _ => Err(msg("invalid certainty")),
                }
            },
            _ => Err(msg("ordering is unsupported between these literal families")),
        }
    }
}

impl Clone for LiteralValue {
    fn clone(&self) -> (r: Self)
        ensures
            r.token_spec() == self.token_spec(),
            r.family_spec() == self.family_spec(),
    {
        proof {
            use_type_invariant(self);
        }
        LiteralValue { token: self.token.clone(), family: self.family }
    }
}

impl PartialEq for LiteralValue {
    fn eq(&self, other: &Self) -> (r: bool) {
        self.token == other.token
    }
}

impl vstd::std_specs::cmp::PartialEqSpecImpl for LiteralValue {
    open spec fn obeys_eq_spec() -> bool {
        true
    }

    open spec fn eq_spec(&self, other: &Self) -> bool {
        self.token_spec() == other.token_spec()
    }
}

impl Eq for LiteralValue {}

} // verus!
