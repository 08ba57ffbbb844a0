//! Byte-level primitives of the append-only store format: little-endian
//! fields, canonical ULEB128 lengths, length-prefixed blobs and CRC-32C.

use crate::error::DatabaseError;
use crate::text;
use vstd::bytes::*;
use vstd::prelude::*;
use vstd::string::StringExecFns;
use vstd::string::StringSliceAdditionalSpecFns;

verus! {

broadcast use vstd::seq_lib::group_seq_properties;

// ---------------------------------------------------------------------------
// Mathematical model of the encodings
// ---------------------------------------------------------------------------

/// The canonical unsigned LEB128 encoding of `value`: seven bits per byte,
/// least significant group first, continuation bit set on all but the last.
pub open spec fn uleb128(value: nat) -> Seq<u8>
    decreases value,
{
    if value < 128 {
        seq![value as u8]
    } else {
        seq![((value % 128) + 128) as u8] + uleb128(value / 128)
    }
}

/// The number of bytes of the first LEB128 group sequence of `s`: the position
/// just after the first byte without a continuation bit, or 0 when every byte
/// of `s` carries one.
pub open spec fn leb_length(s: Seq<u8>) -> nat
    decreases s.len(),
{
    if s.len() == 0 {
        0
    } else if s[0] < 128 {
        1
    } else {
        let rest = leb_length(s.drop_first());
        if rest == 0 { 0 } else { rest + 1 }
    }
}

/// The value carried by the first `n` LEB128 groups of `s`.
pub open spec fn leb_value(s: Seq<u8>, n: nat) -> nat
    decreases n,
{
    if n == 0 || s.len() == 0 {
        0
    } else {
        (s[0] % 128) as nat + 128 * leb_value(s.drop_first(), (n - 1) as nat)
    }
}

/// What a canonical ULEB128 reader finds at the front of `s`: the value and
/// the number of bytes it spans, or `None` when `s` does not start with the
/// canonical encoding of a `u64`.
pub open spec fn uleb128_prefix(s: Seq<u8>) -> Option<(u64, nat)> {
    let n = leb_length(s);
    if n == 0 || leb_value(s, n) > u64::MAX as nat || (n > 1 && s[n - 1] == 0) {
        None
    } else {
        Some((leb_value(s, n) as u64, n))
    }
}

/// `s` prefixed by the ULEB128 length of `s`.
pub open spec fn blob(s: Seq<u8>) -> Seq<u8> {
    uleb128(s.len()) + s
}

pub open spec fn u16_le(x: u16) -> Seq<u8> {
    spec_u16_to_le_bytes(x)
}

pub open spec fn u32_le(x: u32) -> Seq<u8> {
    spec_u32_to_le_bytes(x)
}

pub open spec fn u64_le(x: u64) -> Seq<u8> {
    spec_u64_to_le_bytes(x)
}

pub open spec fn i32_le(x: i32) -> Seq<u8> {
    spec_u32_to_le_bytes(x as u32)
}

/// One shift-and-reduce step of the reflected CRC-32C register.
pub open spec fn crc_shift(c: u32) -> u32 {
    if c % 2 == 1 { (c >> 1) ^ 0x82f6_3b78u32 } else { c >> 1 }
}

/// `k` consecutive register steps.
pub open spec fn crc_shifts(c: u32, k: nat) -> u32
    decreases k,
{
    if k == 0 { c } else { crc_shifts(crc_shift(c), (k - 1) as nat) }
}

/// The CRC-32C register after absorbing `bytes` from the all-ones start value.
pub open spec fn crc_register(bytes: Seq<u8>) -> u32
    decreases bytes.len(),
{
    if bytes.len() == 0 {
        0xffff_ffffu32
    } else {
        crc_shifts(crc_register(bytes.drop_last()) ^ (bytes.last() as u32), 8)
    }
}

/// CRC-32C (Castagnoli, reflected polynomial 0x82F63B78) of `bytes`.
pub open spec fn crc32c_of(bytes: Seq<u8>) -> u32 {
    !crc_register(bytes)
}

// ---------------------------------------------------------------------------
// Lemmas about the model
// ---------------------------------------------------------------------------

pub proof fn lemma_uleb128_shape(value: nat)
    ensures
        uleb128(value).len() >= 1,
        leb_length(uleb128(value)) == uleb128(value).len(),
        leb_value(uleb128(value), uleb128(value).len()) == value,
        uleb128(value).len() > 1 ==> uleb128(value)[uleb128(value).len() - 1] != 0,
        value <= u64::MAX ==> uleb128(value).len() <= 10,
    decreases value,
{
    if value < 128 {
        let s = uleb128(value);
        assert(leb_value(s.drop_first(), 0) == 0);
        assert(leb_value(s, 1) == (s[0] % 128) as nat);
    }
    if value >= 128 {
        let rest = uleb128(value / 128);
        lemma_uleb128_shape(value / 128);
        let s = uleb128(value);
        assert(s.drop_first() == rest);
        assert(s[0] >= 128);
        assert(s[0] % 128 == value % 128);
        assert(leb_value(s, s.len()) == (s[0] % 128) as nat + 128 * leb_value(rest, rest.len()));
        assert(value == value % 128 + 128 * (value / 128));
        if value <= u64::MAX {
            assert(value / 128 <= u64::MAX);
            if value / 128 < 128 {
                assert(rest.len() == 1);
            } else {
                assert(value / 128 / 128 <= u64::MAX);
            }
            lemma_uleb128_len_bound(value);
        }
        if rest.len() == 1 {
            assert(rest[0] == (value / 128) as u8);
        }
    }
}

proof fn lemma_uleb128_len_bound(value: nat)
    requires
        value <= u64::MAX,
    ensures
        uleb128(value).len() <= 10,
{
    lemma_pow128_values();
    lemma_uleb128_len_pow(value, 9);
}

proof fn lemma_pow128_values()
    ensures
        pow128(8) == 0x0100_0000_0000_0000nat,
        pow128(9) == 0x8000_0000_0000_0000nat,
        pow128(10) == 0x40_0000_0000_0000_0000nat,
        pow128(10) > u64::MAX,
{
    reveal_with_fuel(pow128, 11);
}

/// 128 to the power `k`.
pub open spec fn pow128(k: nat) -> nat
    decreases k,
{
    if k == 0 { 1 } else { 128 * pow128((k - 1) as nat) }
}

proof fn lemma_uleb128_len_pow(value: nat, k: nat)
    requires
        value < 2 * pow128(k),
    ensures
        uleb128(value).len() <= k + 1,
    decreases k,
{
    if value >= 128 {
        if k == 0 {
            assert(pow128(0) == 1);
        } else {
            assert(value / 128 < 2 * pow128((k - 1) as nat));
            lemma_uleb128_len_pow(value / 128, (k - 1) as nat);
        }
    }
}

proof fn lemma_leb_value_prefix(s: Seq<u8>, t: Seq<u8>, n: nat)
    requires
        n <= s.len(),
    ensures
        leb_value(s + t, n) == leb_value(s, n),
    decreases n,
{
    if n > 0 && s.len() > 0 {
        assert((s + t).drop_first() == s.drop_first() + t);
        lemma_leb_value_prefix(s.drop_first(), t, (n - 1) as nat);
    }
}

proof fn lemma_leb_length_prefix(s: Seq<u8>, t: Seq<u8>)
    requires
        s.len() > 0,
        leb_length(s) == s.len(),
    ensures
        leb_length(s + t) == s.len(),
    decreases s.len(),
{
    if s.len() > 0 && s[0] >= 128 {
        assert((s + t).drop_first() == s.drop_first() + t);
        lemma_leb_length_prefix(s.drop_first(), t);
    }
}

/// The reader recognises every canonical encoding, whatever follows it.
pub proof fn lemma_uleb128_prefix_of_encoding(value: u64, rest: Seq<u8>)
    ensures
        uleb128_prefix(uleb128(value as nat) + rest) == Some((value, uleb128(value as nat).len())),
{
    let e = uleb128(value as nat);
    lemma_uleb128_shape(value as nat);
    lemma_leb_length_prefix(e, rest);
    lemma_leb_value_prefix(e, rest, e.len());
    assert((e + rest)[e.len() - 1] == e[e.len() - 1]);
}

/// A canonical reading spans exactly the encoding of the value read.
pub proof fn lemma_uleb128_prefix_canonical(s: Seq<u8>)
    requires
        uleb128_prefix(s) is Some,
    ensures
        s.subrange(0, uleb128_prefix(s).unwrap().1 as int) == uleb128(uleb128_prefix(s).unwrap().0 as nat),
    decreases s.len(),
{
    let n = leb_length(s);
    let v = leb_value(s, n);
    lemma_leb_length_le(s);
    lemma_last_byte_terminates(s);
    if n == 1 {
        assert(leb_value(s.drop_first(), 0) == 0);
        assert(v == s[0] as nat);
        assert(s.subrange(0, 1) == seq![s[0]]);
    } else {
        let t = s.drop_first();
        assert(leb_length(t) == n - 1);
        let w = leb_value(t, (n - 1) as nat);
        assert(v == (s[0] % 128) as nat + 128 * w);
        assert(t[n - 2] == s[n - 1]);
        lemma_leb_value_bounds(t, (n - 1) as nat);
        if n - 1 > 1 {
            lemma_leb_value_lower(t, (n - 1) as nat);
            lemma_pow128_positive((n - 2) as nat);
        } else {
            assert(leb_value(t.drop_first(), 0) == 0);
            assert(w == t[0] as nat);
        }
        assert(w >= 1);
        assert(uleb128_prefix(t) == Some((w as u64, (n - 1) as nat)));
        lemma_uleb128_prefix_canonical(t);
        assert(v >= 128);
        assert(v % 128 == s[0] % 128) by (nonlinear_arith)
            requires v == (s[0] % 128) as nat + 128 * w;
        assert(v / 128 == w) by (nonlinear_arith)
            requires v == (s[0] % 128) as nat + 128 * w, (s[0] % 128) < 128;
        assert(s[0] == ((v % 128) + 128) as u8);
        assert(uleb128(v) == seq![((v % 128) + 128) as u8] + uleb128(v / 128));
        assert(s.subrange(0, n as int) == seq![s[0]] + t.subrange(0, (n - 1) as int));
    }
}

proof fn lemma_pow128_positive(k: nat)
    ensures
        pow128(k) >= 1,
    decreases k,
{
    if k > 0 {
        lemma_pow128_positive((k - 1) as nat);
    }
}

/// Reading the first `i + 1` groups adds the `i`-th group at weight 128^i.
proof fn lemma_leb_value_step(s: Seq<u8>, i: nat)
    requires
        i < s.len(),
    ensures
        leb_value(s, i + 1) == leb_value(s, i) + (s[i as int] % 128) as nat * pow128(i),
    decreases i,
{
    if i == 0 {
        assert(leb_value(s.drop_first(), 0) == 0);
        assert(leb_value(s, 0) == 0);
        assert(pow128(0) == 1);
    } else {
        lemma_leb_value_step(s.drop_first(), (i - 1) as nat);
        assert(s.drop_first()[(i - 1) as int] == s[i as int]);
        assert(leb_value(s, i + 1) == (s[0] % 128) as nat + 128 * leb_value(s.drop_first(), i));
        assert(leb_value(s, i) == (s[0] % 128) as nat + 128 * leb_value(s.drop_first(), (i - 1) as nat));
        let a = leb_value(s.drop_first(), (i - 1) as nat);
        let b = (s[i as int] % 128) as nat;
        assert(128 * (a + b * pow128((i - 1) as nat)) == 128 * a + b * (128 * pow128((i - 1) as nat)))
            by (nonlinear_arith);
    }
}

/// The first `n` bytes all continue and byte `n` terminates: the group
/// sequence then spans exactly `n + 1` bytes.
proof fn lemma_leb_length_at(s: Seq<u8>, n: nat)
    requires
        n < s.len(),
        forall|j: int| 0 <= j < n ==> s[j] >= 128,
        s[n as int] < 128,
    ensures
        leb_length(s) == n + 1,
    decreases n,
{
    if n > 0 {
        lemma_leb_length_at(s.drop_first(), (n - 1) as nat);
    }
}

/// When the first `n` bytes all continue, the group sequence is longer than `n`
/// (or absent).
proof fn lemma_leb_length_beyond(s: Seq<u8>, n: nat)
    requires
        n <= s.len(),
        forall|j: int| 0 <= j < n ==> s[j] >= 128,
    ensures
        leb_length(s) == 0 || leb_length(s) > n,
    decreases n,
{
    if n > 0 {
        lemma_leb_length_beyond(s.drop_first(), (n - 1) as nat);
    }
}

/// Values of groups are at least the weight of their last nonzero group.
proof fn lemma_leb_value_bounds(s: Seq<u8>, n: nat)
    requires
        n <= s.len(),
    ensures
        leb_value(s, n) < pow128(n),
    decreases n,
{
    if n > 0 {
        lemma_leb_value_bounds(s.drop_first(), (n - 1) as nat);
        let a = leb_value(s.drop_first(), (n - 1) as nat);
        let b = (s[0] % 128) as nat;
        assert(a + 1 <= pow128((n - 1) as nat));
        assert(b + 128 * a < 128 * pow128((n - 1) as nat)) by (nonlinear_arith)
            requires b < 128, a + 1 <= pow128((n - 1) as nat);
    }
}

/// A group sequence whose last group is not zero carries at least its weight.
proof fn lemma_leb_value_lower(s: Seq<u8>, n: nat)
    requires
        1 <= n <= s.len(),
        s[n - 1] % 128 != 0,
    ensures
        leb_value(s, n) >= pow128((n - 1) as nat),
{
    lemma_leb_value_step(s, (n - 1) as nat);
    let b = (s[n - 1] % 128) as nat;
    assert(b * pow128((n - 1) as nat) >= pow128((n - 1) as nat)) by (nonlinear_arith)
        requires b >= 1;
}

/// `r` failed with a `DataCorruption` error.
pub open spec fn is_corruption<T>(r: Result<T, DatabaseError>) -> bool {
    r matches Err(e) && e is DataCorruption
}

// ---------------------------------------------------------------------------
// Executable primitives
// ---------------------------------------------------------------------------

/// Builds a `DataCorruption` error carrying `message`.
pub fn corruption_error(message: String) -> (e: DatabaseError)
    ensures
        e == (DatabaseError::DataCorruption { message }),
{
    DatabaseError::DataCorruption { message }
}

fn truncated(field: &str) -> (e: DatabaseError)
    ensures
        e matches DatabaseError::DataCorruption { message } && message@ == "truncated "@ + field@,
{
    corruption_error(text::join("truncated ", field))
}

/// Appends every byte of `bytes` to `target`.
pub fn push_bytes(target: &mut Vec<u8>, bytes: &[u8])
    ensures
        final(target)@ == old(target)@ + bytes@,
{
    let mut i: usize = 0;
    while i < bytes.len()
        invariant
            i <= bytes@.len(),
            target@ == old(target)@ + bytes@.subrange(0, i as int),
        decreases bytes@.len() - i,
    {
        target.push(bytes[i]);
        i += 1;
        assert(bytes@.subrange(0, i as int) == bytes@.subrange(0, i - 1) + seq![bytes@[i - 1]]);
    }
    assert(bytes@.subrange(0, bytes@.len() as int) == bytes@);
}

pub fn push_u16(target: &mut Vec<u8>, x: u16)
    ensures
        final(target)@ == old(target)@ + u16_le(x),
{
    let bytes = u16_to_le_bytes(x);
    push_bytes(target, bytes.as_slice());
}

pub fn push_u32(target: &mut Vec<u8>, x: u32)
    ensures
        final(target)@ == old(target)@ + u32_le(x),
{
    let bytes = u32_to_le_bytes(x);
    push_bytes(target, bytes.as_slice());
}

pub fn push_i32(target: &mut Vec<u8>, x: i32)
    ensures
        final(target)@ == old(target)@ + i32_le(x),
{
    push_u32(target, x as u32);
}

pub fn push_u64(target: &mut Vec<u8>, x: u64)
    ensures
        final(target)@ == old(target)@ + u64_le(x),
{
    let bytes = u64_to_le_bytes(x);
    push_bytes(target, bytes.as_slice());
}

/// Appends the canonical ULEB128 encoding of `value` to `target`.
pub fn encode_uleb128(value: u64, target: &mut Vec<u8>)
    ensures
        final(target)@ == old(target)@ + uleb128(value as nat),
{
    let mut rest = value;
    loop
        invariant_except_break
            target@ + uleb128(rest as nat) == old(target)@ + uleb128(value as nat),
        ensures
            target@ == old(target)@ + uleb128(value as nat),
        decreases rest,
    {
        let low = (rest % 128) as u8;
        let ghost before = target@;
        let ghost r = rest as nat;
        rest = rest / 128;
        if rest != 0 {
            target.push(low + 128);
            assert(uleb128(r) == seq![((r % 128) + 128) as u8] + uleb128(r / 128));
            assert(target@ + uleb128(rest as nat) == before + uleb128(r));
        } else {
            target.push(low);
            assert(uleb128(r) == seq![r as u8]);
            break;
        }
    }
}

/// Appends `value` prefixed by its ULEB128 length.
pub fn encode_blob(value: &[u8], target: &mut Vec<u8>)
    ensures
        final(target)@ == old(target)@ + blob(value@),
{
    encode_uleb128(value.len() as u64, target);
    push_bytes(target, value);
}

/// Appends the UTF-8 bytes of `value` prefixed by their ULEB128 length.
pub fn encode_text(value: &str, target: &mut Vec<u8>)
    ensures
        final(target)@ == old(target)@ + blob(value.spec_bytes()),
{
    encode_blob(value.as_bytes(), target);
}

/// Takes the `length` bytes at `*cursor`, advancing the cursor past them.
pub fn take_slice<'a>(bytes: &'a [u8], cursor: &mut usize, length: usize, field: &str) -> (r: Result<&'a [u8], DatabaseError>)
    ensures
        *old(cursor) + length <= bytes@.len() ==> (r matches Ok(v) && v@ == bytes@.subrange(
            *old(cursor) as int,
            *old(cursor) + length,
        ) && *final(cursor) == *old(cursor) + length),
        *old(cursor) + length > bytes@.len() ==> is_corruption(r) && *final(cursor) == *old(cursor),
{
    if *cursor > bytes.len() || length > bytes.len() - *cursor {
        return Err(truncated(field));
    }
    let end = *cursor + length;
    let value = &bytes[*cursor..end];
    *cursor = end;
    Ok(value)
}

/// Reads one byte.
pub fn take_byte(bytes: &[u8], cursor: &mut usize, field: &str) -> (r: Result<u8, DatabaseError>)
    ensures
        *old(cursor) < bytes@.len() ==> r == Ok::<u8, DatabaseError>(bytes@[*old(cursor) as int])
            && *final(cursor) == *old(cursor) + 1 && bytes@.subrange(
            *old(cursor) as int,
            *final(cursor) as int,
        ) == seq![bytes@[*old(cursor) as int]],
        *old(cursor) >= bytes@.len() ==> is_corruption(r) && *final(cursor) == *old(cursor),
{
    let value = take_slice(bytes, cursor, 1, field)?;
    Ok(value[0])
}

/// Reads a little-endian `u16`.
pub fn take_u16(bytes: &[u8], cursor: &mut usize, field: &str) -> (r: Result<u16, DatabaseError>)
    ensures
        *old(cursor) + 2 <= bytes@.len() ==> r == Ok::<u16, DatabaseError>(
            spec_u16_from_le_bytes(bytes@.subrange(*old(cursor) as int, *old(cursor) + 2)),
        ) && *final(cursor) == *old(cursor) + 2,
        r matches Ok(v) ==> bytes@.subrange(*old(cursor) as int, *final(cursor) as int) == u16_le(v),
        *old(cursor) + 2 > bytes@.len() ==> is_corruption(r) && *final(cursor) == *old(cursor),
{
    let value = take_slice(bytes, cursor, 2, field)?;
    proof {
        lemma_auto_spec_u16_to_from_le_bytes();
    }
    Ok(u16_from_le_bytes(value))
}

/// Reads a little-endian `u32`.
pub fn take_u32(bytes: &[u8], cursor: &mut usize, field: &str) -> (r: Result<u32, DatabaseError>)
    ensures
        *old(cursor) + 4 <= bytes@.len() ==> r == Ok::<u32, DatabaseError>(
            spec_u32_from_le_bytes(bytes@.subrange(*old(cursor) as int, *old(cursor) + 4)),
        ) && *final(cursor) == *old(cursor) + 4,
        r matches Ok(v) ==> bytes@.subrange(*old(cursor) as int, *final(cursor) as int) == u32_le(v),
        *old(cursor) + 4 > bytes@.len() ==> is_corruption(r) && *final(cursor) == *old(cursor),
{
    let value = take_slice(bytes, cursor, 4, field)?;
    proof {
        lemma_auto_spec_u32_to_from_le_bytes();
    }
    Ok(u32_from_le_bytes(value))
}

/// Reads a little-endian two's-complement `i32`.
pub fn take_i32(bytes: &[u8], cursor: &mut usize, field: &str) -> (r: Result<i32, DatabaseError>)
    ensures
        *old(cursor) + 4 <= bytes@.len() ==> r == Ok::<i32, DatabaseError>(
            spec_u32_from_le_bytes(bytes@.subrange(*old(cursor) as int, *old(cursor) + 4)) as i32,
        ) && *final(cursor) == *old(cursor) + 4,
        r matches Ok(v) ==> bytes@.subrange(*old(cursor) as int, *final(cursor) as int) == i32_le(v),
        *old(cursor) + 4 > bytes@.len() ==> is_corruption(r) && *final(cursor) == *old(cursor),
{
    let value = take_u32(bytes, cursor, field)?;
    assert((value as i32) as u32 == value) by (bit_vector);
    Ok(value as i32)
}

/// Reads a little-endian `u64`.
pub fn take_u64(bytes: &[u8], cursor: &mut usize, field: &str) -> (r: Result<u64, DatabaseError>)
    ensures
        *old(cursor) + 8 <= bytes@.len() ==> r == Ok::<u64, DatabaseError>(
            spec_u64_from_le_bytes(bytes@.subrange(*old(cursor) as int, *old(cursor) + 8)),
        ) && *final(cursor) == *old(cursor) + 8,
        r matches Ok(v) ==> bytes@.subrange(*old(cursor) as int, *final(cursor) as int) == u64_le(v),
        *old(cursor) + 8 > bytes@.len() ==> is_corruption(r) && *final(cursor) == *old(cursor),
{
    let value = take_slice(bytes, cursor, 8, field)?;
    proof {
        lemma_auto_spec_u64_to_from_le_bytes();
    }
    Ok(u64_from_le_bytes(value))
}

/// Reads a canonical ULEB128 `u64` at `*cursor`.
///
/// Succeeds exactly when the bytes at the cursor start with the canonical
/// encoding of some `u64`, and then advances the cursor past it.
pub fn decode_uleb128(bytes: &[u8], cursor: &mut usize) -> (r: Result<u64, DatabaseError>)
    requires
        *old(cursor) <= bytes@.len(),
    ensures
        ({
            let rest = bytes@.subrange(*old(cursor) as int, bytes@.len() as int);
            match uleb128_prefix(rest) {
                Some((value, n)) => r == Ok::<u64, DatabaseError>(value) && *final(cursor)
                    == *old(cursor) + n,
                None => is_corruption(r),
            }
        }),
        *old(cursor) <= *final(cursor) <= bytes@.len(),
        r matches Ok(v) ==> bytes@.subrange(*old(cursor) as int, *final(cursor) as int) == uleb128(
            v as nat,
        ),
{
    let start = *cursor;
    let ghost rest = bytes@.subrange(start as int, bytes@.len() as int);
    let mut value: u64 = 0;
    let mut weight: u64 = 1;
    let mut index: usize = 0;
    while index < 10
        invariant
            *cursor == start + index,
            start == *old(cursor),
            start <= bytes@.len(),
            rest == bytes@.subrange(start as int, bytes@.len() as int),
            index <= 10,
            index <= rest.len(),
            forall|j: int| 0 <= j < index ==> rest[j] >= 128,
            value as nat == leb_value(rest, index as nat),
            index < 10 ==> weight as nat == pow128(index as nat),
            index < 10 ==> weight <= 0x8000_0000_0000_0000u64,
        decreases 10 - index,
    {
        if *cursor >= bytes.len() {
            proof {
                assert(index == rest.len());
                lemma_leb_length_beyond(rest, index as nat);
                lemma_leb_length_le(rest);
                assert(leb_length(rest) == 0);
            }
            return Err(truncated("ULEB128"));
        }
        let byte = bytes[*cursor];
        *cursor = *cursor + 1;
        assert(rest[index as int] == byte);
        let part = (byte % 128) as u64;
        if index == 9 && part > 1 {
            proof {
                lemma_overflow_at_ten(rest, byte);
            }
            return Err(corruption_error(text::text("ULEB128 overflow")));
        }
        proof {
            lemma_leb_value_step(rest, index as nat);
            lemma_leb_value_bounds(rest, index as nat);
            if index < 9 {
                lemma_pow128_small(index as nat);
            }
            lemma_pow128_values();
            if index == 9 {
                assert(part * weight <= weight) by (nonlinear_arith)
                    requires part <= 1;
            } else {
                assert(part * weight <= 127 * weight) by (nonlinear_arith)
                    requires part < 128;
            }
            assert(part * weight <= u64::MAX - value);
        }
        value = value + part * weight;
        if byte < 128 {
            proof {
                lemma_leb_length_at(rest, index as nat);
            }
            if index > 0 && byte == 0 {
                return Err(corruption_error(text::text("non-canonical ULEB128")));
            }
            proof {
                assert(leb_value(rest, (index + 1) as nat) == value as nat);
                lemma_uleb128_prefix_canonical(rest);
                assert(bytes@.subrange(start as int, *cursor as int) == rest.subrange(0, index + 1));
            }
            return Ok(value);
        }
        if index < 9 {
            proof {
                lemma_pow128_small(index as nat);
            }
            weight = weight * 128;
        }
        index = index + 1;
    }
    proof {
        lemma_leb_length_beyond(rest, 10);
        if leb_length(rest) > 0 {
            let n = leb_length(rest);
            lemma_leb_length_le(rest);
            lemma_last_byte_terminates(rest);
            if rest[n - 1] != 0 {
                lemma_leb_value_lower(rest, n);
                lemma_pow128_mono((n - 1) as nat, 10);
                lemma_pow128_values();
            }
        }
    }
    Err(corruption_error(text::text("ULEB128 overflow")))
}

proof fn lemma_pow128_small(i: nat)
    requires
        i < 9,
    ensures
        pow128(i) <= 0x0100_0000_0000_0000nat,
{
    lemma_pow128_mono(8, i);
    lemma_pow128_values();
}

proof fn lemma_pow128_mono(hi: nat, lo: nat)
    requires
        lo <= hi,
    ensures
        pow128(lo) <= pow128(hi),
    decreases hi,
{
    if lo < hi {
        lemma_pow128_mono((hi - 1) as nat, lo);
    }
}

proof fn lemma_leb_length_le(s: Seq<u8>)
    ensures
        leb_length(s) <= s.len(),
    decreases s.len(),
{
    if s.len() > 0 {
        lemma_leb_length_le(s.drop_first());
    }
}

proof fn lemma_last_byte_terminates(s: Seq<u8>)
    requires
        leb_length(s) > 0,
    ensures
        s[leb_length(s) - 1] < 128,
        forall|j: int| 0 <= j < leb_length(s) - 1 ==> s[j] >= 128,
    decreases s.len(),
{
    lemma_leb_length_le(s);
    if s[0] >= 128 {
        let t = s.drop_first();
        assert(leb_length(t) == leb_length(s) - 1);
        lemma_last_byte_terminates(t);
        lemma_leb_length_le(t);
        assert(s[leb_length(s) - 1] == t[leb_length(t) - 1]);
        assert forall|j: int| 0 <= j < leb_length(s) - 1 implies s[j] >= 128 by {
            if j > 0 {
                assert(s[j] == t[j - 1]);
            }
        }
    }
}

/// Ten continuing-or-terminating groups whose tenth carries more than one bit
/// never denote a `u64`.
proof fn lemma_overflow_at_ten(rest: Seq<u8>, byte: u8)
    requires
        rest.len() >= 10,
        forall|j: int| 0 <= j < 9 ==> rest[j] >= 128,
        rest[9] == byte,
        byte % 128 > 1,
    ensures
        uleb128_prefix(rest) is None,
{
    lemma_leb_length_beyond(rest, 9);
    if leb_length(rest) > 0 {
        let n = leb_length(rest);
        lemma_leb_length_le(rest);
        lemma_last_byte_terminates(rest);
        if n == 10 {
            lemma_leb_value_step(rest, 9);
            lemma_pow128_values();
            let b = (byte % 128) as nat;
            assert(b * pow128(9) >= 2 * pow128(9)) by (nonlinear_arith)
                requires b >= 2;
        } else if rest[n - 1] != 0 {
            lemma_leb_value_lower(rest, n);
            lemma_pow128_mono((n - 1) as nat, 10);
            lemma_pow128_values();
        }
    }
}

/// Reads a ULEB128 length followed by that many bytes.
pub fn decode_blob<'a>(bytes: &'a [u8], cursor: &mut usize) -> (r: Result<&'a [u8], DatabaseError>)
    requires
        *old(cursor) <= bytes@.len(),
    ensures
        ({
            let rest = bytes@.subrange(*old(cursor) as int, bytes@.len() as int);
            match uleb128_prefix(rest) {
                Some((length, n)) => if n + length <= rest.len() {
                    (r matches Ok(v) && v@ == rest.subrange(n as int, n + length)
                        && *final(cursor) == *old(cursor) + n + length)
                } else {
                    is_corruption(r)
                },
                None => is_corruption(r),
            }
        }),
        *old(cursor) <= *final(cursor) <= bytes@.len(),
        r matches Ok(v) ==> bytes@.subrange(*old(cursor) as int, *final(cursor) as int) == blob(v@),
{
    let ghost start = *cursor;
    let total = bytes.len();
    let length = decode_uleb128(bytes, cursor)?;
    let ghost middle = *cursor;
    if length > usize::MAX as u64 {
        return Err(corruption_error(text::text("byte-string length exceeds addressable memory")));
    }
    let r = take_slice(bytes, cursor, length as usize, "byte-string field");
    proof {
        let rest = bytes@.subrange(start as int, bytes@.len() as int);
        if r is Ok {
            assert(bytes@.subrange(*cursor - length, *cursor as int) == rest.subrange(
                *cursor - length - start,
                *cursor - start,
            ));
            assert(bytes@.subrange(start as int, *cursor as int) == bytes@.subrange(start as int, middle as int)
                + bytes@.subrange(middle as int, *cursor as int));
        }
    }
    r
}

/// The checksum used by every framed structure of the store.
pub fn crc32c(bytes: &[u8]) -> (crc: u32)
    ensures
        crc == crc32c_of(bytes@),
{
    let mut crc: u32 = 0xffff_ffff;
    let mut i: usize = 0;
    while i < bytes.len()
        invariant
            i <= bytes@.len(),
            crc == crc_register(bytes@.subrange(0, i as int)),
        decreases bytes@.len() - i,
    {
        let ghost prefix = bytes@.subrange(0, i + 1);
        assert(prefix.drop_last() == bytes@.subrange(0, i as int));
        crc = crc ^ (bytes[i] as u32);
        let mut k: usize = 0;
        while k < 8
            invariant
                k <= 8,
                crc_shifts(crc, (8 - k) as nat) == crc_register(prefix),
                prefix == bytes@.subrange(0, i + 1),
                i < bytes@.len(),
            decreases 8 - k,
        {
            crc = if crc % 2 == 1 { (crc >> 1) ^ 0x82f6_3b78 } else { crc >> 1 };
            k += 1;
        }
        i += 1;
    }
    assert(bytes@.subrange(0, bytes@.len() as int) == bytes@);
    !crc
}

/// Checks that the bytes at the cursor equal `expected`, advancing past them.
pub fn expect_bytes(bytes: &[u8], cursor: &mut usize, expected: &[u8], field: &str) -> (r: Result<(), DatabaseError>)
    ensures
        r is Ok <==> (*old(cursor) + expected@.len() <= bytes@.len() && bytes@.subrange(
            *old(cursor) as int,
            *old(cursor) + expected@.len(),
        ) == expected@),
        r is Ok ==> *final(cursor) == *old(cursor) + expected@.len(),
        r is Err ==> is_corruption(r),
{
    let found = take_slice(bytes, cursor, expected.len(), field)?;
    if !slices_equal(found, expected) {
        return Err(corruption_error(text::join("invalid ", field)));
    }
    Ok(())
}

/// Byte-for-byte equality of two slices.
pub fn slices_equal(a: &[u8], b: &[u8]) -> (r: bool)
    ensures
        r == (a@ == b@),
{
    if a.len() != b.len() {
        return false;
    }
    let mut i: usize = 0;
    while i < a.len()
        invariant
            i <= a@.len(),
            a@.len() == b@.len(),
            forall|j: int| 0 <= j < i ==> a@[j] == b@[j],
        decreases a@.len() - i,
    {
        if a[i] != b[i] {
            return false;
        }
        i += 1;
    }
    assert(a@ == b@);
    true
}

/// Reads a `u16` and checks it equals `expected`.
pub fn expect_u16(bytes: &[u8], cursor: &mut usize, expected: u16, field: &str) -> (r: Result<(), DatabaseError>)
    ensures
        r is Ok <==> (*old(cursor) + 2 <= bytes@.len() && spec_u16_from_le_bytes(
            bytes@.subrange(*old(cursor) as int, *old(cursor) + 2),
        ) == expected),
        r is Ok ==> *final(cursor) == *old(cursor) + 2,
        r is Err ==> is_corruption(r),
{
    let found = take_u16(bytes, cursor, field)?;
    if found != expected {
        return Err(corruption_error(text::join("invalid ", field)));
    }
    Ok(())
}

/// Reads a `u32` and checks it equals `expected`.
pub fn expect_u32(bytes: &[u8], cursor: &mut usize, expected: u32, field: &str) -> (r: Result<(), DatabaseError>)
    ensures
        r is Ok <==> (*old(cursor) + 4 <= bytes@.len() && spec_u32_from_le_bytes(
            bytes@.subrange(*old(cursor) as int, *old(cursor) + 4),
        ) == expected),
        r is Ok ==> *final(cursor) == *old(cursor) + 4,
        r is Err ==> is_corruption(r),
{
    let found = take_u32(bytes, cursor, field)?;
    if found != expected {
        return Err(corruption_error(text::join("invalid ", field)));
    }
    Ok(())
}

/// Reads a `u64` and checks it equals `expected`.
pub fn expect_u64(bytes: &[u8], cursor: &mut usize, expected: u64, field: &str) -> (r: Result<(), DatabaseError>)
    ensures
        r is Ok <==> (*old(cursor) + 8 <= bytes@.len() && spec_u64_from_le_bytes(
            bytes@.subrange(*old(cursor) as int, *old(cursor) + 8),
        ) == expected),
        r is Ok ==> *final(cursor) == *old(cursor) + 8,
        r is Err ==> is_corruption(r),
{
    let found = take_u64(bytes, cursor, field)?;
    if found != expected {
        return Err(corruption_error(text::join("invalid ", field)));
    }
    Ok(())
}

// ---------------------------------------------------------------------------
// Laws
// ---------------------------------------------------------------------------

/// Decoding what `encode_uleb128` wrote gives back the value and consumes
/// exactly the encoding, whatever bytes follow it.
pub proof fn uleb128_round_trip(value: u64, rest: Seq<u8>)
    ensures
        uleb128_prefix(uleb128(value as nat) + rest) == Some((value, uleb128(value as nat).len())),
        uleb128(value as nat).len() <= 10,
{
    lemma_uleb128_prefix_of_encoding(value, rest);
    lemma_uleb128_shape(value as nat);
}

/// Decoding a blob that `encode_blob` wrote gives back its bytes.
pub proof fn blob_round_trip(value: Seq<u8>, rest: Seq<u8>)
    requires
        value.len() <= u64::MAX,
    ensures
        ({
            let encoded = blob(value) + rest;
            let n = uleb128(value.len()).len();
            &&& uleb128_prefix(encoded) == Some((value.len() as u64, n))
            &&& n + value.len() <= encoded.len()
            &&& encoded.subrange(n as int, (n + value.len()) as int) == value
        }),
{
    let e = uleb128(value.len());
    assert(blob(value) + rest == e + (value + rest));
    lemma_uleb128_prefix_of_encoding(value.len() as u64, value + rest);
    let encoded = blob(value) + rest;
    assert(encoded.subrange(e.len() as int, (e.len() + value.len()) as int) == value);
}

} // verus!
