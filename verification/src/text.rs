//! Small text builders shared by messages, identifiers and codecs.

use vstd::prelude::*;
use vstd::string::StringExecFns;
use vstd::string::StrSliceExecFns;

verus! {

/// The decimal digits of `n`, most significant first, without sign or padding.
pub open spec fn decimal_text(n: nat) -> Seq<char>
    decreases n,
{
    if n < 10 {
        seq![digit_char(n)]
    } else {
        decimal_text(n / 10) + seq![digit_char(n % 10)]
    }
}

/// The ASCII character of a decimal digit.
pub open spec fn digit_char(d: nat) -> char {
    if d == 0 { '0' }
    else if d == 1 { '1' }
    else if d == 2 { '2' }
    else if d == 3 { '3' }
    else if d == 4 { '4' }
    else if d == 5 { '5' }
    else if d == 6 { '6' }
    else if d == 7 { '7' }
    else if d == 8 { '8' }
    else { '9' }
}

/// The lower-case hexadecimal character of a nibble.
pub open spec fn hex_char(d: nat) -> char {
    if d < 10 { digit_char(d) }
    else if d == 10 { 'a' }
    else if d == 11 { 'b' }
    else if d == 12 { 'c' }
    else if d == 13 { 'd' }
    else if d == 14 { 'e' }
    else { 'f' }
}

fn digit_str(d: u64) -> (s: &'static str)
    requires
        d < 16,
    ensures
        s@ == seq![hex_char(d as nat)],
{
    proof {
        reveal_strlit("0");
        reveal_strlit("1");
        reveal_strlit("2");
        reveal_strlit("3");
        reveal_strlit("4");
        reveal_strlit("5");
        reveal_strlit("6");
        reveal_strlit("7");
        reveal_strlit("8");
        reveal_strlit("9");
        reveal_strlit("a");
        reveal_strlit("b");
        reveal_strlit("c");
        reveal_strlit("d");
        reveal_strlit("e");
        reveal_strlit("f");
    }
    if d == 0 { "0" }
    else if d == 1 { "1" }
    else if d == 2 { "2" }
    else if d == 3 { "3" }
    else if d == 4 { "4" }
    else if d == 5 { "5" }
    else if d == 6 { "6" }
    else if d == 7 { "7" }
    else if d == 8 { "8" }
    else if d == 9 { "9" }
    else if d == 10 { "a" }
    else if d == 11 { "b" }
    else if d == 12 { "c" }
    else if d == 13 { "d" }
    else if d == 14 { "e" }
    else { "f" }
}

/// Appends the decimal representation of `n` to `target`.
pub fn push_decimal(target: &mut String, n: u64)
    ensures
        final(target)@ == old(target)@ + decimal_text(n as nat),
    decreases n,
{
    if n < 10 {
        target.append(digit_str(n));
    } else {
        push_decimal(target, n / 10);
        target.append(digit_str(n % 10));
    }
}

/// The decimal representation of `n`, as `u64::to_string` writes it.
pub fn decimal(n: u64) -> (s: String)
    ensures
        s@ == decimal_text(n as nat),
{
    let mut s = String::new();
    push_decimal(&mut s, n);
    assert(s@ == decimal_text(n as nat));
    s
}

/// The `width`-digit lower-case hexadecimal text of `n`, zero padded on the left.
pub open spec fn hex_text(n: nat, width: nat) -> Seq<char>
    decreases width,
{
    if width == 0 {
        Seq::empty()
    } else {
        hex_text(n / 16, (width - 1) as nat) + seq![hex_char(n % 16)]
    }
}

/// Appends exactly `width` lower-case hexadecimal digits of `n` (its low digits).
pub fn push_hex(target: &mut String, n: u64, width: u64)
    ensures
        final(target)@ == old(target)@ + hex_text(n as nat, width as nat),
    decreases width,
{
    if width > 0 {
        push_hex(target, n / 16, width - 1);
        target.append(digit_str(n % 16));
    }
}

/// Builds an owned string from a literal or borrowed text.
pub fn text(s: &str) -> (r: String)
    ensures
        r@ == s@,
{
    String::from_str(s)
}

/// Joins two texts.
pub fn join(a: &str, b: &str) -> (r: String)
    ensures
        r@ == a@ + b@,
{
    let mut r = String::from_str(a);
    r.append(b);
    r
}

// ---------------------------------------------------------------------------
// Decimal integers
// ---------------------------------------------------------------------------

/// An ASCII decimal digit.
pub open spec fn is_digit_char(c: char) -> bool {
    48 <= (c as u32) <= 57
}

/// The value of a sequence of decimal digits.
pub open spec fn char_digits_value(d: Seq<char>) -> nat
    decreases d.len(),
{
    if d.len() == 0 {
        0
    } else {
        10 * char_digits_value(d.drop_last()) + ((d.last() as u32) - 48) as nat
    }
}

/// Decimal digits without a superfluous leading zero.
pub open spec fn canonical_digits(d: Seq<char>) -> bool {
    &&& d.len() >= 1
    &&& forall|i: int| 0 <= i < d.len() ==> is_digit_char(#[trigger] d[i])
    &&& (d.len() >= 2 ==> (d[0] as u32) != 48)
}

/// The text of an integer as Rust prints it: a minus sign for negative
/// values, then the decimal digits.
pub open spec fn int_text(v: int) -> Seq<char> {
    if v < 0 {
        seq!['-'] + decimal_text((-v) as nat)
    } else {
        decimal_text(v as nat)
    }
}

proof fn lemma_digit_char(d: nat)
    requires
        d < 10,
    ensures
        is_digit_char(digit_char(d)),
        (digit_char(d) as u32) == 48 + d,
{
}

/// The printed digits of `n` are canonical and denote `n`.
pub proof fn lemma_decimal_text(n: nat)
    ensures
        canonical_digits(decimal_text(n)),
        char_digits_value(decimal_text(n)) == n,
        (decimal_text(n)[0] as u32) == 48 ==> n == 0,
    decreases n,
{
    if n < 10 {
        lemma_digit_char(n);
        let t = decimal_text(n);
        assert(t.drop_last() =~= Seq::<char>::empty());
        assert(char_digits_value(t) == 10 * char_digits_value(t.drop_last()) + ((t.last() as u32) - 48) as nat);
    } else {
        let q = n / 10;
        let r = n % 10;
        lemma_decimal_text(q);
        lemma_digit_char(r);
        let t = decimal_text(n);
        assert(t == decimal_text(q) + seq![digit_char(r)]);
        assert(t.drop_last() =~= decimal_text(q));
        assert(t.last() == digit_char(r));
        assert(char_digits_value(t) == 10 * char_digits_value(t.drop_last()) + ((t.last() as u32) - 48) as nat);
        assert(t[0] == decimal_text(q)[0]);
        assert(q >= 1);
        assert forall|i: int| 0 <= i < t.len() implies is_digit_char(#[trigger] t[i]) by {
            if i < t.len() - 1 {
                assert(t[i] == decimal_text(q)[i]);
            }
        }
        assert(10 * q + r == n);
    }
}

proof fn lemma_canonical_value_positive(d: Seq<char>)
    requires
        canonical_digits(d),
        (d[0] as u32) != 48,
    ensures
        char_digits_value(d) >= 1,
        d.len() >= 2 ==> char_digits_value(d) >= 10,
    decreases d.len(),
{
    if d.len() >= 2 {
        let p = d.drop_last();
        assert(p[0] == d[0]);
        assert forall|i: int| 0 <= i < p.len() implies is_digit_char(#[trigger] p[i]) by {
            assert(p[i] == d[i]);
        }
        lemma_canonical_value_positive(p);
    }
}

/// Canonical digits are the printed digits of their value.
pub proof fn lemma_canonical_digits(d: Seq<char>)
    requires
        canonical_digits(d),
    ensures
        decimal_text(char_digits_value(d)) == d,
    decreases d.len(),
{
    let v = char_digits_value(d);
    if d.len() == 1 {
        assert(d.drop_last().len() == 0);
        let x = ((d[0] as u32) - 48) as nat;
        assert(is_digit_char(d[0]));
        lemma_digit_char(x);
        assert(char_digits_value(d) == 10 * char_digits_value(d.drop_last()) + x);
        vstd::utf8::char_u32_cast(d[0], d[0] as u32);
        vstd::utf8::char_u32_cast(digit_char(x), digit_char(x) as u32);
        assert(digit_char(x) == d[0]);
        assert(decimal_text(v) =~= d);
    } else {
        let p = d.drop_last();
        assert(p[0] == d[0]);
        assert forall|i: int| 0 <= i < p.len() implies is_digit_char(#[trigger] p[i]) by {
            assert(p[i] == d[i]);
        }
        lemma_canonical_digits(p);
        lemma_canonical_value_positive(d);
        let a = char_digits_value(p);
        let b = ((d.last() as u32) - 48) as nat;
        assert(is_digit_char(d[d.len() - 1]));
        assert(v == 10 * a + b);
        assert(v / 10 == a && v % 10 == b) by (nonlinear_arith)
            requires
                v == 10 * a + b,
                b < 10,
        ;
        lemma_digit_char(b);
        vstd::utf8::char_u32_cast(d.last(), d.last() as u32);
        vstd::utf8::char_u32_cast(digit_char(b), digit_char(b) as u32);
        assert(digit_char(b) == d.last());
        assert(decimal_text(v) == decimal_text(v / 10) + seq![digit_char(v % 10)]);
        assert(decimal_text(v) =~= d);
    }
}

/// Appends the text of `v` as Rust prints an integer.
pub fn push_int(target: &mut String, v: i64)
    ensures
        final(target)@ == old(target)@ + int_text(v as int),
{
    proof {
        reveal_strlit("-");
    }
    if v < 0 {
        target.append("-");
        let magnitude: u64 = if v == i64::MIN {
            9223372036854775808
        } else {
            (-v) as u64
        };
        push_decimal(target, magnitude);
        assert(target@ =~= old(target)@ + int_text(v as int));
    } else {
        push_decimal(target, v as u64);
    }
}

/// The integer whose printed text is `text[0..end]`, if there is one that
/// fits an `i64`.
pub fn parse_int_text(text: &str, end: usize) -> (r: Option<i64>)
    requires
        end <= text@.len(),
    ensures
        match r {
            Some(v) => text@.subrange(0, end as int) == int_text(v as int),
            None => forall|v: i64| text@.subrange(0, end as int) != #[trigger] int_text(v as int),
        },
{
    let t = Ghost(text@.subrange(0, end as int));
    if end == 0 {
        proof {
            assert forall|v: i64| t@ != #[trigger] int_text(v as int) by {
                lemma_decimal_text(if v < 0 { (-v) as nat } else { v as nat });
                assert(int_text(v as int).len() >= 1);
            }
        }
        return None;
    }
    let negative = text.get_char(0) == '-';
    let start: usize = if negative { 1 } else { 0 };
    let ghost digits = t@.subrange(start as int, end as int);
    proof {
        assert forall|v: i64| t@ == #[trigger] int_text(v as int) implies (v < 0) == negative
            && digits == decimal_text(if v < 0 { (-v) as nat } else { v as nat }) by {
            let n = if v < 0 { (-v) as nat } else { v as nat };
            lemma_decimal_text(n);
            if v < 0 {
                assert(t@ =~= seq!['-'] + decimal_text(n));
                assert(t@[0] == '-');
                assert(digits =~= decimal_text(n));
            } else {
                assert(is_digit_char(decimal_text(n)[0]));
                assert(t@[0] == decimal_text(n)[0]);
                assert(digits =~= decimal_text(n));
            }
        }
    }
    if start == end {
        proof {
            assert forall|v: i64| t@ != #[trigger] int_text(v as int) by {
                if t@ == int_text(v as int) {
                    lemma_decimal_text(if v < 0 { (-v) as nat } else { v as nat });
                }
            }
        }
        return None;
    }
    let first = text.get_char(start);
    if first == '0' && end - start > 1 {
        proof {
            assert forall|v: i64| t@ != #[trigger] int_text(v as int) by {
                if t@ == int_text(v as int) {
                    lemma_decimal_text(if v < 0 { (-v) as nat } else { v as nat });
                    assert(digits[0] == first);
                }
            }
        }
        return None;
    }
    let limit: u64 = if negative { 9223372036854775808 } else { 9223372036854775807 };
    let mut value: u64 = 0;
    let mut i = start;
    while i < end
        invariant
            start < end <= text@.len(),
            start <= i <= end,
            t@ == text@.subrange(0, end as int),
            digits == t@.subrange(start as int, end as int),
            limit == (if negative { 9223372036854775808u64 } else { 9223372036854775807u64 }),
            forall|v: i64| t@ == #[trigger] int_text(v as int) ==> (v < 0) == negative && digits == decimal_text(
                if v < 0 {
                    (-v) as nat
                } else {
                    v as nat
                },
            ),
            forall|k: int| start <= k < i ==> is_digit_char(#[trigger] text@[k]),
            value == char_digits_value(text@.subrange(start as int, i as int)),
            value <= limit,
        decreases end - i,
    {
        let c = text.get_char(i);
        assert(text@.subrange(start as int, i + 1).drop_last() =~= text@.subrange(start as int, i as int));
        if (c as u32) < 48 || (c as u32) > 57 {
            proof {
                assert(digits[i - start] == c);
                lemma_not_int_text_non_digit(t@, digits, negative, i - start);
            }
            return None;
        }
        let d = ((c as u32) - 48) as u64;
        if value > (limit - d) / 10 {
            proof {
                assert(10 * value + d > limit) by (nonlinear_arith)
                    requires
                        value > (limit - d) / 10,
                        d <= 9,
                ;
                let pre = text@.subrange(start as int, i + 1);
                assert(pre =~= digits.subrange(0, i + 1 - start));
                assert(pre.last() == c);
                assert(char_digits_value(pre) == 10 * char_digits_value(pre.drop_last()) + ((pre.last() as u32) - 48) as nat);
                lemma_not_int_text_too_large(t@, digits, negative, i + 1 - start);
            }
            return None;
        }
        value = value * 10 + d;
        i = i + 1;
    }
    proof {
        assert(text@.subrange(start as int, end as int) =~= digits);
        assert(canonical_digits(digits)) by {
            assert forall|k: int| 0 <= k < digits.len() implies is_digit_char(#[trigger] digits[k]) by {
                assert(digits[k] == text@[start + k]);
            }
            assert(digits[0] == first);
        }
        lemma_canonical_digits(digits);
    }
    let v: i64 = if negative {
        if value == 9223372036854775808 {
            i64::MIN
        } else {
            -(value as i64)
        }
    } else {
        value as i64
    };
    proof {
        if negative {
            assert(t@ =~= seq!['-'] + digits);
            if value == 0 {
                lemma_decimal_text(0);
                assert(digits =~= decimal_text(0));
                assert(digits.len() == 1);
                assert forall|w: i64| t@ != #[trigger] int_text(w as int) by {
                    if t@ == int_text(w as int) {
                        lemma_decimal_text(if w < 0 { (-w) as nat } else { w as nat });
                    }
                }
            }
        } else {
            assert(t@ =~= digits);
        }
    }
    if negative && value == 0 {
        return None;
    }
    Some(v)
}

proof fn lemma_not_int_text_non_digit(t: Seq<char>, digits: Seq<char>, negative: bool, k: int)
    requires
        0 <= k < digits.len(),
        !is_digit_char(digits[k]),
        forall|v: i64| t == #[trigger] int_text(v as int) ==> (v < 0) == negative && digits == decimal_text(
            if v < 0 {
                (-v) as nat
            } else {
                v as nat
            },
        ),
    ensures
        forall|v: i64| t != #[trigger] int_text(v as int),
{
    assert forall|v: i64| t != #[trigger] int_text(v as int) by {
        if t == int_text(v as int) {
            lemma_decimal_text(if v < 0 { (-v) as nat } else { v as nat });
        }
    }
}

proof fn lemma_not_int_text_too_large(t: Seq<char>, digits: Seq<char>, negative: bool, k: int)
    requires
        0 <= k <= digits.len(),
        char_digits_value(digits.subrange(0, k)) > (if negative {
            9223372036854775808nat
        } else {
            9223372036854775807nat
        }),
        forall|i: int| 0 <= i < k ==> is_digit_char(#[trigger] digits[i]),
        forall|v: i64| t == #[trigger] int_text(v as int) ==> (v < 0) == negative && digits == decimal_text(
            if v < 0 {
                (-v) as nat
            } else {
                v as nat
            },
        ),
    ensures
        forall|v: i64| t != #[trigger] int_text(v as int),
{
    assert forall|v: i64| t != #[trigger] int_text(v as int) by {
        if t == int_text(v as int) {
            let n = if v < 0 { (-v) as nat } else { v as nat };
            lemma_decimal_text(n);
            lemma_prefix_value_bounded(digits, k);
        }
    }
}

proof fn lemma_prefix_value_bounded(d: Seq<char>, n: int)
    requires
        0 <= n <= d.len(),
        forall|i: int| 0 <= i < d.len() ==> is_digit_char(#[trigger] d[i]),
    ensures
        char_digits_value(d) >= char_digits_value(d.subrange(0, n)),
    decreases d.len() - n,
{
    if n < d.len() {
        assert(d.subrange(0, n + 1).drop_last() =~= d.subrange(0, n));
        assert(is_digit_char(d[n]));
        lemma_prefix_value_bounded(d, n + 1);
    } else {
        assert(d.subrange(0, n) =~= d);
    }
}

/// Different integers print differently.
pub proof fn int_text_injective(a: int, b: int)
    requires
        int_text(a) == int_text(b),
    ensures
        a == b,
{
    let na: nat = if a < 0 { (-a) as nat } else { a as nat };
    let nb: nat = if b < 0 { (-b) as nat } else { b as nat };
    lemma_decimal_text(na);
    lemma_decimal_text(nb);
    if a < 0 && b < 0 {
        assert(int_text(a).subrange(1, int_text(a).len() as int) =~= decimal_text(na));
        assert(int_text(b).subrange(1, int_text(b).len() as int) =~= decimal_text(nb));
    } else if a < 0 {
        assert(int_text(a)[0] == '-');
        assert(is_digit_char(decimal_text(nb)[0]));
    } else if b < 0 {
        assert(int_text(b)[0] == '-');
        assert(is_digit_char(decimal_text(na)[0]));
    }
}

} // verus!
