//! The strict JSON reader behind JSON literals: one value, optional
//! surrounding whitespace, no duplicate object keys, every number read by
//! `bigdecimal` and every string decoded by `serde_json`.

use crate::numeric::{decimal_numeral, decimals_equal, decode_json_string, is_decimal_numeral, json_string_value, same_number};
use vstd::prelude::*;

verus! {

// ---------------------------------------------------------------------------
// Grammar
// ---------------------------------------------------------------------------

pub open spec fn is_ws(b: u8) -> bool {
    b == 32 || b == 10 || b == 13 || b == 9
}

pub open spec fn is_digit(b: u8) -> bool {
    48 <= b <= 57
}

/// The first position at or after `i` that is not JSON whitespace.
pub open spec fn skip_ws(s: Seq<u8>, i: int) -> int
    decreases s.len() - i,
{
    if 0 <= i < s.len() && is_ws(s[i]) { skip_ws(s, i + 1) } else { i }
}

/// The first position at or after `i` that is not an ASCII digit.
pub open spec fn digits_end(s: Seq<u8>, i: int) -> int
    decreases s.len() - i,
{
    if 0 <= i < s.len() && is_digit(s[i]) { digits_end(s, i + 1) } else { i }
}

/// Inside a string body: the position just after the closing quote, or
/// `None` for an unterminated string or an unescaped control byte.
pub open spec fn string_close(s: Seq<u8>, i: int, escaped: bool) -> Option<int>
    decreases s.len() - i,
{
    if i < 0 || i >= s.len() {
        None
    } else if escaped {
        string_close(s, i + 1, false)
    } else if s[i] == 92 {
        string_close(s, i + 1, true)
    } else if s[i] == 34 {
        Some(i + 1)
    } else if s[i] < 0x20 {
        None
    } else {
        string_close(s, i + 1, false)
    }
}

/// A string at `i`: its decoded text and the position after it.
pub open spec fn string_at(s: Seq<u8>, i: int) -> Option<(Seq<char>, int)> {
    if 0 <= i < s.len() && s[i] == 34 {
        match string_close(s, i + 1, false) {
            Some(end) => match json_string_value(s.subrange(i, end)) {
                Some(text) => Some((text, end)),
                None => None,
            },
            None => None,
        }
    } else {
        None
    }
}

pub open spec fn byte_at(s: Seq<u8>, i: int, b: u8) -> bool {
    0 <= i < s.len() && s[i] == b
}

/// The end of the exponent part starting at `c`, if present and well formed.
pub open spec fn exponent_end(s: Seq<u8>, c: int) -> Option<int> {
    if byte_at(s, c, 101) || byte_at(s, c, 69) {
        let p = if byte_at(s, c + 1, 43) || byte_at(s, c + 1, 45) { c + 2 } else { c + 1 };
        let d = digits_end(s, p);
        if d == p { None } else { Some(d) }
    } else {
        Some(c)
    }
}

/// The end of the fraction part starting at `b`, if present and well formed.
pub open spec fn fraction_end(s: Seq<u8>, b: int) -> Option<int> {
    if byte_at(s, b, 46) {
        let d = digits_end(s, b + 1);
        if d == b + 1 { None } else { Some(d) }
    } else {
        Some(b)
    }
}

/// The end of the integer part starting at `a` (no leading zeros).
pub open spec fn integer_end(s: Seq<u8>, a: int) -> Option<int> {
    if byte_at(s, a, 48) {
        if 0 <= a + 1 < s.len() && is_digit(s[a + 1]) { None } else { Some(a + 1) }
    } else if 0 <= a < s.len() && 49 <= s[a] <= 57 {
        Some(digits_end(s, a + 1))
    } else {
        None
    }
}

/// A number at `i` and the position after it.
pub open spec fn number_at(s: Seq<u8>, i: int) -> Option<int> {
    let a = if byte_at(s, i, 45) { i + 1 } else { i };
    match integer_end(s, a) {
        Some(b) => match fraction_end(s, b) {
            Some(c) => match exponent_end(s, c) {
                Some(e) => if decimal_numeral(s.subrange(i, e)) { Some(e) } else { None },
                None => None,
            },
            None => None,
        },
        None => None,
    }
}

pub open spec fn keyword_at(s: Seq<u8>, i: int, keyword: Seq<u8>) -> Option<int> {
    if 0 <= i && i + keyword.len() <= s.len() && s.subrange(i, i + keyword.len()) == keyword {
        Some(i + keyword.len())
    } else {
        None
    }
}

pub open spec fn null_bytes() -> Seq<u8> {
    seq![110u8, 117, 108, 108]
}

pub open spec fn true_bytes() -> Seq<u8> {
    seq![116u8, 114, 117, 101]
}

pub open spec fn false_bytes() -> Seq<u8> {
    seq![102u8, 97, 108, 115, 101]
}

/// A value starting at or after `i` (leading whitespace allowed) and the
/// position after it. `fuel` bounds the nesting of the reading steps.
pub open spec fn value_at(s: Seq<u8>, i: int, fuel: nat) -> Option<int>
    decreases fuel, 2nat,
{
    if fuel == 0 {
        None
    } else {
        let j = skip_ws(s, i);
        if j < 0 || j >= s.len() {
            None
        } else if s[j] == 110 {
            keyword_at(s, j, null_bytes())
        } else if s[j] == 116 {
            keyword_at(s, j, true_bytes())
        } else if s[j] == 102 {
            keyword_at(s, j, false_bytes())
        } else if s[j] == 34 {
            match string_at(s, j) {
                Some(found) => Some(found.1),
                None => None,
            }
        } else if s[j] == 91 {
            array_at(s, j + 1, (fuel - 1) as nat)
        } else if s[j] == 123 {
            object_at(s, j + 1, (fuel - 1) as nat)
        } else if s[j] == 45 || is_digit(s[j]) {
            number_at(s, j)
        } else {
            None
        }
    }
}

/// After `[`: an empty array, or elements.
pub open spec fn array_at(s: Seq<u8>, i: int, fuel: nat) -> Option<int>
    decreases fuel, 1nat,
{
    if fuel == 0 {
        None
    } else {
        let j = skip_ws(s, i);
        if byte_at(s, j, 93) { Some(j + 1) } else { elements_at(s, j, (fuel - 1) as nat) }
    }
}

/// One element and what follows it: `]` or `,` and more elements.
pub open spec fn elements_at(s: Seq<u8>, i: int, fuel: nat) -> Option<int>
    decreases fuel, 0nat,
{
    if fuel == 0 {
        None
    } else {
        match value_at(s, i, (fuel - 1) as nat) {
            Some(e) => {
                let k = skip_ws(s, e);
                if byte_at(s, k, 93) {
                    Some(k + 1)
                } else if byte_at(s, k, 44) {
                    elements_at(s, k + 1, (fuel - 1) as nat)
                } else {
                    None
                }
            },
            None => None,
        }
    }
}

/// After `{`: an empty object, or members.
pub open spec fn object_at(s: Seq<u8>, i: int, fuel: nat) -> Option<int>
    decreases fuel, 1nat,
{
    if fuel == 0 {
        None
    } else {
        let j = skip_ws(s, i);
        if byte_at(s, j, 125) {
            Some(j + 1)
        } else {
            members_at(s, j, (fuel - 1) as nat, Seq::empty())
        }
    }
}

/// One member (a key not among `keys`, `:`, a value) and what follows it.
pub open spec fn members_at(s: Seq<u8>, i: int, fuel: nat, keys: Seq<Seq<char>>) -> Option<int>
    decreases fuel, 0nat,
{
    if fuel == 0 {
        None
    } else {
        let j = skip_ws(s, i);
        match string_at(s, j) {
            Some(key) => {
                let c = skip_ws(s, key.1);
                if !byte_at(s, c, 58) {
                    None
                } else {
                    match value_at(s, c + 1, (fuel - 1) as nat) {
                        Some(v) => {
                            if keys.contains(key.0) {
                                None
                            } else {
                                let d = skip_ws(s, v);
                                if byte_at(s, d, 125) {
                                    Some(d + 1)
                                } else if byte_at(s, d, 44) {
                                    members_at(s, d + 1, (fuel - 1) as nat, keys.push(key.0))
                                } else {
                                    None
                                }
                            }
                        },
                        None => None,
                    }
                }
            },
            None => None,
        }
    }
}

/// The reading budget for a text of `len` bytes: each reading step that does
/// not consume a byte is followed within two steps by one that does.
pub open spec fn json_fuel(len: nat) -> nat {
    if len <= 0x3fff_ffff_ffff_fffe { 4 * len + 4 } else { u64::MAX as nat }
}

/// `s` is exactly one JSON value with optional surrounding whitespace.
pub open spec fn json_text(s: Seq<u8>) -> bool {
    match value_at(s, 0, json_fuel(s.len())) {
        Some(end) => skip_ws(s, end) == s.len(),
        None => false,
    }
}

// ---------------------------------------------------------------------------
// Reader
// ---------------------------------------------------------------------------

/// A JSON value as compared semantically: numbers by value, objects as maps.
/// A number is held by its numeral, as it stands in the text.
pub enum SemanticJson {
    Null,
    Bool(bool),
    Number(Vec<u8>),
    String(String),
    Array(Vec<SemanticJson>),
    Object(Vec<(String, SemanticJson)>),
}

/// `v` is the value that the text at `i` reads as: the same shape as the
/// text, strings by their decoded text and numbers by their numerals.
pub open spec fn value_reads(s: Seq<u8>, i: int, fuel: nat, v: SemanticJson) -> bool
    decreases fuel, 2nat,
{
    if fuel == 0 {
        false
    } else {
        let j = skip_ws(s, i);
        if j < 0 || j >= s.len() {
            false
        } else if s[j] == 110 {
            v is Null
        } else if s[j] == 116 {
            v == SemanticJson::Bool(true)
        } else if s[j] == 102 {
            v == SemanticJson::Bool(false)
        } else if s[j] == 34 {
            v matches SemanticJson::String(t) && (string_at(s, j) matches Some(found) && t@ == found.0)
        } else if s[j] == 91 {
            v matches SemanticJson::Array(vs) && array_reads(s, j + 1, (fuel - 1) as nat, vs@)
        } else if s[j] == 123 {
            v matches SemanticJson::Object(ms) && object_reads(s, j + 1, (fuel - 1) as nat, ms@)
        } else {
            v matches SemanticJson::Number(t) && (number_at(s, j) matches Some(e) && t@ == s.subrange(j, e))
        }
    }
}

/// After `[`: the elements read, in order.
pub open spec fn array_reads(s: Seq<u8>, i: int, fuel: nat, vs: Seq<SemanticJson>) -> bool
    decreases fuel, 1nat,
{
    if fuel == 0 {
        false
    } else {
        let j = skip_ws(s, i);
        if byte_at(s, j, 93) { vs.len() == 0 } else { elements_reads(s, j, (fuel - 1) as nat, vs) }
    }
}

/// Elements through the closing `]`: the first read at `i`, the rest after a comma.
pub open spec fn elements_reads(s: Seq<u8>, i: int, fuel: nat, vs: Seq<SemanticJson>) -> bool
    decreases fuel, 0nat,
{
    if fuel == 0 || vs.len() == 0 {
        false
    } else {
        &&& value_reads(s, i, (fuel - 1) as nat, vs[0])
        &&& match value_at(s, i, (fuel - 1) as nat) {
            Some(e) => {
                let k = skip_ws(s, e);
                if byte_at(s, k, 93) {
                    vs.len() == 1
                } else {
                    byte_at(s, k, 44) && elements_reads(s, k + 1, (fuel - 1) as nat, vs.drop_first())
                }
            },
            None => false,
        }
    }
}

/// After `{`: the members read, in order.
pub open spec fn object_reads(s: Seq<u8>, i: int, fuel: nat, ms: Seq<(String, SemanticJson)>) -> bool
    decreases fuel, 1nat,
{
    if fuel == 0 {
        false
    } else {
        let j = skip_ws(s, i);
        if byte_at(s, j, 125) { ms.len() == 0 } else { members_reads(s, j, (fuel - 1) as nat, ms) }
    }
}

/// Members through the closing `}`: the first read at `i` (its key, `:` and
/// its value), the rest after a comma.
pub open spec fn members_reads(s: Seq<u8>, i: int, fuel: nat, ms: Seq<(String, SemanticJson)>) -> bool
    decreases fuel, 0nat,
{
    if fuel == 0 || ms.len() == 0 {
        false
    } else {
        let j = skip_ws(s, i);
        match string_at(s, j) {
            Some(key) => {
                let c = skip_ws(s, key.1);
                &&& ms[0].0@ == key.0
                &&& byte_at(s, c, 58)
                &&& value_reads(s, c + 1, (fuel - 1) as nat, ms[0].1)
                &&& match value_at(s, c + 1, (fuel - 1) as nat) {
                    Some(v) => {
                        let d = skip_ws(s, v);
                        if byte_at(s, d, 125) {
                            ms.len() == 1
                        } else {
                            byte_at(s, d, 44) && members_reads(s, d + 1, (fuel - 1) as nat, ms.drop_first())
                        }
                    },
                    None => false,
                }
            },
            None => false,
        }
    }
}

/// `v` is what the whole text `s` reads as.
pub open spec fn json_reads(s: Seq<u8>, v: SemanticJson) -> bool {
    value_reads(s, 0, json_fuel(s.len()), v)
}

struct JsonParser<'a> {
    source: &'a [u8],
    cursor: usize,
}

fn err(message: &str) -> (r: Result<SemanticJson, String>)
    ensures
        r matches Err(m) && m@ == message@,
{
    Err(crate::text::text(message))
}

impl<'a> JsonParser<'a> {
    fn peek(&self) -> (r: Option<u8>)
        ensures
            self.cursor < self.source@.len() ==> r == Some(self.source@[self.cursor as int]),
            self.cursor >= self.source@.len() ==> r is None,
    {
        if self.cursor < self.source.len() {
            Some(self.source[self.cursor])
        } else {
            None
        }
    }

    fn whitespace(&mut self)
        requires
            old(self).cursor <= old(self).source@.len(),
        ensures
            final(self).source == old(self).source,
            final(self).cursor == skip_ws(old(self).source@, old(self).cursor as int),
            old(self).cursor <= final(self).cursor <= final(self).source@.len(),
    {
        while self.cursor < self.source.len() && (self.source[self.cursor] == 32 || self.source[
            self.cursor] == 10 || self.source[self.cursor] == 13 || self.source[self.cursor] == 9)
            invariant
                self.source == old(self).source,
                old(self).cursor <= self.cursor <= self.source@.len(),
                skip_ws(self.source@, self.cursor as int) == skip_ws(
                    old(self).source@,
                    old(self).cursor as int,
                ),
            decreases self.source@.len() - self.cursor,
        {
            self.cursor += 1;
        }
    }

    fn digits(&mut self)
        requires
            old(self).cursor <= old(self).source@.len(),
        ensures
            final(self).source == old(self).source,
            final(self).cursor == digits_end(old(self).source@, old(self).cursor as int),
            old(self).cursor <= final(self).cursor <= final(self).source@.len(),
    {
        while self.cursor < self.source.len() && 48 <= self.source[self.cursor]
            && self.source[self.cursor] <= 57
            invariant
                self.source == old(self).source,
                old(self).cursor <= self.cursor <= self.source@.len(),
                digits_end(self.source@, self.cursor as int) == digits_end(
                    old(self).source@,
                    old(self).cursor as int,
                ),
            decreases self.source@.len() - self.cursor,
        {
            self.cursor += 1;
        }
    }

    fn consume(&mut self, expected: u8) -> (r: bool)
        requires
            old(self).cursor <= old(self).source@.len(),
        ensures
            final(self).source == old(self).source,
            r == byte_at(old(self).source@, old(self).cursor as int, expected),
            old(self).cursor <= final(self).cursor <= final(self).source@.len(),
            final(self).cursor == if r { old(self).cursor + 1 } else { old(self).cursor as int },
    {
        if self.cursor < self.source.len() && self.source[self.cursor] == expected {
            self.cursor += 1;
            true
        } else {
            false
        }
    }

    fn keyword(&mut self, keyword: &[u8]) -> (r: bool)
        requires
            old(self).cursor <= old(self).source@.len(),
        ensures
            final(self).source == old(self).source,
            old(self).cursor <= final(self).cursor <= final(self).source@.len(),
            match keyword_at(old(self).source@, old(self).cursor as int, keyword@) {
                Some(end) => r && final(self).cursor == end,
                None => !r,
            },
    {
        if keyword.len() > self.source.len() - self.cursor {
            return false;
        }
        let n = self.source.len();
        let mut i: usize = 0;
        while i < keyword.len()
            invariant
                n == self.source@.len(),
                self.cursor + keyword@.len() <= self.source@.len(),
                i <= keyword@.len(),
                forall|j: int| 0 <= j < i ==> self.source@[self.cursor + j] == keyword@[j],
            decreases keyword@.len() - i,
        {
            if self.source[self.cursor + i] != keyword[i] {
                assert(self.source@.subrange(self.cursor as int, self.cursor + keyword@.len())[i as int]
                    != keyword@[i as int]);
                return false;
            }
            i += 1;
        }
        assert(self.source@.subrange(self.cursor as int, self.cursor + keyword@.len()) == keyword@);
        self.cursor = self.cursor + keyword.len();
        true
    }

    /// A string whose opening quote is at the cursor.
    fn string(&mut self) -> (r: Result<String, String>)
        requires
            old(self).cursor <= old(self).source@.len(),
        ensures
            final(self).source == old(self).source,
            final(self).cursor <= final(self).source@.len(),
            match string_at(old(self).source@, old(self).cursor as int) {
                Some(found) => r matches Ok(text) && text@ == found.0 && final(self).cursor == found.1,
                None => r is Err,
            },
    {
        let start = self.cursor;
        if !self.consume(34) {
            return Err(crate::text::text("expected a JSON string"));
        }
        let mut escaped = false;
        while self.cursor < self.source.len()
            invariant
                self.source == old(self).source,
                start == old(self).cursor,
                start < self.cursor <= self.source@.len(),
                self.source@[start as int] == 34,
                string_close(self.source@, self.cursor as int, escaped) == string_close(
                    self.source@,
                    start + 1,
                    false,
                ),
            decreases self.source@.len() - self.cursor,
        {
            let byte = self.source[self.cursor];
            self.cursor += 1;
            if escaped {
                escaped = false;
            } else if byte == 92 {
                escaped = true;
            } else if byte == 34 {
                let token = &self.source[start..self.cursor];
                return match decode_json_string(token) {
                    Some(text) => Ok(text),
                    None => Err(crate::text::text("invalid JSON string")),
                };
            } else if byte < 0x20 {
                return Err(crate::text::text("unescaped JSON control byte"));
            }
        }
        Err(crate::text::text("unterminated JSON string"))
    }

    /// A number starting at the cursor.
    fn number(&mut self) -> (r: Result<SemanticJson, String>)
        requires
            old(self).cursor <= old(self).source@.len(),
        ensures
            final(self).source == old(self).source,
            final(self).cursor <= final(self).source@.len(),
            match number_at(old(self).source@, old(self).cursor as int) {
                Some(end) => r is Ok && final(self).cursor == end,
                None => r is Err,
            },
            r matches Ok(v) ==> (v matches SemanticJson::Number(t) && t@ == old(self).source@.subrange(
                old(self).cursor as int,
                final(self).cursor as int,
            )),
    {
        let start = self.cursor;
        let _ = self.consume(45);
        let a = self.cursor;
        if self.consume(48) {
            if self.cursor < self.source.len() && 48 <= self.source[self.cursor]
                && self.source[self.cursor] <= 57 {
                return err("leading zero in JSON number");
            }
        } else if self.cursor < self.source.len() && 49 <= self.source[self.cursor]
            && self.source[self.cursor] <= 57 {
            self.cursor += 1;
            self.digits();
        } else {
            return err("invalid JSON number");
        }
        assert(integer_end(self.source@, a as int) == Some(self.cursor as int));
        let b = self.cursor;
        if self.consume(46) {
            let fraction_start = self.cursor;
            self.digits();
            if self.cursor == fraction_start {
                return err("missing JSON fraction");
            }
        }
        assert(fraction_end(self.source@, b as int) == Some(self.cursor as int));
        let c = self.cursor;
        if self.consume(101) || self.consume(69) {
            let _ = self.consume(43) || self.consume(45);
            let exponent_start = self.cursor;
            self.digits();
            if self.cursor == exponent_start {
                return err("missing JSON exponent");
            }
        }
        assert(exponent_end(self.source@, c as int) == Some(self.cursor as int));
        assert(start <= self.cursor <= self.source@.len());
        let token = &self.source[start..self.cursor];
        if is_decimal_numeral(token) {
            Ok(SemanticJson::Number(vstd::slice::slice_to_vec(token)))
        } else {
            err("invalid JSON number")
        }
    }

    /// A value, after optional whitespace.
    fn value(&mut self, fuel: u64) -> (r: Result<SemanticJson, String>)
        requires
            old(self).cursor <= old(self).source@.len(),
        ensures
            final(self).source == old(self).source,
            final(self).cursor <= final(self).source@.len(),
            match value_at(old(self).source@, old(self).cursor as int, fuel as nat) {
                Some(end) => r is Ok && final(self).cursor == end,
                None => r is Err,
            },
            r matches Ok(v) ==> value_reads(old(self).source@, old(self).cursor as int, fuel as nat, v),
        decreases fuel, 2nat,
    {
        if fuel == 0 {
            return err("JSON nesting exhausts the reading budget");
        }
        self.whitespace();
        match self.peek() {
            Some(110) => if self.keyword(&[110u8, 117, 108, 108]) {
                Ok(SemanticJson::Null)
            } else {
                err("invalid JSON token")
            },
            Some(116) => if self.keyword(&[116u8, 114, 117, 101]) {
                Ok(SemanticJson::Bool(true))
            } else {
                err("invalid JSON token")
            },
            Some(102) => if self.keyword(&[102u8, 97, 108, 115, 101]) {
                Ok(SemanticJson::Bool(false))
            } else {
                err("invalid JSON token")
            },
            Some(34) => match self.string() {
                Ok(text) => Ok(SemanticJson::String(text)),
                Err(message) => Err(message),
            },
            Some(91) => {
                let _ = self.consume(91);
                self.array(fuel - 1)
            },
            Some(123) => {
                let _ = self.consume(123);
                self.object(fuel - 1)
            },
            Some(byte) => if byte == 45 || (48 <= byte && byte <= 57) {
                self.number()
            } else {
                err("invalid JSON byte")
            },
            None => err("empty or truncated JSON"),
        }
    }

    /// The rest of an array after `[`.
    fn array(&mut self, fuel: u64) -> (r: Result<SemanticJson, String>)
        requires
            old(self).cursor <= old(self).source@.len(),
        ensures
            final(self).source == old(self).source,
            final(self).cursor <= final(self).source@.len(),
            match array_at(old(self).source@, old(self).cursor as int, fuel as nat) {
                Some(end) => r is Ok && final(self).cursor == end,
                None => r is Err,
            },
            r matches Ok(v) ==> (v matches SemanticJson::Array(vs) && array_reads(
                old(self).source@,
                old(self).cursor as int,
                fuel as nat,
                vs@,
            )),
        decreases fuel, 1nat,
    {
        if fuel == 0 {
            return err("JSON nesting exhausts the reading budget");
        }
        self.whitespace();
        if self.consume(93) {
            return Ok(SemanticJson::Array(Vec::new()));
        }
        let mut values = Vec::new();
        let r = self.elements(fuel - 1, &mut values);
        proof {
            match &r {
                Ok(SemanticJson::Array(vs)) => {
                    assert(vs@.skip(0) =~= vs@);
                },
                _ => {},
            }
        }
        r
    }

    /// Elements of an array, appended to `values`, through the closing `]`.
    fn elements(&mut self, fuel: u64, values: &mut Vec<SemanticJson>) -> (r: Result<SemanticJson, String>)
        requires
            old(self).cursor <= old(self).source@.len(),
        ensures
            final(self).source == old(self).source,
            final(self).cursor <= final(self).source@.len(),
            match elements_at(old(self).source@, old(self).cursor as int, fuel as nat) {
                Some(end) => r is Ok && final(self).cursor == end,
                None => r is Err,
            },
            r matches Ok(v) ==> (v matches SemanticJson::Array(vs) && vs@.len() >= old(values)@.len() && vs@.take(
                old(values)@.len() as int,
            ) == old(values)@ && elements_reads(
                old(self).source@,
                old(self).cursor as int,
                fuel as nat,
                vs@.skip(old(values)@.len() as int),
            )),
        decreases fuel, 0nat,
    {
        if fuel == 0 {
            return err("JSON nesting exhausts the reading budget");
        }
        let ghost before = values@;
        let value = self.value(fuel - 1);
        match value {
            Ok(value) => {
                let ghost read = value;
                values.push(value);
                let ghost pushed = values@;
                assert(pushed == before.push(read));
                self.whitespace();
                if self.consume(93) {
                    let mut collected = Vec::new();
                    std::mem::swap(&mut collected, values);
                    proof {
                        assert(collected@.take(before.len() as int) =~= before);
                        assert(collected@.skip(before.len() as int) =~= seq![read]);
                    }
                    Ok(SemanticJson::Array(collected))
                } else if self.consume(44) {
                    let r = self.elements(fuel - 1, values);
                    proof {
                        match &r {
                            Ok(SemanticJson::Array(vs)) => {
                                assert(vs@.take(pushed.len() as int) == pushed);
                                assert(vs@.take(before.len() as int) =~= before) by {
                                    assert forall|q: int| 0 <= q < before.len() implies vs@.take(before.len() as int)[q]
                                        == before[q] by {
                                        assert(vs@.take(pushed.len() as int)[q] == pushed[q]);
                                    }
                                }
                                let rest = vs@.skip(before.len() as int);
                                assert(rest[0] == read) by {
                                    assert(vs@.take(pushed.len() as int)[before.len() as int] == pushed[before.len() as int]);
                                }
                                assert(rest.drop_first() =~= vs@.skip(pushed.len() as int));
                            },
                            _ => {},
                        }
                    }
                    r
                } else {
                    err("expected ',' or ']' in JSON array")
                }
            },
            Err(message) => Err(message),
        }
    }

    /// The rest of an object after `{`.
    fn object(&mut self, fuel: u64) -> (r: Result<SemanticJson, String>)
        requires
            old(self).cursor <= old(self).source@.len(),
        ensures
            final(self).source == old(self).source,
            final(self).cursor <= final(self).source@.len(),
            match object_at(old(self).source@, old(self).cursor as int, fuel as nat) {
                Some(end) => r is Ok && final(self).cursor == end,
                None => r is Err,
            },
            r matches Ok(v) ==> (v matches SemanticJson::Object(ms) && object_reads(
                old(self).source@,
                old(self).cursor as int,
                fuel as nat,
                ms@,
            )),
        decreases fuel, 1nat,
    {
        if fuel == 0 {
            return err("JSON nesting exhausts the reading budget");
        }
        self.whitespace();
        if self.consume(125) {
            return Ok(SemanticJson::Object(Vec::new()));
        }
        let mut members = Vec::new();
        assert(members@.map_values(|m: (String, SemanticJson)| m.0@) =~= Seq::<Seq<char>>::empty());
        let r = self.members(fuel - 1, &mut members);
        proof {
            match &r {
                Ok(SemanticJson::Object(ms)) => {
                    assert(ms@.skip(0) =~= ms@);
                },
                _ => {},
            }
        }
        r
    }

    /// Members of an object, appended to `members`, through the closing `}`.
    fn members(&mut self, fuel: u64, members: &mut Vec<(String, SemanticJson)>) -> (r: Result<
        SemanticJson,
        String,
    >)
        requires
            old(self).cursor <= old(self).source@.len(),
        ensures
            final(self).source == old(self).source,
            final(self).cursor <= final(self).source@.len(),
            match members_at(
                old(self).source@,
                old(self).cursor as int,
                fuel as nat,
                old(members)@.map_values(|m: (String, SemanticJson)| m.0@),
            ) {
                Some(end) => r is Ok && final(self).cursor == end,
                None => r is Err,
            },
            r matches Ok(v) ==> (v matches SemanticJson::Object(ms) && ms@.len() >= old(members)@.len() && ms@.take(
                old(members)@.len() as int,
            ) == old(members)@ && members_reads(
                old(self).source@,
                old(self).cursor as int,
                fuel as nat,
                ms@.skip(old(members)@.len() as int),
            )),
        decreases fuel, 0nat,
    {
        if fuel == 0 {
            return err("JSON nesting exhausts the reading budget");
        }
        let ghost keys = members@.map_values(|m: (String, SemanticJson)| m.0@);
        self.whitespace();
        let key = match self.string() {
            Ok(key) => key,
            Err(message) => return Err(message),
        };
        self.whitespace();
        if !self.consume(58) {
            return err("expected ':' in JSON object");
        }
        let value = match self.value(fuel - 1) {
            Ok(value) => value,
            Err(message) => return Err(message),
        };
        if contains_key(members, &key) {
            return err("duplicate JSON object key");
        }
        let ghost before = members@;
        let ghost read = (key, value);
        members.push((key, value));
        let ghost pushed = members@;
        assert(pushed == before.push(read));
        assert(members@.map_values(|m: (String, SemanticJson)| m.0@) == keys.push(key@));
        self.whitespace();
        if self.consume(125) {
            let mut collected = Vec::new();
            std::mem::swap(&mut collected, members);
            proof {
                assert(collected@.take(before.len() as int) =~= before);
                assert(collected@.skip(before.len() as int) =~= seq![read]);
            }
            Ok(SemanticJson::Object(collected))
        } else if self.consume(44) {
            let r = self.members(fuel - 1, members);
            proof {
                match &r {
                    Ok(SemanticJson::Object(ms)) => {
                        assert(ms@.take(pushed.len() as int) == pushed);
                        assert(ms@.take(before.len() as int) =~= before) by {
                            assert forall|q: int| 0 <= q < before.len() implies ms@.take(before.len() as int)[q]
                                == before[q] by {
                                assert(ms@.take(pushed.len() as int)[q] == pushed[q]);
                            }
                        }
                        let rest = ms@.skip(before.len() as int);
                        assert(rest[0] == read) by {
                            assert(ms@.take(pushed.len() as int)[before.len() as int] == pushed[before.len() as int]);
                        }
                        assert(rest.drop_first() =~= ms@.skip(pushed.len() as int));
                    },
                    _ => {},
                }
            }
            r
        } else {
            err("expected ',' or '}' in JSON object")
        }
    }
}

fn contains_key(members: &Vec<(String, SemanticJson)>, key: &String) -> (r: bool)
    ensures
        r == members@.map_values(|m: (String, SemanticJson)| m.0@).contains(key@),
{
    let ghost keys = members@.map_values(|m: (String, SemanticJson)| m.0@);
    let mut i: usize = 0;
    while i < members.len()
        invariant
            i <= members@.len(),
            keys == members@.map_values(|m: (String, SemanticJson)| m.0@),
            forall|j: int| 0 <= j < i ==> keys[j] != key@,
        decreases members@.len() - i,
    {
        if members[i].0 == *key {
            assert(keys[i as int] == key@);
            return true;
        }
        i += 1;
    }
    false
}

fn fuel_for(len: usize) -> (fuel: u64)
    ensures
        fuel as nat == json_fuel(len as nat),
{
    if len as u64 <= 0x3fff_ffff_ffff_fffe {
        4 * (len as u64) + 4
    } else {
        u64::MAX
    }
}

/// Reads `source` as exactly one JSON value with optional surrounding whitespace.
pub fn parse_json(source: &[u8]) -> (r: Result<SemanticJson, String>)
    ensures
        r is Ok <==> json_text(source@),
        r matches Ok(v) ==> json_reads(source@, v),
{
    let mut parser = JsonParser { source, cursor: 0 };
    let fuel = fuel_for(source.len());
    let value = parser.value(fuel);
    match value {
        Ok(value) => {
            parser.whitespace();
            if parser.cursor != source.len() {
                return err("trailing JSON data");
            }
            Ok(value)
        },
        Err(message) => Err(message),
    }
}

/// Semantic equality of two read values: numbers by value, strings by text,
/// arrays element by element, and objects member by member, each member of
/// `a` having its key in `b` and every member of `b` with that key an equal
/// value.
pub open spec fn json_equal(a: SemanticJson, b: SemanticJson) -> bool
    decreases a,
{
    match a {
        SemanticJson::Null => b is Null,
        SemanticJson::Bool(x) => b matches SemanticJson::Bool(y) && x == y,
        SemanticJson::Number(x) => b matches SemanticJson::Number(y) && decimal_numeral(x@) && decimal_numeral(y@)
            && same_number(x@, y@),
        SemanticJson::String(x) => b matches SemanticJson::String(y) && x@ == y@,
        SemanticJson::Array(x) => b matches SemanticJson::Array(y) && x@.len() == y@.len() && forall|i: int|
            0 <= i < x@.len() ==> json_equal(#[trigger] x@[i], y@[i]),
        SemanticJson::Object(x) => b matches SemanticJson::Object(y) && x@.len() == y@.len() && (forall|i: int|
            0 <= i < x@.len() ==> key_in((#[trigger] x@[i]).0@, y@)) && (forall|i: int, j: int|
            0 <= i < x@.len() && 0 <= j < y@.len() && (#[trigger] x@[i]).0@ == (#[trigger] y@[j]).0@ ==> json_equal(
                x@[i].1,
                y@[j].1,
            )),
    }
}

/// Two JSON strings are semantically equal exactly when their texts are
/// equal; so a string equals itself and differs from every other text.
pub proof fn json_strings_equal_by_text(x: String, y: String)
    ensures
        json_equal(SemanticJson::String(x), SemanticJson::String(y)) ==> x@ == y@,
        x@ == y@ ==> json_equal(SemanticJson::String(x), SemanticJson::String(y)),
        json_equal(SemanticJson::String(x), SemanticJson::String(x)),
{
}

/// Semantically equal JSON values are of one kind: null with null, equal
/// booleans, strings of equal text, arrays and objects of equal length.
pub proof fn json_equal_values_are_of_one_kind(a: SemanticJson, b: SemanticJson)
    requires
        json_equal(a, b),
    ensures
        a is Null <==> b is Null,
        a is Bool <==> b is Bool,
        a is Number <==> b is Number,
        a is String <==> b is String,
        a is Array <==> b is Array,
        a is Object <==> b is Object,
        a matches SemanticJson::Bool(x) ==> b matches SemanticJson::Bool(y) && x == y,
        a matches SemanticJson::String(x) ==> b matches SemanticJson::String(y) && x@ == y@,
        a matches SemanticJson::Array(x) ==> b matches SemanticJson::Array(y) && x@.len() == y@.len(),
        a matches SemanticJson::Object(x) ==> b matches SemanticJson::Object(y) && x@.len() == y@.len(),
{
}

/// Some member of `members` has the key `key`.
pub open spec fn key_in(key: Seq<char>, members: Seq<(String, SemanticJson)>) -> bool {
    exists|j: int| 0 <= j < members.len() && (#[trigger] members[j]).0@ == key
}

#[verifier::loop_isolation(false)]
/// Semantic equality: numbers by value, strings by decoded text, arrays
/// element-wise, objects as maps from keys to values.
pub fn semantic_json_equal(left: &SemanticJson, right: &SemanticJson) -> (equal: bool)
    ensures
        equal == json_equal(*left, *right),
    decreases left,
{
    match (left, right) {
        (SemanticJson::Null, SemanticJson::Null) => true,
        (SemanticJson::Bool(a), SemanticJson::Bool(b)) => *a == *b,
        (SemanticJson::Number(a), SemanticJson::Number(b)) => match decimals_equal(a.as_slice(), b.as_slice()) {
            Some(equal) => equal,
            None => false,
        },
        (SemanticJson::String(a), SemanticJson::String(b)) => *a == *b,
        (SemanticJson::Array(a), SemanticJson::Array(b)) => {
            if a.len() != b.len() {
                return false;
            }
            let mut i: usize = 0;
            while i < a.len()
                invariant
                    *left == SemanticJson::Array(*a),
                    *right == SemanticJson::Array(*b),
                    i <= a@.len(),
                    a@.len() == b@.len(),
                    forall|k: int| 0 <= k < i ==> json_equal(#[trigger] a@[k], b@[k]),
                decreases a@.len() - i,
            {
                assert(decreases_to!(*a => a[i as int]));
                if !semantic_json_equal(&a[i], &b[i]) {
                    return false;
                }
                i += 1;
            }
            assert(json_equal(*left, *right));
            true
        },
        (SemanticJson::Object(a), SemanticJson::Object(b)) => {
            if a.len() != b.len() {
                return false;
            }
            let mut i: usize = 0;
            while i < a.len()
                invariant
                    *left == SemanticJson::Object(*a),
                    *right == SemanticJson::Object(*b),
                    i <= a@.len(),
                    a@.len() == b@.len(),
                    forall|k: int| 0 <= k < i ==> key_in((#[trigger] a@[k]).0@, b@),
                    forall|k: int, q: int|
                        0 <= k < i && 0 <= q < b@.len() && (#[trigger] a@[k]).0@ == (#[trigger] b@[q]).0@ ==> json_equal(
                            a@[k].1,
                            b@[q].1,
                        ),
                decreases a@.len() - i,
            {
                let mut found = false;
                let mut j: usize = 0;
                while j < b.len()
                    invariant
                        *left == SemanticJson::Object(*a),
                        i < a@.len(),
                        j <= b@.len(),
                        found == exists|q: int| 0 <= q < j && a@[i as int].0@ == (#[trigger] b@[q]).0@,
                        forall|q: int|
                            0 <= q < j && a@[i as int].0@ == (#[trigger] b@[q]).0@ ==> json_equal(a@[i as int].1, b@[q].1),
                    decreases b@.len() - j,
                {
                    if a[i].0 == b[j].0 {
                        assert(decreases_to!(*a => a[i as int]));
                        if !semantic_json_equal(&a[i].1, &b[j].1) {
                            proof {
                                assert(a@[i as int].0@ == b@[j as int].0@);
                                assert(!json_equal(*left, *right));
                            }
                            return false;
                        }
                        found = true;
                    }
                    j += 1;
                }
                if !found {
                    proof {
                        if json_equal(*left, *right) {
                            assert(key_in(a@[i as int].0@, b@));
                        }
                    }
                    return false;
                }
                i += 1;
            }
            assert(json_equal(*left, *right));
            true
        },
        _ => false,
    }
}

// ---------------------------------------------------------------------------
// One text, one reading
// ---------------------------------------------------------------------------

/// Two read values are the same reading: the same shape, with the same
/// texts, numerals and keys.
pub open spec fn json_same(a: SemanticJson, b: SemanticJson) -> bool
    decreases a,
{
    match a {
        SemanticJson::Null => b is Null,
        SemanticJson::Bool(x) => b matches SemanticJson::Bool(y) && x == y,
        SemanticJson::Number(x) => b matches SemanticJson::Number(y) && x@ == y@,
        SemanticJson::String(x) => b matches SemanticJson::String(y) && x@ == y@,
        SemanticJson::Array(x) => b matches SemanticJson::Array(y) && x@.len() == y@.len() && forall|i: int|
            0 <= i < x@.len() ==> json_same(#[trigger] x@[i], y@[i]),
        SemanticJson::Object(x) => b matches SemanticJson::Object(y) && x@.len() == y@.len() && forall|i: int|
            0 <= i < x@.len() ==> (#[trigger] x@[i]).0@ == y@[i].0@ && json_same(x@[i].1, y@[i].1),
    }
}

proof fn lemma_value_reads_same(s: Seq<u8>, i: int, fuel: nat, v: SemanticJson, w: SemanticJson)
    requires
        value_reads(s, i, fuel, v),
        value_reads(s, i, fuel, w),
    ensures
        json_same(v, w),
    decreases fuel, 2nat,
{
    let j = skip_ws(s, i);
    if s[j] == 91 {
        match (v, w) {
            (SemanticJson::Array(x), SemanticJson::Array(y)) => {
                lemma_array_reads_same(s, j + 1, (fuel - 1) as nat, x@, y@);
            },
            _ => {},
        }
    } else if s[j] == 123 {
        match (v, w) {
            (SemanticJson::Object(x), SemanticJson::Object(y)) => {
                lemma_object_reads_same(s, j + 1, (fuel - 1) as nat, x@, y@);
            },
            _ => {},
        }
    }
}

proof fn lemma_array_reads_same(s: Seq<u8>, i: int, fuel: nat, vs: Seq<SemanticJson>, ws: Seq<SemanticJson>)
    requires
        array_reads(s, i, fuel, vs),
        array_reads(s, i, fuel, ws),
    ensures
        vs.len() == ws.len(),
        forall|k: int| 0 <= k < vs.len() ==> json_same(#[trigger] vs[k], ws[k]),
    decreases fuel, 1nat,
{
    let j = skip_ws(s, i);
    if !byte_at(s, j, 93) {
        lemma_elements_reads_same(s, j, (fuel - 1) as nat, vs, ws);
    }
}

proof fn lemma_elements_reads_same(s: Seq<u8>, i: int, fuel: nat, vs: Seq<SemanticJson>, ws: Seq<SemanticJson>)
    requires
        elements_reads(s, i, fuel, vs),
        elements_reads(s, i, fuel, ws),
    ensures
        vs.len() == ws.len(),
        forall|k: int| 0 <= k < vs.len() ==> json_same(#[trigger] vs[k], ws[k]),
    decreases fuel, 0nat,
{
    lemma_value_reads_same(s, i, (fuel - 1) as nat, vs[0], ws[0]);
    let e = value_at(s, i, (fuel - 1) as nat)->0;
    let k = skip_ws(s, e);
    if !byte_at(s, k, 93) {
        lemma_elements_reads_same(s, k + 1, (fuel - 1) as nat, vs.drop_first(), ws.drop_first());
        assert forall|q: int| 0 <= q < vs.len() implies json_same(#[trigger] vs[q], ws[q]) by {
            if q > 0 {
                assert(vs.drop_first()[q - 1] == vs[q]);
                assert(ws.drop_first()[q - 1] == ws[q]);
            }
        }
    }
}

proof fn lemma_object_reads_same(
    s: Seq<u8>,
    i: int,
    fuel: nat,
    ms: Seq<(String, SemanticJson)>,
    ns: Seq<(String, SemanticJson)>,
)
    requires
        object_reads(s, i, fuel, ms),
        object_reads(s, i, fuel, ns),
    ensures
        ms.len() == ns.len(),
        forall|k: int| 0 <= k < ms.len() ==> (#[trigger] ms[k]).0@ == ns[k].0@ && json_same(ms[k].1, ns[k].1),
    decreases fuel, 1nat,
{
    let j = skip_ws(s, i);
    if !byte_at(s, j, 125) {
        lemma_members_reads_same(s, j, (fuel - 1) as nat, ms, ns);
    }
}

proof fn lemma_members_reads_same(
    s: Seq<u8>,
    i: int,
    fuel: nat,
    ms: Seq<(String, SemanticJson)>,
    ns: Seq<(String, SemanticJson)>,
)
    requires
        members_reads(s, i, fuel, ms),
        members_reads(s, i, fuel, ns),
    ensures
        ms.len() == ns.len(),
        forall|k: int| 0 <= k < ms.len() ==> (#[trigger] ms[k]).0@ == ns[k].0@ && json_same(ms[k].1, ns[k].1),
    decreases fuel, 0nat,
{
    let j = skip_ws(s, i);
    let key = string_at(s, j)->0;
    let c = skip_ws(s, key.1);
    lemma_value_reads_same(s, c + 1, (fuel - 1) as nat, ms[0].1, ns[0].1);
    let v = value_at(s, c + 1, (fuel - 1) as nat)->0;
    let d = skip_ws(s, v);
    if !byte_at(s, d, 125) {
        lemma_members_reads_same(s, d + 1, (fuel - 1) as nat, ms.drop_first(), ns.drop_first());
        assert forall|q: int| 0 <= q < ms.len() implies (#[trigger] ms[q]).0@ == ns[q].0@ && json_same(ms[q].1, ns[q].1) by {
            if q > 0 {
                assert(ms.drop_first()[q - 1] == ms[q]);
                assert(ns.drop_first()[q - 1] == ns[q]);
            }
        }
    }
}

/// The same readings compare alike.
proof fn lemma_json_equal_same(a: SemanticJson, a2: SemanticJson, b: SemanticJson, b2: SemanticJson)
    requires
        json_same(a, a2),
        json_same(b, b2),
    ensures
        json_equal(a, b) == json_equal(a2, b2),
    decreases a,
{
    if a is Array && b is Array {
        let x = a->Array_0;
        let y = b->Array_0;
        let x2 = a2->Array_0;
        let y2 = b2->Array_0;
        assert(x2@.len() == x@.len() && y2@.len() == y@.len());
        if x@.len() == y@.len() {
            assert forall|i: int| 0 <= i < x@.len() implies json_equal(#[trigger] x@[i], y@[i]) == json_equal(x2@[i], y2@[i]) by {
                assert(decreases_to!(a => x@[i]));
                assert(json_same(x@[i], x2@[i]));
                assert(json_same(y@[i], y2@[i]));
                lemma_json_equal_same(x@[i], x2@[i], y@[i], y2@[i]);
            }
            if json_equal(a, b) {
                assert forall|i: int| 0 <= i < x2@.len() implies json_equal(#[trigger] x2@[i], y2@[i]) by {
                    assert(json_equal(x@[i], y@[i]));
                }
            }
            if json_equal(a2, b2) {
                assert forall|i: int| 0 <= i < x@.len() implies json_equal(#[trigger] x@[i], y@[i]) by {
                    assert(json_equal(x2@[i], y2@[i]));
                }
            }
        }
    } else if a is Object && b is Object {
        let x = a->Object_0;
        let y = b->Object_0;
        let x2 = a2->Object_0;
        let y2 = b2->Object_0;
        assert(x2@.len() == x@.len() && y2@.len() == y@.len());
        assert forall|i: int| 0 <= i < x@.len() implies key_in((#[trigger] x@[i]).0@, y@) == key_in(x2@[i].0@, y2@) by {
            assert(x2@[i].0@ == x@[i].0@);
            if key_in(x@[i].0@, y@) {
                let j = choose|j: int| 0 <= j < y@.len() && (#[trigger] y@[j]).0@ == x@[i].0@;
                assert(y2@[j].0@ == y@[j].0@);
            }
            if key_in(x2@[i].0@, y2@) {
                let j = choose|j: int| 0 <= j < y2@.len() && (#[trigger] y2@[j]).0@ == x2@[i].0@;
                assert(y2@[j].0@ == y@[j].0@);
            }
        }
        assert forall|i: int, j: int|
            0 <= i < x@.len() && 0 <= j < y@.len() implies json_equal((#[trigger] x@[i]).1, (#[trigger] y@[j]).1)
                == json_equal(x2@[i].1, y2@[j].1) by {
            assert(decreases_to!(a => x@[i]));
            assert(decreases_to!(x@[i] => x@[i].1));
            assert(json_same(x@[i].1, x2@[i].1));
            assert(json_same(y@[j].1, y2@[j].1));
            lemma_json_equal_same(x@[i].1, x2@[i].1, y@[j].1, y2@[j].1);
        }
        if json_equal(a, b) {
            assert forall|i: int, j: int|
                0 <= i < x2@.len() && 0 <= j < y2@.len() && (#[trigger] x2@[i]).0@ == (#[trigger] y2@[j]).0@ implies json_equal(x2@[i].1, y2@[j].1) by {
                assert(x2@[i].0@ == x@[i].0@ && y2@[j].0@ == y@[j].0@);
                assert(json_equal(x@[i].1, y@[j].1));
            }
            assert forall|i: int| 0 <= i < x2@.len() implies key_in((#[trigger] x2@[i]).0@, y2@) by {
                assert(key_in(x@[i].0@, y@));
            }
            assert(json_equal(a2, b2));
        }
        if json_equal(a2, b2) {
            assert forall|i: int, j: int|
                0 <= i < x@.len() && 0 <= j < y@.len() && (#[trigger] x@[i]).0@ == (#[trigger] y@[j]).0@ implies json_equal(x@[i].1, y@[j].1) by {
                assert(x2@[i].0@ == x@[i].0@ && y2@[j].0@ == y@[j].0@);
                assert(json_equal(x2@[i].1, y2@[j].1));
            }
            assert forall|i: int| 0 <= i < x@.len() implies key_in((#[trigger] x@[i]).0@, y@) by {
                assert(key_in(x2@[i].0@, y2@));
            }
            assert(json_equal(a, b));
        }
    } else {
        match a {
            SemanticJson::Null => assert(a2 is Null),
            SemanticJson::Bool(x) => assert(a2 == SemanticJson::Bool(x)),
            SemanticJson::Number(x) => assert(a2 matches SemanticJson::Number(x2) && x2@ == x@),
            SemanticJson::String(x) => assert(a2 matches SemanticJson::String(x2) && x2@ == x@),
            SemanticJson::Array(x) => assert(a2 is Array),
            SemanticJson::Object(x) => assert(a2 is Object),
        }
        match b {
            SemanticJson::Null => assert(b2 is Null),
            SemanticJson::Bool(y) => assert(b2 == SemanticJson::Bool(y)),
            SemanticJson::Number(y) => assert(b2 matches SemanticJson::Number(y2) && y2@ == y@),
            SemanticJson::String(y) => assert(b2 matches SemanticJson::String(y2) && y2@ == y@),
            SemanticJson::Array(y) => assert(b2 is Array),
            SemanticJson::Object(y) => assert(b2 is Object),
        }
    }
}

/// Whatever readings two texts have, they compare alike: a text has one
/// reading up to the same texts, numerals and keys.
pub proof fn readings_compare_alike(s: Seq<u8>, t: Seq<u8>, a: SemanticJson, a2: SemanticJson, b: SemanticJson, b2: SemanticJson)
    requires
        json_reads(s, a),
        json_reads(s, a2),
        json_reads(t, b),
        json_reads(t, b2),
    ensures
        json_equal(a, b) == json_equal(a2, b2),
{
    lemma_value_reads_same(s, 0, json_fuel(s.len()), a, a2);
    lemma_value_reads_same(t, 0, json_fuel(t.len()), b, b2);
    lemma_json_equal_same(a, a2, b, b2);
}

} // verus!
