//! The HTTP surface's own rules: configuration bounds, which browser
//! origins may be allowed, request and response shapes, and the status a
//! failure is answered with.

use crate::error::DatabaseError;
use crate::json::is_digit;
use crate::literal::{all_digits, digits_value};
use crate::text::{decimal_text, push_decimal, text};
use crate::traqula::{ExecutionParameter, ResultCell, TRAQULA_VERSION};
use std::collections::HashMap;
use vstd::prelude::*;
use vstd::string::StringExecFns;
use vstd::string::StringSliceAdditionalSpecFns;

verus! {

pub const HTTP_API_VERSION: &'static str = "v1";

pub const SSE_SCHEMA_VERSION: u16 = 1;

pub const DEFAULT_REQUEST_BODY_BYTES: usize = 1048576;

pub const MAX_REQUEST_BODY_BYTES: usize = 16777216;

pub const DEFAULT_TIMEOUT_MS: u64 = 5000;

pub const MAX_TIMEOUT_MS: u64 = 30000;

pub const DEFAULT_MAX_COMMANDS: usize = 1000;

pub const DEFAULT_MAX_ROWS_PER_SEARCH: usize = 100000;

pub const COLON: u8 = 58;

pub const SLASH: u8 = 47;

pub const QUESTION: u8 = 63;

pub const HASH: u8 = 35;

pub const AT: u8 = 64;

pub const OPEN_BRACKET: u8 = 91;

pub const CLOSE_BRACKET: u8 = 93;

pub const PLUS: u8 = 43;

// ---------------------------------------------------------------------------
// Loopback origins
// ---------------------------------------------------------------------------

/// `b` starts with `p`.
pub open spec fn starts_with(b: Seq<u8>, p: Seq<u8>) -> bool {
    b.len() >= p.len() && b.subrange(0, p.len() as int) == p
}

/// The authority after an `http://` or `https://` scheme.
pub open spec fn origin_authority(b: Seq<u8>) -> Option<Seq<u8>> {
    if starts_with(b, "http://".spec_bytes()) {
        Some(b.skip("http://".spec_bytes().len() as int))
    } else if starts_with(b, "https://".spec_bytes()) {
        Some(b.skip("https://".spec_bytes().len() as int))
    } else {
        None
    }
}

/// The first position of `c` in `b`, or -1.
pub open spec fn first_position(b: Seq<u8>, c: u8) -> int
    decreases b.len(),
{
    if b.len() == 0 {
        -1
    } else if b[0] == c {
        0
    } else {
        let rest = first_position(b.drop_first(), c);
        if rest < 0 {
            -1
        } else {
            rest + 1
        }
    }
}

/// The last position of `c` in `b`, or -1.
pub open spec fn last_position(b: Seq<u8>, c: u8) -> int
    decreases b.len(),
{
    if b.len() == 0 {
        -1
    } else if b.last() == c {
        b.len() - 1
    } else {
        last_position(b.drop_last(), c)
    }
}

/// Splits an authority into its host and, where there is one, its port: a
/// bracketed host ends at the first `]`, another host at the last `:`.
pub open spec fn host_and_port(a: Seq<u8>) -> Option<(Seq<u8>, Option<Seq<u8>>)> {
    if a.len() > 0 && a[0] == OPEN_BRACKET {
        let end = first_position(a, CLOSE_BRACKET);
        if end < 0 {
            None
        } else {
            let suffix = a.skip(end + 1);
            if suffix.len() == 0 {
                Some((a.subrange(0, end + 1), None))
            } else if suffix[0] == COLON {
                Some((a.subrange(0, end + 1), Some(suffix.skip(1))))
            } else {
                None
            }
        }
    } else {
        let colon = last_position(a, COLON);
        if colon < 0 {
            Some((a, None))
        } else {
            Some((a.subrange(0, colon), Some(a.skip(colon + 1))))
        }
    }
}

/// Text that `str::parse::<u16>` accepts: an optional `+` and at least one
/// digit, of value at most 65535.
pub open spec fn port_number(p: Seq<u8>) -> bool {
    let d = if p.len() > 0 && p[0] == PLUS {
        p.skip(1)
    } else {
        p
    };
    &&& d.len() > 0
    &&& all_digits(d)
    &&& digits_value(d) <= 65535
}

/// An exact loopback origin: `http` or `https`, host `localhost`,
/// `127.0.0.1` or `[::1]`, an optional numeric port, and nothing else.
pub open spec fn loopback_origin(b: Seq<u8>) -> bool {
    match origin_authority(b) {
        None => false,
        Some(a) => {
            &&& a.len() > 0
            &&& !a.contains(SLASH)
            &&& !a.contains(QUESTION)
            &&& !a.contains(HASH)
            &&& !a.contains(AT)
            &&& match host_and_port(a) {
                None => false,
                Some((host, port)) => {
                    &&& (host == "localhost".spec_bytes() || host == "127.0.0.1".spec_bytes() || host
                        == "[::1]".spec_bytes())
                    &&& match port {
                        None => true,
                        Some(p) => port_number(p),
                    }
                },
            }
        },
    }
}

fn bytes_equal(a: &[u8], from: usize, to: usize, b: &[u8]) -> (r: bool)
    requires
        from <= to <= a@.len(),
    ensures
        r == (a@.subrange(from as int, to as int) == b@),
{
    if to - from != b.len() {
        return false;
    }
    let mut i: usize = 0;
    while i < b.len()
        invariant
            from <= to <= a@.len(),
            to - from == b@.len(),
            i <= b@.len(),
            forall|k: int| 0 <= k < i ==> a@[from + k] == b@[k],
        decreases b@.len() - i,
    {
        if a[from + i] != b[i] {
            assert(a@.subrange(from as int, to as int)[i as int] != b@[i as int]);
            return false;
        }
        i = i + 1;
    }
    assert(a@.subrange(from as int, to as int) =~= b@);
    true
}

fn contains_byte(a: &[u8], from: usize, c: u8) -> (r: bool)
    requires
        from <= a@.len(),
    ensures
        r == a@.skip(from as int).contains(c),
{
    let mut i = from;
    while i < a.len()
        invariant
            from <= i <= a@.len(),
            forall|k: int| from <= k < i ==> a@[k] != c,
        decreases a@.len() - i,
    {
        if a[i] == c {
            assert(a@.skip(from as int)[i - from] == c);
            return true;
        }
        i = i + 1;
    }
    proof {
        assert forall|k: int| 0 <= k < a@.skip(from as int).len() implies a@.skip(from as int)[k] != c by {
            assert(a@.skip(from as int)[k] == a@[from + k]);
        }
    }
    false
}

proof fn lemma_first_position(b: Seq<u8>, c: u8)
    ensures
        first_position(b, c) < 0 ==> !b.contains(c),
        first_position(b, c) >= 0 ==> first_position(b, c) < b.len() && b[first_position(b, c)] == c
            && forall|k: int| 0 <= k < first_position(b, c) ==> b[k] != c,
    decreases b.len(),
{
    if b.len() > 0 && b[0] != c {
        lemma_first_position(b.drop_first(), c);
        if first_position(b.drop_first(), c) < 0 {
            assert forall|k: int| 0 <= k < b.len() implies b[k] != c by {
                if k > 0 {
                    assert(b[k] == b.drop_first()[k - 1]);
                }
            }
        } else {
            assert forall|k: int| 0 <= k < first_position(b, c) implies b[k] != c by {
                if k > 0 {
                    assert(b[k] == b.drop_first()[k - 1]);
                }
            }
        }
    }
}

proof fn lemma_last_position(b: Seq<u8>, c: u8)
    ensures
        last_position(b, c) < 0 ==> !b.contains(c),
        last_position(b, c) >= 0 ==> last_position(b, c) < b.len() && b[last_position(b, c)] == c
            && forall|k: int| last_position(b, c) < k < b.len() ==> b[k] != c,
    decreases b.len(),
{
    if b.len() > 0 && b.last() != c {
        lemma_last_position(b.drop_last(), c);
        assert forall|k: int| 0 <= k < b.len() - 1 implies b[k] == b.drop_last()[k] by {}
    }
}

fn find_first(a: &[u8], from: usize, c: u8) -> (r: Option<usize>)
    requires
        from <= a@.len(),
    ensures
        match r {
            Some(i) => from <= i < a@.len() && i - from == first_position(a@.skip(from as int), c),
            None => first_position(a@.skip(from as int), c) < 0,
        },
{
    proof {
        lemma_first_position(a@.skip(from as int), c);
    }
    let mut i = from;
    while i < a.len()
        invariant
            from <= i <= a@.len(),
            forall|k: int| from <= k < i ==> a@[k] != c,
            first_position(a@.skip(from as int), c) < 0 ==> !a@.skip(from as int).contains(c),
            first_position(a@.skip(from as int), c) >= 0 ==> first_position(a@.skip(from as int), c)
                < a@.skip(from as int).len() && a@.skip(from as int)[first_position(a@.skip(from as int), c)]
                == c && forall|k: int|
                0 <= k < first_position(a@.skip(from as int), c) ==> a@.skip(from as int)[k] != c,
        decreases a@.len() - i,
    {
        if a[i] == c {
            assert(a@.skip(from as int)[i - from] == c);
            return Some(i);
        }
        i = i + 1;
    }
    proof {
        if first_position(a@.skip(from as int), c) >= 0 {
            let p = first_position(a@.skip(from as int), c);
            assert(a@.skip(from as int)[p] == a@[from + p]);
        }
    }
    None
}

fn find_last(a: &[u8], from: usize, c: u8) -> (r: Option<usize>)
    requires
        from <= a@.len(),
    ensures
        match r {
            Some(i) => from <= i < a@.len() && i - from == last_position(a@.skip(from as int), c),
            None => last_position(a@.skip(from as int), c) < 0,
        },
{
    let ghost s = a@.skip(from as int);
    proof {
        lemma_last_position(s, c);
    }
    let mut i = a.len();
    while i > from
        invariant
            from <= i <= a@.len(),
            s == a@.skip(from as int),
            forall|k: int| i <= k < a@.len() ==> a@[k] != c,
            last_position(s, c) < 0 ==> !s.contains(c),
            last_position(s, c) >= 0 ==> last_position(s, c) < s.len() && s[last_position(s, c)] == c
                && forall|k: int| last_position(s, c) < k < s.len() ==> s[k] != c,
        decreases i - from,
    {
        if a[i - 1] == c {
            proof {
                let p = last_position(s, c);
                assert(s[i - 1 - from] == c);
                if p >= 0 && p != i - 1 - from {
                    assert(s[p] == a@[from + p]);
                }
            }
            return Some(i - 1);
        }
        i = i - 1;
    }
    proof {
        if last_position(s, c) >= 0 {
            let p = last_position(s, c);
            assert(s[p] == a@[from + p]);
        }
    }
    None
}

fn port_is_number(a: &[u8], from: usize) -> (r: bool)
    requires
        from <= a@.len(),
    ensures
        r == port_number(a@.skip(from as int)),
{
    let ghost p = a@.skip(from as int);
    let start = if from < a.len() && a[from] == PLUS {
        from + 1
    } else {
        from
    };
    let ghost d = a@.skip(start as int);
    assert(d =~= (if p.len() > 0 && p[0] == PLUS {
        p.skip(1)
    } else {
        p
    }));
    if start == a.len() {
        return false;
    }
    let mut value: u64 = 0;
    let mut i = start;
    while i < a.len()
        invariant
            start <= i <= a@.len(),
            d == a@.skip(start as int),
            p == a@.skip(from as int),
            d.len() > 0,
            port_number(p) == (all_digits(d) && digits_value(d) <= 65535),
            all_digits(a@.subrange(start as int, i as int)),
            value == digits_value(a@.subrange(start as int, i as int)),
            value <= 65535,
        decreases a@.len() - i,
    {
        let b = a[i];
        assert(a@.subrange(start as int, i + 1).drop_last() =~= a@.subrange(start as int, i as int));
        if b < 48 || b > 57 {
            assert(d[i - start] == b);
            return false;
        }
        value = value * 10 + (b - 48) as u64;
        if value > 65535 {
            proof {
                lemma_digits_value_grows(d, (i + 1 - start) as int);
                assert(a@.subrange(start as int, i + 1) =~= d.subrange(0, i + 1 - start));
            }
            return false;
        }
        i = i + 1;
    }
    assert(a@.subrange(start as int, a@.len() as int) =~= d);
    true
}

proof fn lemma_digits_value_grows(d: Seq<u8>, n: int)
    requires
        0 <= n <= d.len(),
        all_digits(d.subrange(0, n)),
    ensures
        all_digits(d) ==> digits_value(d) >= digits_value(d.subrange(0, n)),
    decreases d.len() - n,
{
    if n < d.len() && all_digits(d) {
        assert(d.subrange(0, n + 1).drop_last() =~= d.subrange(0, n));
        lemma_digits_value_grows(d, n + 1);
    }
    if n == d.len() {
        assert(d.subrange(0, n) =~= d);
    }
}

/// Whether `origin` is an exact loopback HTTP(S) origin, as a browser
/// sends it.
pub fn is_exact_loopback_origin(origin: &str) -> (r: bool)
    ensures
        r == loopback_origin(origin.spec_bytes()),
{
    let b = origin.as_bytes();
    let http = "http://".as_bytes();
    let https = "https://".as_bytes();
    let start = if b.len() >= http.len() && bytes_equal(b, 0, http.len(), http) {
        http.len()
    } else if b.len() >= https.len() && bytes_equal(b, 0, https.len(), https) {
        https.len()
    } else {
        return false;
    };
    let ghost a = b@.skip(start as int);
    assert(origin_authority(b@) == Some(a));
    if start == b.len() || contains_byte(b, start, SLASH) || contains_byte(b, start, QUESTION)
        || contains_byte(b, start, HASH) || contains_byte(b, start, AT) {
        return false;
    }
    let host_end: usize;
    let port_start: Option<usize>;
    if b[start] == OPEN_BRACKET {
        match find_first(b, start, CLOSE_BRACKET) {
            None => {
                return false;
            },
            Some(end) => {
                if end + 1 == b.len() {
                    host_end = end + 1;
                    port_start = None;
                    assert(a.skip(end + 1 - start).len() == 0);
                } else if b[end + 1] == COLON {
                    host_end = end + 1;
                    port_start = Some(end + 2);
                    assert(a.skip(end + 1 - start)[0] == b@[end + 1]);
                    assert(a.skip(end + 1 - start).skip(1) =~= b@.skip(end + 2));
                } else {
                    assert(a.skip(end + 1 - start)[0] == b@[end + 1]);
                    return false;
                }
            },
        }
    } else {
        match find_last(b, start, COLON) {
            None => {
                host_end = b.len();
                port_start = None;
            },
            Some(colon) => {
                host_end = colon;
                port_start = Some(colon + 1);
                assert(a.skip(colon + 1 - start) =~= b@.skip(colon + 1));
            },
        }
    }
    assert(a.subrange(0, host_end - start) =~= b@.subrange(start as int, host_end as int));
    let host_ok = bytes_equal(b, start, host_end, "localhost".as_bytes())
        || bytes_equal(b, start, host_end, "127.0.0.1".as_bytes())
        || bytes_equal(b, start, host_end, "[::1]".as_bytes());
    if !host_ok {
        return false;
    }
    match port_start {
        None => {
            assert(a =~= b@.subrange(start as int, host_end as int));
            true
        },
        Some(p) => port_is_number(b, p),
    }
}

// ---------------------------------------------------------------------------
// Configuration
// ---------------------------------------------------------------------------

/// Bounds of the HTTP surface.
#[derive(Debug, Clone)]
pub struct ServerConfig {
    pub request_body_bytes: usize,
    pub default_timeout_ms: u64,
    pub max_commands: usize,
    pub max_rows_per_search: usize,
    allowed_origins: Vec<String>,
}

/// A configuration within the hard caps.
pub open spec fn config_in_bounds(c: ServerConfig) -> bool {
    &&& 1 <= c.body_limit() <= MAX_REQUEST_BODY_BYTES
    &&& 1 <= c.timeout_limit() <= MAX_TIMEOUT_MS
    &&& 1 <= c.command_limit() <= DEFAULT_MAX_COMMANDS
    &&& 1 <= c.row_limit() <= DEFAULT_MAX_ROWS_PER_SEARCH
}

impl ServerConfig {
    pub closed spec fn body_limit(&self) -> usize {
        self.request_body_bytes
    }

    pub closed spec fn timeout_limit(&self) -> u64 {
        self.default_timeout_ms
    }

    pub closed spec fn command_limit(&self) -> usize {
        self.max_commands
    }

    pub closed spec fn row_limit(&self) -> usize {
        self.max_rows_per_search
    }

    pub closed spec fn origins(&self) -> Seq<Seq<char>> {
        self.allowed_origins@.map_values(|o: String| o@)
    }

    /// The default bounds, allowing no cross-origin caller.
    pub fn new() -> (c: Self)
        ensures
            c.body_limit() == DEFAULT_REQUEST_BODY_BYTES,
            c.timeout_limit() == DEFAULT_TIMEOUT_MS,
            c.command_limit() == DEFAULT_MAX_COMMANDS,
            c.row_limit() == DEFAULT_MAX_ROWS_PER_SEARCH,
            c.origins() == Seq::<Seq<char>>::empty(),
    {
        let c = ServerConfig {
            request_body_bytes: DEFAULT_REQUEST_BODY_BYTES,
            default_timeout_ms: DEFAULT_TIMEOUT_MS,
            max_commands: DEFAULT_MAX_COMMANDS,
            max_rows_per_search: DEFAULT_MAX_ROWS_PER_SEARCH,
            allowed_origins: Vec::new(),
        };
        assert(c.origins() =~= Seq::<Seq<char>>::empty());
        c
    }

    /// Refuses a configuration outside the hard caps.
    pub fn validate(&self) -> (r: Result<(), DatabaseError>)
        ensures
            r is Ok <==> config_in_bounds(*self),
            r matches Err(e) ==> e is Config,
    {
        if self.request_body_bytes == 0 || self.request_body_bytes > MAX_REQUEST_BODY_BYTES {
            return Err(DatabaseError::Config(String::from_str("HTTP request body limit must be between 1 and 16777216 bytes")));
        }
        if self.default_timeout_ms == 0 || self.default_timeout_ms > MAX_TIMEOUT_MS {
            return Err(DatabaseError::Config(String::from_str("HTTP default timeout must be between 1 ms and 30000 ms")));
        }
        if self.max_commands == 0 || self.max_commands > DEFAULT_MAX_COMMANDS {
            return Err(DatabaseError::Config(String::from_str("HTTP command limit must be between 1 and 1000")));
        }
        if self.max_rows_per_search == 0 || self.max_rows_per_search > DEFAULT_MAX_ROWS_PER_SEARCH {
            return Err(DatabaseError::Config(String::from_str("HTTP row limit must be between 1 and 100000")));
        }
        Ok(())
    }

    /// Allows an exact loopback browser origin; refuses any other.
    pub fn allow_loopback_origin(self, origin: &str) -> (r: Result<Self, DatabaseError>)
        ensures
            r is Ok <==> loopback_origin(origin.spec_bytes()),
            r matches Ok(c) ==> c.origins() == self.origins().push(origin@)
                && c.body_limit() == self.body_limit()
                && c.timeout_limit() == self.timeout_limit()
                && c.command_limit() == self.command_limit()
                && c.row_limit() == self.row_limit(),
            r matches Err(e) ==> e is Config,
    {
        if !is_exact_loopback_origin(origin) {
            return Err(DatabaseError::Config(String::from_str("CORS origin must be an exact loopback HTTP(S) origin")));
        }
        let mut c = self;
        let ghost before = c.allowed_origins@;
        c.allowed_origins.push(String::from_str(origin));
        assert(c.allowed_origins@.map_values(|o: String| o@) =~= before.map_values(|o: String| o@).push(origin@));
        Ok(c)
    }

    /// The configuration with another request body limit.
    pub fn with_request_body_bytes(self, bytes: usize) -> (c: Self)
        ensures
            c.body_limit() == bytes,
            c.timeout_limit() == self.timeout_limit(),
            c.command_limit() == self.command_limit(),
            c.row_limit() == self.row_limit(),
            c.origins() == self.origins(),
    {
        ServerConfig { request_body_bytes: bytes, ..self }
    }

    /// The configuration with another default timeout, in milliseconds.
    pub fn with_default_timeout_ms(self, timeout_ms: u64) -> (c: Self)
        ensures
            c.timeout_limit() == timeout_ms,
            c.body_limit() == self.body_limit(),
            c.command_limit() == self.command_limit(),
            c.row_limit() == self.row_limit(),
            c.origins() == self.origins(),
    {
        ServerConfig { default_timeout_ms: timeout_ms, ..self }
    }

    /// The allowed origins.
    pub fn allowed_origins(&self) -> (o: &Vec<String>)
        ensures
            o@.map_values(|s: String| s@) == self.origins(),
    {
        &self.allowed_origins
    }
}

impl Default for ServerConfig {
    fn default() -> (c: Self)
        ensures
            c.body_limit() == DEFAULT_REQUEST_BODY_BYTES,
            c.timeout_limit() == DEFAULT_TIMEOUT_MS,
            c.command_limit() == DEFAULT_MAX_COMMANDS,
            c.row_limit() == DEFAULT_MAX_ROWS_PER_SEARCH,
            c.origins() == Seq::<Seq<char>>::empty(),
    {
        Self::new()
    }
}

// ---------------------------------------------------------------------------
// Requests and responses
// ---------------------------------------------------------------------------

/// A Traqula script submitted over HTTP.
#[derive(Debug)]
pub struct QueryRequest {
    pub traqula_version: u16,
    pub script: String,
    pub stream: bool,
    pub timeout_ms: Option<u64>,
    pub parameters: HashMap<String, ExecutionParameter>,
}

/// A Terrain report requested over HTTP.
#[derive(Debug, Clone)]
pub struct TerrainRequest {
    pub terrain_version: u16,
    pub as_of: Option<String>,
    pub timeout_ms: Option<u64>,
    pub projected_role_limit: Option<usize>,
    pub max_relationship_signatures: Option<usize>,
}

/// One result set of a buffered multi-search response.
#[derive(Debug, Clone)]
pub struct MultiResultSet {
    pub columns: Vec<String>,
    pub row_count: usize,
    pub limited: bool,
    pub rows: Vec<Vec<ResultCell>>,
    pub search: Option<String>,
}

/// The timeout granted to a request: the one asked for, else the
/// configured default, never above the hard maximum.
pub fn effective_timeout_ms(requested: Option<u64>, default_timeout_ms: u64) -> (t: u64)
    ensures
        t == (match requested {
            Some(ms) => if ms < MAX_TIMEOUT_MS {
                ms
            } else {
                MAX_TIMEOUT_MS
            },
            None => if default_timeout_ms < MAX_TIMEOUT_MS {
                default_timeout_ms
            } else {
                MAX_TIMEOUT_MS
            },
        }),
{
    let t = match requested {
        Some(ms) => ms,
        None => default_timeout_ms,
    };
    if t < MAX_TIMEOUT_MS {
        t
    } else {
        MAX_TIMEOUT_MS
    }
}

/// The timeout a script request runs under: the one asked for, else the
/// configured default, never above the configured default.
pub open spec fn script_timeout_ms(requested: Option<u64>, default_timeout_ms: u64) -> u64 {
    let asked = match requested {
        Some(ms) => ms,
        None => default_timeout_ms,
    };
    if asked < default_timeout_ms {
        asked
    } else {
        default_timeout_ms
    }
}

/// How a script request is answered before it runs: refused with a status
/// and a message for another Traqula version, for more commands than the
/// configuration allows, or for a zero timeout; otherwise admitted with the
/// timeout it runs under.
pub fn admit_script(
    traqula_version: u16,
    command_count: usize,
    requested_timeout_ms: Option<u64>,
    config: &ServerConfig,
) -> (r: Result<u64, (u16, String)>)
    ensures
        traqula_version != TRAQULA_VERSION ==> (r matches Err((status, m)) && status == 400 && m@
            == "unsupported Traqula version "@ + decimal_text(traqula_version as nat) + "; supported version is 1"@),
        traqula_version == TRAQULA_VERSION && command_count > config.command_limit() ==> (r matches Err((status, m))
            && status == 413 && m@ == "script contains "@ + decimal_text(command_count as nat) + " commands; maximum is "@
            + decimal_text(config.command_limit() as nat)),
        traqula_version == TRAQULA_VERSION && command_count <= config.command_limit() ==> (if script_timeout_ms(
            requested_timeout_ms,
            config.timeout_limit(),
        ) == 0 {
            r matches Err((status, m)) && status == 400 && m@ == "timeout_ms must be positive"@
        } else {
            r == Ok::<u64, (u16, String)>(script_timeout_ms(requested_timeout_ms, config.timeout_limit()))
        }),
{
    if traqula_version != TRAQULA_VERSION {
        let mut m = text("unsupported Traqula version ");
        push_decimal(&mut m, traqula_version as u64);
        m.append("; supported version is 1");
        return Err((400, m));
    }
    if command_count > config.max_commands {
        let mut m = text("script contains ");
        push_decimal(&mut m, command_count as u64);
        m.append(" commands; maximum is ");
        push_decimal(&mut m, config.max_commands as u64);
        return Err((413, m));
    }
    let asked = match requested_timeout_ms {
        Some(ms) => ms,
        None => config.default_timeout_ms,
    };
    let timeout = if asked < config.default_timeout_ms {
        asked
    } else {
        config.default_timeout_ms
    };
    if timeout == 0 {
        return Err((400, text("timeout_ms must be positive")));
    }
    Ok(timeout)
}

/// The HTTP status a failure is answered with: the caller's mistakes 400,
/// exceeded limits 413, cancellation and timeouts 408, the rest 500.
pub open spec fn status_of(error: DatabaseError) -> u16 {
    match error {
        DatabaseError::Parse { .. } | DatabaseError::UnknownRole(_)
        | DatabaseError::InvalidAppearanceSet(_) | DatabaseError::UnknownVariable(_)
        | DatabaseError::VariableDomain { .. } | DatabaseError::InvalidRecall(_)
        | DatabaseError::Comparison(_) | DatabaseError::Parameter(_)
        | DatabaseError::Execution(_) => 400,
        DatabaseError::ResourceLimit { .. } => 413,
        DatabaseError::Cancelled | DatabaseError::Timeout => 408,
        DatabaseError::Config(_) | DatabaseError::Persistence(_)
        | DatabaseError::DataCorruption { .. } | DatabaseError::Invariant(_)
        | DatabaseError::Lock(_) => 500,
    }
}

pub fn database_error_status(error: &DatabaseError) -> (status: u16)
    ensures
        status == status_of(*error),
{
    match error {
        DatabaseError::Parse { .. } | DatabaseError::UnknownRole(_)
        | DatabaseError::InvalidAppearanceSet(_) | DatabaseError::UnknownVariable(_)
        | DatabaseError::VariableDomain { .. } | DatabaseError::InvalidRecall(_)
        | DatabaseError::Comparison(_) | DatabaseError::Parameter(_)
        | DatabaseError::Execution(_) => 400,
        DatabaseError::ResourceLimit { .. } => 413,
        DatabaseError::Cancelled | DatabaseError::Timeout => 408,
        DatabaseError::Config(_) | DatabaseError::Persistence(_)
        | DatabaseError::DataCorruption { .. } | DatabaseError::Invariant(_)
        | DatabaseError::Lock(_) => 500,
    }
}

} // verus!
