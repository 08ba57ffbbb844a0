//! The command structure of a Traqula script: how a script divides into
//! commands and which of them are searches that return rows, and the
//! decisions that drive a script's execution from command to command.

use crate::error::DatabaseError;
use vstd::prelude::*;

verus! {

// ---------------------------------------------------------------------------
// Commands of a script
// ---------------------------------------------------------------------------

/// Where a scan of a script stands: inside a quoted token or not, whether
/// the current command holds anything yet, the word being read (how far it
/// follows `search` and `return`), and what the command's words have shown.
#[derive(Debug, Clone, Copy, PartialEq, Eq, Structural)]
pub struct Scan {
    pub quote: u8,
    pub escaped: bool,
    pub content: bool,
    pub word_len: u8,
    pub like_search: bool,
    pub like_return: bool,
    pub first_done: bool,
    pub starts_search: bool,
    pub has_return: bool,
}

/// The scan at the start of a command.
pub open spec fn scan_start() -> Scan {
    Scan {
        quote: 0,
        escaped: false,
        content: false,
        word_len: 0,
        like_search: false,
        like_return: false,
        first_done: false,
        starts_search: false,
        has_return: false,
    }
}

/// The bytes of `search`, by position.
pub open spec fn search_byte(k: u8) -> u8 {
    if k == 0 { 115 } else if k == 1 { 101 } else if k == 2 { 97 } else if k == 3 { 114 } else if k == 4 { 99 } else { 104 }
}

/// The bytes of `return`, by position.
pub open spec fn return_byte(k: u8) -> u8 {
    if k == 0 { 114 } else if k == 1 { 101 } else if k == 2 { 116 } else if k == 3 { 117 } else if k == 4 { 114 } else { 110 }
}

/// Letters, digits and the underscore make up words.
pub open spec fn word_byte(b: u8) -> bool {
    (97 <= b <= 122) || (65 <= b <= 90) || (48 <= b <= 57) || b == 95
}

pub open spec fn blank_byte(b: u8) -> bool {
    b == 32 || b == 9 || b == 10 || b == 13
}

/// The scan after the word being read ends.
pub open spec fn close_word(st: Scan) -> Scan {
    if st.word_len == 0 {
        st
    } else {
        let is_search = st.like_search && st.word_len == 6;
        let is_return = st.like_return && st.word_len == 6;
        Scan {
            word_len: 0,
            like_search: false,
            like_return: false,
            first_done: true,
            starts_search: if st.first_done { st.starts_search } else { is_search },
            has_return: st.has_return || is_return,
            ..st
        }
    }
}

/// One byte of a script: the next scan, and what the byte ends. The signal
/// is 0 for nothing, 1 for a command, 2 for a search that returns rows, and
/// 3 for an empty command.
pub open spec fn scan_step(st: Scan, b: u8) -> (Scan, u8) {
    if st.quote != 0 {
        if st.escaped {
            (Scan { escaped: false, ..st }, 0)
        } else if b == 92 {
            (Scan { escaped: true, ..st }, 0)
        } else if b == st.quote {
            (Scan { quote: 0, ..st }, 0)
        } else {
            (st, 0)
        }
    } else if word_byte(b) {
        let k = st.word_len;
        (
            Scan {
                content: true,
                word_len: if k < 7 { (k + 1) as u8 } else { 7 },
                like_search: (k == 0 || st.like_search) && k < 6 && b == search_byte(k),
                like_return: (k == 0 || st.like_return) && k < 6 && b == return_byte(k),
                ..st
            },
            0,
        )
    } else {
        let c = close_word(st);
        if b == 34 || b == 39 {
            (Scan { quote: b, content: true, ..c }, 0)
        } else if b == 59 {
            if !c.content {
                (scan_start(), 3)
            } else if c.starts_search && c.has_return {
                (scan_start(), 2)
            } else {
                (scan_start(), 1)
            }
        } else if blank_byte(b) {
            (c, 0)
        } else {
            (Scan { content: true, ..c }, 0)
        }
    }
}

/// The commands and the row-returning searches of `s` from position `i`,
/// given the scan there and the counts so far; `None` for a script that an
/// empty command, an unclosed quote or a command without its `;` leaves
/// malformed.
pub open spec fn scan_from(s: Seq<u8>, i: int, st: Scan, commands: nat, searches: nat) -> Option<(nat, nat)>
    decreases s.len() - i,
{
    if i < 0 || i >= s.len() {
        if st.quote != 0 || st.content {
            None
        } else {
            Some((commands, searches))
        }
    } else {
        let (next, signal) = scan_step(st, s[i]);
        if signal == 3 {
            None
        } else {
            scan_from(
                s,
                i + 1,
                next,
                if signal >= 1 { commands + 1 } else { commands },
                if signal == 2 { searches + 1 } else { searches },
            )
        }
    }
}

/// The number of commands of a script, and of its searches that return rows.
pub open spec fn script_structure(s: Seq<u8>) -> Option<(nat, nat)> {
    scan_from(s, 0, scan_start(), 0, 0)
}

fn step(st: Scan, b: u8) -> (r: (Scan, u8))
    ensures
        r == scan_step(st, b),
{
    if st.quote != 0 {
        if st.escaped {
            (Scan { escaped: false, ..st }, 0)
        } else if b == 92 {
            (Scan { escaped: true, ..st }, 0)
        } else if b == st.quote {
            (Scan { quote: 0, ..st }, 0)
        } else {
            (st, 0)
        }
    } else if (97 <= b && b <= 122) || (65 <= b && b <= 90) || (48 <= b && b <= 57) || b == 95 {
        let k = st.word_len;
        let sb: u8 = if k == 0 { 115 } else if k == 1 { 101 } else if k == 2 { 97 } else if k == 3 { 114 } else if k == 4 { 99 } else { 104 };
        let rb: u8 = if k == 0 { 114 } else if k == 1 { 101 } else if k == 2 { 116 } else if k == 3 { 117 } else if k == 4 { 114 } else { 110 };
        (
            Scan {
                content: true,
                word_len: if k < 7 { k + 1 } else { 7 },
                like_search: (k == 0 || st.like_search) && k < 6 && b == sb,
                like_return: (k == 0 || st.like_return) && k < 6 && b == rb,
                ..st
            },
            0,
        )
    } else {
        let c = if st.word_len == 0 {
            st
        } else {
            let is_search = st.like_search && st.word_len == 6;
            let is_return = st.like_return && st.word_len == 6;
            Scan {
                word_len: 0,
                like_search: false,
                like_return: false,
                first_done: true,
                starts_search: if st.first_done { st.starts_search } else { is_search },
                has_return: st.has_return || is_return,
                ..st
            }
        };
        let start = Scan {
            quote: 0,
            escaped: false,
            content: false,
            word_len: 0,
            like_search: false,
            like_return: false,
            first_done: false,
            starts_search: false,
            has_return: false,
        };
        if b == 34 || b == 39 {
            (Scan { quote: b, content: true, ..c }, 0)
        } else if b == 59 {
            if !c.content {
                (start, 3)
            } else if c.starts_search && c.has_return {
                (start, 2)
            } else {
                (start, 1)
            }
        } else if b == 32 || b == 9 || b == 10 || b == 13 {
            (c, 0)
        } else {
            (Scan { content: true, ..c }, 0)
        }
    }
}

fn parse_error(message: &str) -> (e: DatabaseError)
    ensures
        e matches DatabaseError::Parse { message: m, line, col } && m@ == message@ && line is None && col is None,
{
    DatabaseError::Parse { message: crate::text::text(message), line: None, col: None }
}

/// The number of commands in a script and of its searches that return rows;
/// a `;` inside a quoted token ends nothing. Fails with a parse error on an
/// empty command, an unclosed quote, or a last command without its `;`.
pub fn script_counts(script: &[u8]) -> (r: Result<(usize, usize), DatabaseError>)
    ensures
        r is Ok <==> script_structure(script@) is Some,
        r matches Ok((c, q)) ==> script_structure(script@) == Some((c as nat, q as nat)),
        r matches Err(e) ==> e is Parse,
{
    let mut st = Scan {
        quote: 0,
        escaped: false,
        content: false,
        word_len: 0,
        like_search: false,
        like_return: false,
        first_done: false,
        starts_search: false,
        has_return: false,
    };
    let mut commands: usize = 0;
    let mut searches: usize = 0;
    let mut i: usize = 0;
    while i < script.len()
        invariant
            i <= script@.len(),
            commands <= i,
            searches <= commands,
            scan_from(script@, i as int, st, commands as nat, searches as nat) == script_structure(script@),
        decreases script@.len() - i,
    {
        let (next, signal) = step(st, script[i]);
        if signal == 3 {
            return Err(parse_error("empty Traqula command"));
        }
        if signal >= 1 {
            commands = commands + 1;
        }
        if signal == 2 {
            searches = searches + 1;
        }
        st = next;
        i = i + 1;
    }
    if st.quote != 0 {
        return Err(parse_error("unclosed quote in Traqula script"));
    }
    if st.content {
        return Err(parse_error("Traqula command without its closing ';'"));
    }
    Ok((commands, searches))
}

// ---------------------------------------------------------------------------
// Driving a script
// ---------------------------------------------------------------------------

/// The row limit of one search: the smaller of the search's own `limit` and
/// the caller's maximum, where either is given.
pub open spec fn limit_of(query_limit: Option<usize>, maximum: Option<usize>) -> Option<usize> {
    match (query_limit, maximum) {
        (Some(q), Some(m)) => Some(if q < m { q } else { m }),
        (Some(q), None) => Some(q),
        (None, m) => m,
    }
}

pub fn effective_limit(query_limit: Option<usize>, maximum: Option<usize>) -> (r: Option<usize>)
    ensures
        r == limit_of(query_limit, maximum),
{
    match (query_limit, maximum) {
        (Some(q), Some(m)) => Some(if q < m { q } else { m }),
        (Some(q), None) => Some(q),
        (None, m) => m,
    }
}

/// Where the execution of a script stands: the commands still to run, and
/// for the running search its row limit, the rows delivered and whether the
/// limit cut it short.
#[derive(Debug, Clone, Copy, PartialEq, Eq, Structural)]
pub struct ExecutionState {
    pub commands_left: usize,
    pub limit: Option<usize>,
    pub rows: usize,
    pub limited: bool,
    pub finished: bool,
}

/// What happens next in an execution: the clock or the caller's token
/// checked before a command or a row, a warning handed to the sink and its
/// answer, a search starting with its own limit, a row found, the sink's
/// answer to a row, or a command completed.
#[derive(Debug, Clone, Copy, PartialEq, Eq, Structural)]
pub enum ExecutionEvent {
    Checked { cancelled: bool, expired: bool },
    WarningAnswered { stop: bool },
    SearchStarted { query_limit: Option<usize>, maximum: Option<usize> },
    RowFound,
    RowAnswered { stop: bool },
    CommandDone,
}

/// What the driver does: carry on, hand the row to the sink, end the search
/// (its limit reached or the sink asked to stop), end the execution with its
/// results, or fail with cancellation or a timeout.
#[derive(Debug, Clone, Copy, PartialEq, Eq, Structural)]
pub enum ExecutionAction {
    Continue,
    Deliver,
    EndSearch,
    Finish,
    Cancelled,
    TimedOut,
}

/// The execution of a script with `commands` commands, before any of them.
pub open spec fn execution_start(commands: usize) -> ExecutionState {
    ExecutionState { commands_left: commands, limit: None, rows: 0, limited: false, finished: commands == 0 }
}

/// The decision for one event.
pub open spec fn execution_next(state: ExecutionState, event: ExecutionEvent) -> (ExecutionState, ExecutionAction) {
    if state.finished {
        (state, ExecutionAction::Finish)
    } else {
        match event {
            ExecutionEvent::Checked { cancelled, expired } => if cancelled {
                (ExecutionState { finished: true, ..state }, ExecutionAction::Cancelled)
            } else if expired {
                (ExecutionState { finished: true, ..state }, ExecutionAction::TimedOut)
            } else {
                (state, ExecutionAction::Continue)
            },
            ExecutionEvent::WarningAnswered { stop } => if stop {
                (ExecutionState { finished: true, ..state }, ExecutionAction::Finish)
            } else {
                (state, ExecutionAction::Continue)
            },
            ExecutionEvent::SearchStarted { query_limit, maximum } => (
                ExecutionState { limit: limit_of(query_limit, maximum), rows: 0, limited: false, ..state },
                ExecutionAction::Continue,
            ),
            ExecutionEvent::RowFound => match state.limit {
                Some(l) => if state.rows >= l {
                    (ExecutionState { limited: true, ..state }, ExecutionAction::EndSearch)
                } else {
                    (state, ExecutionAction::Deliver)
                },
                None => (state, ExecutionAction::Deliver),
            },
            ExecutionEvent::RowAnswered { stop } => if stop {
                (state, ExecutionAction::EndSearch)
            } else if state.rows < usize::MAX {
                (ExecutionState { rows: (state.rows + 1) as usize, ..state }, ExecutionAction::Continue)
            } else {
                (state, ExecutionAction::EndSearch)
            },
            ExecutionEvent::CommandDone => if state.commands_left <= 1 {
                (ExecutionState { commands_left: 0, finished: true, ..state }, ExecutionAction::Finish)
            } else {
                (ExecutionState { commands_left: (state.commands_left - 1) as usize, ..state }, ExecutionAction::Continue)
            },
        }
    }
}

/// One decision of the command loop shared by the collecting and streaming
/// drivers.
pub fn execution_step(state: ExecutionState, event: ExecutionEvent) -> (r: (ExecutionState, ExecutionAction))
    ensures
        r == execution_next(state, event),
{
    if state.finished {
        return (state, ExecutionAction::Finish);
    }
    match event {
        ExecutionEvent::Checked { cancelled, expired } => if cancelled {
            (ExecutionState { finished: true, ..state }, ExecutionAction::Cancelled)
        } else if expired {
            (ExecutionState { finished: true, ..state }, ExecutionAction::TimedOut)
        } else {
            (state, ExecutionAction::Continue)
        },
        ExecutionEvent::WarningAnswered { stop } => if stop {
            (ExecutionState { finished: true, ..state }, ExecutionAction::Finish)
        } else {
            (state, ExecutionAction::Continue)
        },
        ExecutionEvent::SearchStarted { query_limit, maximum } => (
            ExecutionState { limit: effective_limit(query_limit, maximum), rows: 0, limited: false, ..state },
            ExecutionAction::Continue,
        ),
        ExecutionEvent::RowFound => match state.limit {
            Some(l) => if state.rows >= l {
                (ExecutionState { limited: true, ..state }, ExecutionAction::EndSearch)
            } else {
                (state, ExecutionAction::Deliver)
            },
            None => (state, ExecutionAction::Deliver),
        },
        ExecutionEvent::RowAnswered { stop } => if stop {
            (state, ExecutionAction::EndSearch)
        } else if state.rows < usize::MAX {
            (ExecutionState { rows: state.rows + 1, ..state }, ExecutionAction::Continue)
        } else {
            (state, ExecutionAction::EndSearch)
        },
        ExecutionEvent::CommandDone => if state.commands_left <= 1 {
            (ExecutionState { commands_left: 0, finished: true, ..state }, ExecutionAction::Finish)
        } else {
            (ExecutionState { commands_left: state.commands_left - 1, ..state }, ExecutionAction::Continue)
        },
    }
}

/// The execution before its first command.
pub fn start_execution(commands: usize) -> (s: ExecutionState)
    ensures
        s == execution_start(commands),
{
    ExecutionState { commands_left: commands, limit: None, rows: 0, limited: false, finished: commands == 0 }
}

/// A search never delivers more rows than its limit: a found row is handed
/// to the sink only below the limit, and counting the row the sink took
/// keeps the count within it; at the limit the search ends, marked limited.
pub proof fn rows_stay_within_the_limit(state: ExecutionState, limit: usize)
    requires
        !state.finished,
        state.limit == Some(limit),
    ensures
        execution_next(state, ExecutionEvent::RowFound).1 == ExecutionAction::Deliver <==> state.rows < limit,
        state.rows >= limit ==> execution_next(state, ExecutionEvent::RowFound).0.limited,
        state.rows < limit ==> execution_next(state, ExecutionEvent::RowAnswered { stop: false }).0.rows <= limit,
{
}

/// Once an execution has finished, no event changes it.
pub proof fn finished_executions_stay_finished(state: ExecutionState, event: ExecutionEvent)
    requires
        state.finished,
    ensures
        execution_next(state, event) == (state, ExecutionAction::Finish),
{
}

// ---------------------------------------------------------------------------
// Warnings
// ---------------------------------------------------------------------------

/// Where a scan for the legacy `==` stands: in a comment, a double-quoted
/// token (and after a backslash there), a single-quoted token, or outside.
#[derive(Debug, Clone, Copy, PartialEq, Eq, Structural)]
pub struct QuoteScan {
    pub comment: bool,
    pub double: bool,
    pub escaped: bool,
    pub single: bool,
}

pub open spec fn byte_or(s: Seq<u8>, i: int, absent: int) -> int {
    if 0 <= i < s.len() { s[i] as int } else { absent }
}

/// Whether a legacy `==` (exactly two `=` signs) stands outside comments and
/// quoted tokens from position `i` on.
pub open spec fn legacy_equals_from(s: Seq<u8>, i: int, st: QuoteScan) -> bool
    decreases s.len() - i,
{
    if i < 0 || i >= s.len() {
        false
    } else {
        let b = s[i];
        let next = byte_or(s, i + 1, -1);
        if st.comment {
            if b == 42 && next == 47 {
                legacy_equals_from(s, i + 2, QuoteScan { comment: false, ..st })
            } else {
                legacy_equals_from(s, i + 1, st)
            }
        } else if st.double {
            if st.escaped {
                legacy_equals_from(s, i + 1, QuoteScan { escaped: false, ..st })
            } else if b == 92 {
                legacy_equals_from(s, i + 1, QuoteScan { escaped: true, ..st })
            } else if b == 34 {
                legacy_equals_from(s, i + 1, QuoteScan { double: false, ..st })
            } else {
                legacy_equals_from(s, i + 1, st)
            }
        } else if st.single {
            if b == 39 {
                legacy_equals_from(s, i + 1, QuoteScan { single: false, ..st })
            } else {
                legacy_equals_from(s, i + 1, st)
            }
        } else if b == 47 && next == 42 {
            legacy_equals_from(s, i + 2, QuoteScan { comment: true, ..st })
        } else if b == 34 {
            legacy_equals_from(s, i + 1, QuoteScan { double: true, ..st })
        } else if b == 39 {
            legacy_equals_from(s, i + 1, QuoteScan { single: true, ..st })
        } else if b == 61 && next == 61 && byte_or(s, i - 1, -1) != 61 && byte_or(s, i + 2, -1) != 61 {
            true
        } else {
            legacy_equals_from(s, i + 1, st)
        }
    }
}

/// A warning about the script's source.
#[derive(Debug, Clone)]
pub struct SourceWarning {
    pub code: String,
    pub message: String,
    pub rewrite: Option<String>,
}

/// The warnings a script's source earns: one for a legacy `==`, which means
/// nominal equality and is deprecated.
pub fn execution_warnings(source: &[u8]) -> (w: Vec<SourceWarning>)
    ensures
        w@.len() == (if legacy_equals_from(source@, 0, QuoteScan { comment: false, double: false, escaped: false, single: false }) { 1int } else { 0int }),
        w@.len() == 1 ==> w@[0].code@ == "legacy-double-equals"@,
{
    let ghost start = QuoteScan { comment: false, double: false, escaped: false, single: false };
    let mut st = QuoteScan { comment: false, double: false, escaped: false, single: false };
    let n = source.len();
    let mut i: usize = 0;
    while i < n
        invariant
            n == source@.len(),
            i <= n + 1,
            legacy_equals_from(source@, i as int, st) == legacy_equals_from(source@, 0, start),
            start == (QuoteScan { comment: false, double: false, escaped: false, single: false }),
        decreases n + 1 - i,
    {
        let b = source[i];
        let has_next = i + 1 < n;
        let next: u8 = if has_next { source[i + 1] } else { 0 };
        if st.comment {
            if b == 42 && has_next && next == 47 {
                st = QuoteScan { comment: false, ..st };
                i = i + 2;
                continue;
            }
        } else if st.double {
            if st.escaped {
                st = QuoteScan { escaped: false, ..st };
            } else if b == 92 {
                st = QuoteScan { escaped: true, ..st };
            } else if b == 34 {
                st = QuoteScan { double: false, ..st };
            }
        } else if st.single {
            if b == 39 {
                st = QuoteScan { single: false, ..st };
            }
        } else if b == 47 && has_next && next == 42 {
            st = QuoteScan { comment: true, ..st };
            i = i + 2;
            continue;
        } else if b == 34 {
            st = QuoteScan { double: true, ..st };
        } else if b == 39 {
            st = QuoteScan { single: true, ..st };
        } else if b == 61 && has_next && next == 61 && (i == 0 || source[i - 1] != 61) && (i + 2 >= n || source[i + 2]
            != 61) {
            assert(legacy_equals_from(source@, i as int, st));
            let mut w: Vec<SourceWarning> = Vec::new();
            w.push(
                SourceWarning {
                    code: crate::text::text("legacy-double-equals"),
                    message: crate::text::text("legacy '==' means nominal equality and is deprecated"),
                    rewrite: Some(crate::text::text("replace '==' with '='")),
                },
            );
            return w;
        }
        i = i + 1;
    }
    proof {
        assert(legacy_equals_from(source@, i as int, st) == false);
    }
    Vec::new()
}

} // verus!
