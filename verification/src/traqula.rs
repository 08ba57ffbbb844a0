//! Shared vocabulary of the Traqula engine: result cells and sinks,
//! cooperative cancellation, execution warnings and the index odometer used
//! to enumerate Cartesian products.

use crate::datatype::Time;
pub use crate::timetext::{parse_time, parse_time_with_now};
use std::sync::atomic::AtomicBool;
use std::sync::Arc;
use vstd::prelude::*;

verus! {

/// Version of the accepted Traqula source grammar and semantics.
pub const TRAQULA_VERSION: u16 = 1;

/// What an intermediate result set holds.
#[derive(Debug, PartialEq, Eq, Structural, PartialOrd, Ord, Copy, Clone)]
pub enum ResultSetMode {
    Empty,
    Thing,
    Multi,
}

/// Control flow returned by a sink after receiving a row.
#[derive(Debug, PartialEq, Eq, Structural, Copy, Clone)]
pub enum SinkFlow {
    Continue,
    Stop,
}

/// Stable kind tag of a projected result cell.
#[derive(Debug, Clone, Copy, PartialEq, Eq, Structural, PartialOrd, Ord)]
pub enum ResultCellKind {
    Thing,
    Literal,
    Time,
}

/// One lossless projected value.
#[derive(Debug, Clone)]
pub struct ResultCell {
    pub kind: ResultCellKind,
    pub text: String,
}

impl ResultCell {
    pub fn new(kind: ResultCellKind, text: String) -> (c: Self)
        ensures
            c.kind == kind,
            c.text@ == text@,
    {
        ResultCell { kind, text }
    }

    pub fn as_str(&self) -> (s: &str)
        ensures
            s@ == self.text@,
    {
        self.text.as_str()
    }
}

/// Receives projected rows; returning `Stop` asks the engine to stop early.
pub trait RowSink {
    /// Called for each execution warning before rows are emitted.
    fn on_warning(&mut self, warning: &ExecutionWarning) -> SinkFlow {
        SinkFlow::Continue
    }

    /// Called once with the column names, before any row.
    fn on_meta(&mut self, columns: &[String]) -> SinkFlow {
        SinkFlow::Continue
    }

    /// Called for each projected row.
    fn push(&mut self, row: Vec<ResultCell>) -> SinkFlow;
}

/// Receives the framing events of a multi-search stream.
pub trait MultiStreamCallbacks {
    /// Called once for each script-level execution warning.
    fn on_warning(&mut self, warning: &ExecutionWarning) {
    }

    /// Called at the start of each result set.
    fn on_result_set_start(&mut self, set_index: usize, columns: &[String], search_text: &str);

    /// Called for every row; false asks to end this result set early.
    fn on_row(&mut self, set_index: usize, row: Vec<ResultCell>) -> bool;

    /// Called when a result set finishes.
    fn on_result_set_end(&mut self, set_index: usize, row_count: usize, limited: bool);
}

/// A clonable cooperative cancellation flag shared with a running
/// execution.
#[derive(Debug, Clone)]
pub struct CancellationToken(Arc<AtomicBool>);

impl CancellationToken {
    pub fn new() -> (t: Self) {
        CancellationToken(Arc::new(AtomicBool::new(false)))
    }

    /// Requests cancellation.
    pub fn cancel(&self) {
        self.0.store(true, std::sync::atomic::Ordering::Release);
    }

    /// Whether cancellation was requested. Another holder of the token may
    /// set it at any moment, so nothing is claimed of the answer.
    pub fn is_cancelled(&self) -> (b: bool) {
        self.0.load(std::sync::atomic::Ordering::Acquire)
    }
}

impl Default for CancellationToken {
    fn default() -> (t: Self) {
        Self::new()
    }
}

/// A value bound to a script parameter: literal text or time text.
#[derive(Debug, Clone)]
pub enum ExecutionParameter {
    Literal { text: String },
    Time { text: String },
}

/// A non-fatal diagnostic produced while executing a script.
#[derive(Debug, Clone)]
pub struct ExecutionWarning {
    pub code: String,
    pub message: String,
    pub rewrite: Option<String>,
}

/// Options of one complete script execution.
#[derive(Debug, Clone)]
pub struct ExecutionOptions {
    /// Replaces every `@NOW` in the script.
    pub now: Option<Time>,
    /// Cooperative deadline measured from the start of execution.
    pub timeout: Option<std::time::Duration>,
    /// Token callers may use to request cancellation.
    pub cancellation: Option<CancellationToken>,
    /// Maximum rows emitted by each search; a lower `LIMIT` wins.
    pub max_rows_per_search: Option<usize>,
}

impl Default for ExecutionOptions {
    fn default() -> (o: Self)
        ensures
            o.now is None,
            o.timeout is None,
            o.cancellation is None,
            o.max_rows_per_search is None,
    {
        ExecutionOptions { now: None, timeout: None, cancellation: None, max_rows_per_search: None }
    }
}

// ---------------------------------------------------------------------------
// Cartesian products
// ---------------------------------------------------------------------------

/// The position of an index vector among all tuples of the given lengths,
/// read as a mixed-radix number whose last digit varies fastest.
pub open spec fn tuple_rank(idx: Seq<usize>, lengths: Seq<usize>) -> int
    decreases idx.len(),
{
    if idx.len() == 0 || lengths.len() == 0 {
        0
    } else {
        tuple_rank(idx.drop_last(), lengths.drop_last()) * (lengths.last() as int) + (idx.last() as int)
    }
}

/// The number of tuples of the given lengths.
pub open spec fn tuple_count(lengths: Seq<usize>) -> int
    decreases lengths.len(),
{
    if lengths.len() == 0 {
        1
    } else {
        tuple_count(lengths.drop_last()) * (lengths.last() as int)
    }
}

/// Every digit is below its length.
pub open spec fn indices_in_range(idx: Seq<usize>, lengths: Seq<usize>) -> bool {
    &&& idx.len() == lengths.len()
    &&& forall|i: int| 0 <= i < idx.len() ==> #[trigger] idx[i] < lengths[i]
}

proof fn lemma_rank_below_count(idx: Seq<usize>, lengths: Seq<usize>)
    requires
        indices_in_range(idx, lengths),
    ensures
        0 <= tuple_rank(idx, lengths) < tuple_count(lengths),
    decreases idx.len(),
{
    if idx.len() > 0 {
        let pi = idx.drop_last();
        let pl = lengths.drop_last();
        assert(indices_in_range(pi, pl)) by {
            assert forall|i: int| 0 <= i < pi.len() implies #[trigger] pi[i] < pl[i] by {
                assert(idx[i] < lengths[i]);
            }
        }
        lemma_rank_below_count(pi, pl);
        let r = tuple_rank(pi, pl);
        let c = tuple_count(pl);
        let l = lengths.last() as int;
        let d = idx.last() as int;
        assert(d < l) by {
            assert(idx[idx.len() - 1] < lengths[lengths.len() - 1]);
        }
        assert(0 <= r * l + d < c * l) by (nonlinear_arith)
            requires
                0 <= r < c,
                0 <= d < l,
        ;
    }
}

/// Advances `idx` to the next tuple, the last position varying fastest;
/// returns false, with every position back at zero, after the last tuple.
pub fn advance_indices(idx: &mut Vec<usize>, lengths: &[usize]) -> (more: bool)
    requires
        indices_in_range(old(idx)@, lengths@),
    ensures
        indices_in_range(final(idx)@, lengths@),
        more ==> tuple_rank(final(idx)@, lengths@) == tuple_rank(old(idx)@, lengths@) + 1,
        !more ==> tuple_rank(old(idx)@, lengths@) + 1 == tuple_count(lengths@) && forall|i: int|
            0 <= i < final(idx)@.len() ==> #[trigger] final(idx)@[i] == 0,
{
    let n = idx.len();
    let mut pos = n;
    let ghost start = idx@;
    proof {
        lemma_rank_below_count(start, lengths@);
    }
    while pos > 0
        invariant
            n == idx@.len(),
            n == lengths@.len(),
            n == start.len(),
            start == old(idx)@,
            pos <= n,
            indices_in_range(start, lengths@),
            indices_in_range(idx@, lengths@),
            forall|i: int| 0 <= i < pos ==> #[trigger] idx@[i] == start[i],
            forall|i: int| pos <= i < n ==> #[trigger] idx@[i] == 0,
            forall|i: int| pos <= i < n ==> #[trigger] start[i] + 1 == lengths@[i],
        decreases pos,
    {
        let p = pos - 1;
        if idx[p] + 1 < lengths[p] {
            idx.set(p, idx[p] + 1);
            proof {
                lemma_increment_rank(start, idx@, lengths@, p as int);
            }
            return true;
        }
        idx.set(p, 0);
        pos = p;
    }
    proof {
        lemma_last_rank(start, lengths@);
    }
    false
}

proof fn lemma_increment_rank(start: Seq<usize>, next: Seq<usize>, lengths: Seq<usize>, p: int)
    requires
        indices_in_range(start, lengths),
        next.len() == start.len(),
        0 <= p < start.len(),
        forall|i: int| 0 <= i < p ==> #[trigger] next[i] == start[i],
        next[p] == start[p] + 1,
        forall|i: int| p < i < start.len() ==> #[trigger] next[i] == 0,
        forall|i: int| p < i < start.len() ==> #[trigger] start[i] + 1 == lengths[i],
    ensures
        tuple_rank(next, lengths) == tuple_rank(start, lengths) + 1,
    decreases start.len(),
{
    let k = start.len() - 1;
    if p == k {
        assert(next.drop_last() =~= start.drop_last());
    } else {
        let sd = start.drop_last();
        let nd = next.drop_last();
        let ld = lengths.drop_last();
        assert(indices_in_range(sd, ld)) by {
            assert forall|i: int| 0 <= i < sd.len() implies #[trigger] sd[i] < ld[i] by {
                assert(start[i] < lengths[i]);
            }
        }
        assert forall|i: int| 0 <= i < p implies #[trigger] nd[i] == sd[i] by {
            assert(next[i] == start[i]);
        }
        assert forall|i: int| p < i < sd.len() implies #[trigger] nd[i] == 0 by {
            assert(next[i] == 0);
        }
        assert forall|i: int| p < i < sd.len() implies #[trigger] sd[i] + 1 == ld[i] by {
            assert(start[i] + 1 == lengths[i]);
        }
        lemma_increment_rank(sd, nd, ld, p);
        let r = tuple_rank(sd, ld);
        let l = lengths.last() as int;
        assert(next[k] == 0);
        assert(start[k] + 1 == lengths[k]);
        assert((r + 1) * l + 0 == r * l + (l - 1) + 1) by (nonlinear_arith);
    }
}

proof fn lemma_last_rank(start: Seq<usize>, lengths: Seq<usize>)
    requires
        indices_in_range(start, lengths),
        forall|i: int| 0 <= i < start.len() ==> #[trigger] start[i] + 1 == lengths[i],
    ensures
        tuple_rank(start, lengths) + 1 == tuple_count(lengths),
    decreases start.len(),
{
    if start.len() > 0 {
        let sd = start.drop_last();
        let ld = lengths.drop_last();
        assert(indices_in_range(sd, ld)) by {
            assert forall|i: int| 0 <= i < sd.len() implies #[trigger] sd[i] < ld[i] by {
                assert(start[i] < lengths[i]);
            }
        }
        assert forall|i: int| 0 <= i < sd.len() implies #[trigger] sd[i] + 1 == ld[i] by {
            assert(start[i] + 1 == lengths[i]);
        }
        lemma_last_rank(sd, ld);
        let r = tuple_rank(sd, ld);
        let c = tuple_count(ld);
        let l = lengths.last() as int;
        assert(start[start.len() - 1] + 1 == lengths[lengths.len() - 1]);
        assert(r * l + (l - 1) + 1 == c * l) by (nonlinear_arith)
            requires
                r + 1 == c,
        ;
    }
}

/// Calls `f` once with the index vector of every tuple of the Cartesian
/// product of `lists`, in order of rank; calls it never when `lists` is
/// empty or one of the lists is.
pub fn for_each_cartesian_indices<T: Copy, F: FnMut(&[usize])>(lists: &[&[T]], f: F)
    requires
        forall|s: &[usize]| #[trigger] call_requires(f, (s,)),
{
    let mut f = f;
    let n = lists.len();
    if n == 0 {
        return;
    }
    let mut lengths: Vec<usize> = Vec::new();
    let mut i: usize = 0;
    while i < n
        invariant
            n == lists@.len(),
            i <= n,
            lengths@.len() == i,
            forall|k: int| 0 <= k < i ==> #[trigger] lengths@[k] > 0,
        decreases n - i,
    {
        let len = lists[i].len();
        if len == 0 {
            return;
        }
        lengths.push(len);
        i = i + 1;
    }
    let mut idx: Vec<usize> = Vec::new();
    let mut j: usize = 0;
    while j < n
        invariant
            j <= n,
            idx@.len() == j,
            lengths@.len() == n,
            forall|k: int| 0 <= k < n ==> #[trigger] lengths@[k] > 0,
            forall|k: int| 0 <= k < j ==> #[trigger] idx@[k] == 0,
        decreases n - j,
    {
        idx.push(0);
        j = j + 1;
    }
    proof {
        assert(indices_in_range(idx@, lengths@)) by {
            assert forall|k: int| 0 <= k < idx@.len() implies #[trigger] idx@[k] < lengths@[k] by {
                assert(lengths@[k] > 0);
            }
        }
        lemma_rank_below_count(idx@, lengths@);
    }
    loop
        invariant
            indices_in_range(idx@, lengths@),
            forall|s: &[usize]| #[trigger] call_requires(f, (s,)),
        decreases tuple_count(lengths@) - tuple_rank(idx@, lengths@),
    {
        proof {
            lemma_rank_below_count(idx@, lengths@);
        }
        f(idx.as_slice());
        if !advance_indices(&mut idx, lengths.as_slice()) {
            break;
        }
    }
}

} // verus!
