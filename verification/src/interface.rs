//! The values exchanged with the query runner: rows, query identifiers and
//! submission options.

use crate::error::DatabaseError;
use crate::traqula::ResultCell;
use std::time::Duration;
use vstd::prelude::*;
use vstd::string::StringExecFns;

verus! {

/// A structured row emitted by the engine.
#[derive(Debug, Clone)]
pub struct Row(pub Vec<ResultCell>);

/// Opaque query identifier.
#[derive(Debug, Clone, Copy, PartialEq, Eq, Structural, Hash)]
pub struct QueryId(u64);

impl QueryId {
    pub closed spec fn number(&self) -> u64 {
        self.0
    }

    pub fn value(&self) -> (v: u64)
        ensures
            v == self.number(),
    {
        self.0
    }
}

/// Advances the query counter and names the new query; the counter never
/// wraps around.
pub fn allocate_id(next: &mut u64) -> (r: Result<QueryId, DatabaseError>)
    ensures
        *old(next) < u64::MAX ==> (r matches Ok(q) && q.number() == *old(next) + 1 && *final(next)
            == *old(next) + 1),
        *old(next) == u64::MAX ==> (r matches Err(DatabaseError::Invariant(_)) && *final(next) == *old(next)),
{
    if *next < u64::MAX {
        *next = *next + 1;
        Ok(QueryId(*next))
    } else {
        Err(DatabaseError::Invariant(String::from_str("query identifier exhausted")))
    }
}

/// Query submission options.
#[derive(Debug)]
pub struct QueryOptions {
    pub stream_results: bool,
    pub timeout: Option<Duration>,
}

impl Default for QueryOptions {
    fn default() -> (o: Self)
        ensures
            o.stream_results,
            o.timeout is None,
    {
        QueryOptions { stream_results: true, timeout: None }
    }
}

} // verus!
