//! Errors reported by every fallible operation of the library.

use crate::text::{decimal_text, push_decimal};
use vstd::prelude::*;
use vstd::string::StringExecFns;

verus! {

/// The failures that the database, its store and its query engine report.
#[derive(Debug)]
pub enum DatabaseError {
    Config(String),
    Persistence(String),
    DataCorruption { message: String },
    Parse { message: String, line: Option<usize>, col: Option<usize> },
    Execution(String),
    Cancelled,
    Timeout,
    ResourceLimit { resource: &'static str, limit: u64 },
    UnknownRole(String),
    InvalidAppearanceSet(String),
    UnknownVariable(String),
    VariableDomain { name: String, first: &'static str, second: &'static str },
    InvalidRecall(String),
    Comparison(String),
    Parameter(String),
    Invariant(String),
    Lock(String),
}

/// Builds the error for a resource whose bound was exceeded.
pub fn resource_limit(resource: &'static str, limit: u64) -> (error: DatabaseError)
    ensures
        error == (DatabaseError::ResourceLimit { resource, limit }),
{
    DatabaseError::ResourceLimit { resource, limit }
}

/// The text of an error.
pub open spec fn error_text(e: DatabaseError) -> Seq<char> {
    match e {
        DatabaseError::Config(m) => "Config error: "@ + m@,
        DatabaseError::Persistence(m) => "Persistence error: "@ + m@,
        DatabaseError::DataCorruption { message } => "Data corruption: "@ + message@,
        DatabaseError::Parse { message, .. } => "Parse error: "@ + message@,
        DatabaseError::Execution(m) => "Execution error: "@ + m@,
        DatabaseError::Cancelled => "Execution cancelled"@,
        DatabaseError::Timeout => "Execution timed out"@,
        DatabaseError::ResourceLimit { resource, limit } => "Resource limit exceeded for "@ + resource@ + ": maximum "@
            + decimal_text(limit as nat),
        DatabaseError::UnknownRole(m) => "Unknown role: "@ + m@,
        DatabaseError::InvalidAppearanceSet(m) => "Invalid appearance set: "@ + m@,
        DatabaseError::UnknownVariable(m) => "Unknown variable: "@ + m@,
        DatabaseError::VariableDomain { name, first, second } => "Query variable '"@ + name@
            + "' has incompatible domains: "@ + first@ + " and "@ + second@,
        DatabaseError::InvalidRecall(m) => "Invalid query recall: "@ + m@,
        DatabaseError::Comparison(m) => "Unsupported comparison: "@ + m@,
        DatabaseError::Parameter(m) => "Invalid parameter: "@ + m@,
        DatabaseError::Invariant(m) => "Internal invariant violated: "@ + m@,
        DatabaseError::Lock(m) => "Lock poisoned: "@ + m@,
    }
}

fn prefixed(prefix: &str, rest: &str) -> (r: String)
    ensures
        r@ == prefix@ + rest@,
{
    let mut r = String::from_str(prefix);
    r.append(rest);
    r
}

impl DatabaseError {
    /// The message of the error.
    pub fn to_string(&self) -> (r: String)
        ensures
            r@ == error_text(*self),
    {
        match self {
            DatabaseError::Config(m) => prefixed("Config error: ", m.as_str()),
            DatabaseError::Persistence(m) => prefixed("Persistence error: ", m.as_str()),
            DatabaseError::DataCorruption { message } => prefixed("Data corruption: ", message.as_str()),
            DatabaseError::Parse { message, .. } => prefixed("Parse error: ", message.as_str()),
            DatabaseError::Execution(m) => prefixed("Execution error: ", m.as_str()),
            DatabaseError::Cancelled => String::from_str("Execution cancelled"),
            DatabaseError::Timeout => String::from_str("Execution timed out"),
            DatabaseError::ResourceLimit { resource, limit } => {
                let mut r = prefixed("Resource limit exceeded for ", resource);
                r.append(": maximum ");
                push_decimal(&mut r, *limit);
                r
            },
            DatabaseError::UnknownRole(m) => prefixed("Unknown role: ", m.as_str()),
            DatabaseError::InvalidAppearanceSet(m) => prefixed("Invalid appearance set: ", m.as_str()),
            DatabaseError::UnknownVariable(m) => prefixed("Unknown variable: ", m.as_str()),
            DatabaseError::VariableDomain { name, first, second } => {
                let mut r = prefixed("Query variable '", name.as_str());
                r.append("' has incompatible domains: ");
                r.append(first);
                r.append(" and ");
                r.append(second);
                r
            },
            DatabaseError::InvalidRecall(m) => prefixed("Invalid query recall: ", m.as_str()),
            DatabaseError::Comparison(m) => prefixed("Unsupported comparison: ", m.as_str()),
            DatabaseError::Parameter(m) => prefixed("Invalid parameter: ", m.as_str()),
            DatabaseError::Invariant(m) => prefixed("Internal invariant violated: ", m.as_str()),
            DatabaseError::Lock(m) => prefixed("Lock poisoned: ", m.as_str()),
        }
    }
}

} // verus!
