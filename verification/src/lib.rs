//! Positorium: an evidence database whose immutable posits keep conflicting
//! claims side by side.

pub mod error;
pub mod text;
pub mod codec;
pub mod datatype;
pub mod timetext;
pub mod numeric;
pub mod json;
pub mod literal;
pub mod unicode;
pub mod construct;
pub mod effect;
pub mod traqula;
pub mod results;
pub mod search;
pub mod conditions;
pub mod runner;
pub mod script;
pub mod command;
pub mod terrain;
pub mod frames;
pub mod interface;
pub mod server;
pub mod storage;
pub mod maintenance;
