//! The line protocol: the predicate language and the command dispatcher.

pub mod command;
pub mod dispatch;
pub mod grammar;
pub mod parser;
