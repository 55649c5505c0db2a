//! Companion library for an SSH client configuration file: parsing the file
//! into connection records, resolving a selector to a host alias, building the
//! argument vectors of remote-access commands, and rewriting the file text.

pub mod text;
pub mod config;
pub mod select;
pub mod command;
pub mod mutate;
pub mod filter;
