//! A small directory of people, keyed by code, answering short text commands.

pub mod roman;
pub mod command;
pub mod directory;
pub mod normalize;
pub mod query;
pub mod text;
