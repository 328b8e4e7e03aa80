//! Storage core for a forest of branching conversations.
//!
//! Projects own trees, trees own nodes, and nodes form parent-linked trees of
//! conversation turns. The crate holds the tables in memory, enforces their
//! integrity rules, and states every operation against a mathematical model
//! of the tables.
//!
//! - [`models`]: the rows, the inputs that create and patch them, and their
//!   views as plain values.
//! - [`tables`]: the model, its integrity rules, and what each operation
//!   does to it.
//! - [`db`]: the store that holds the tables, and the ledger of schema
//!   upgrades.
//! - [`commands`]: the operations, each proved to do what the model says.
//! - [`laws`]: what holds of the operations taken together.
//! - [`error`]: the failures an operation reports.
//! - [`text`] and [`seqs`]: the order of text, and facts about filtered
//!   sequences, on which the rest is built.
//!
//! The store neither reads the clock nor touches a file: a caller hands each
//! write the time to stamp it with, and keeps the rows wherever it sees fit.

pub mod commands;
pub mod db;
pub mod error;
mod ids;
pub mod laws;
pub mod models;
pub mod seqs;
pub mod tables;
pub mod text;
