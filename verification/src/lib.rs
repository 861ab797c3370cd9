//! Mining of syntax statistics from the history of source repositories.
//!
//! A repository's history is reduced to one sampled commit per calendar month
//! ([`timeline`], with the months of [`calendar`]). Every source file of a
//! sampled tree is handed over as a [`syntax::SyntaxNode`] and classified by
//! the analyses under [`stats`]. The rows of one sample are gathered into one
//! batch ([`snapshot`]), which is stored as a whole or not at all ([`store`]);
//! [`orchestrator`] says what is done next for a repository and what a failure
//! ends. [`download`] chooses the crates and repositories whose sources are
//! fetched.

pub mod calendar;
pub mod counting;
pub mod download;
pub mod generators;
pub mod orchestrator;
pub mod snapshot;
pub mod stats;
pub mod store;
pub mod syntax;
pub mod timeline;
