//! The decision logic of a desktop to-do list that mirrors the user's open
//! GitHub pull requests and Linear notifications and assigned issues into one
//! list of items, next to the user's own tasks.
//!
//! The modules hold what the list decides; the program around them fetches,
//! stores and shows.

/// Character-level text operations, specified over `Seq<char>`.
pub mod text;
/// Key/value tables in which a later entry for a key replaces the earlier one.
pub mod table;
/// GitHub pull requests: search results, check runs, and the sync plan.
pub mod pulls;
/// Linear notifications and assigned issues: keys and one entry per issue.
pub mod linear;
/// The sync plans for Linear notifications and issues.
pub mod linear_sync;
/// Closing and reopening items, and reading API answers.
pub mod actions;
/// The list's items, queries and edits.
pub mod items;
/// Where the GitHub and Linear tokens come from.
pub mod tokens;
/// The stored items, and what the writes of a command do to them.
pub mod stored;
/// The stored pull-request items, and what the pull-request sync writes.
pub mod stored_prs;
