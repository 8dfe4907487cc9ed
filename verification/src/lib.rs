//! Verified core of the `stats` and credential-prompt commands.
pub mod command;
