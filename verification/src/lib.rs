//! Verified core of a tool that keeps hledger market-price journals up to date.

pub mod text;
pub mod journal;
pub mod date;
pub mod history;
pub mod update;
pub mod search;
