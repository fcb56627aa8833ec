//! Ranking engine for interactive fuzzy search: a bounded top-K selector, the
//! streaming collectors built on it, the progress-emission policy and the
//! decisions of the command cache.

pub mod candidate;
pub mod collector;
pub mod dynamic;
pub mod grep;
pub mod history;
pub mod light_command;
pub mod protocol;
pub mod ranking;
pub mod scorer;
pub mod selector;
pub mod text;
