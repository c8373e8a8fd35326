//! Decision logic of a notifier that watches web sources and mails updates.

pub mod config;
pub mod email;
pub mod github;
pub mod notifier;
pub mod runner;
pub mod scripthookv;
pub mod storage;
pub mod text;
pub mod weather;
