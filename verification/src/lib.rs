//! Thread-to-core placement rules for Android apps: pattern matching on
//! package and thread names, rule priorities, configuration and cache
//! handling, and the text the daemon writes for its status and log.

pub mod text;
pub mod numtext;
pub mod pattern;
pub mod json;
pub mod config;
pub mod process;
pub mod cache;
pub mod status;
pub mod daemon;
pub mod laws;
pub mod topology;
