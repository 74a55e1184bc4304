//! Verified core of the tau coding agent.

pub mod agent;
pub mod agents;
pub mod animator;
pub mod cbor;
pub mod cli;
pub mod convert;
pub mod edit;
pub mod effort;
pub mod event_log;
pub mod ext_dummy;
pub mod ext_fs;
pub mod extension;
pub mod isolation;
pub mod json;
pub mod line;
pub mod listing;
pub mod llm;
pub mod model;
pub mod names;
pub mod notifications;
pub mod path;
pub mod prompt;
pub mod proto;
pub mod provider;
pub mod records;
pub mod screen;
pub mod semaphore;
pub mod session;
pub mod session_store;
pub mod skills;
pub mod style;
pub mod support;
pub mod table;
pub mod term;
pub mod terminal;
pub mod text;
pub mod theme;
pub mod truncate;
