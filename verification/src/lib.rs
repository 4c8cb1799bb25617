//! Math tutor: curriculum graph, per-path progress, scheduling and
//! reporting over a DAG of small lessons and quizzes.
use vstd::prelude::*;

pub mod answer;
pub mod auth;
pub mod cards;
pub mod check;
pub mod curriculum;
pub mod db;
pub mod discover;
pub mod envelope;
pub mod error;
pub mod event_log;
pub mod grants;
pub mod graph;
pub mod ids;
pub mod migrate;
pub mod oauth;
pub mod overlay;
pub mod path;
pub mod progress;
pub mod reach;
pub mod scheduler;
pub mod server;
pub mod state;
pub mod store;
pub mod subpath;
pub mod syllabus;
pub mod text;
pub mod tree;
pub mod tree_view;
pub mod types;

pub use error::Error;

verus! {
}
