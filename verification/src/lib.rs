use vstd::prelude::*;

pub mod text;
pub mod edit;
pub mod diff;
pub mod schema;
pub mod theme;
pub mod read_cache;
pub mod typeahead;
pub mod dry_run_log;
pub mod prune;
pub mod mtplx_runner;
pub mod sparkline;
pub mod picker;
pub mod agent;
pub mod client;
pub mod updater;
pub mod session_store;
pub mod logo;
pub mod pretty;
pub mod search;
pub mod setup;
pub mod sticky_bar;
pub mod watch;
pub mod peek_log;
pub mod read;
pub mod chat;
pub mod multi_edit;
pub mod tree;
pub mod panels;
pub mod html;
pub mod suggest;

verus! {
} // verus!
