//! The rules of a copy-on-write time machine for workspaces.
//!
//! An operation is worked out as a list of actions, or step by step; whoever uses
//! the library carries the actions out. The modules whose names end in `_law` state
//! what holds of the operations on every disk.

pub mod action;
pub mod clock;
pub mod clone;
pub mod clone_law;
pub mod copy_law;
pub mod diff;
pub mod diff_law;
pub mod disk;
pub mod effect;
pub mod error;
pub mod fork;
pub mod fork_law;
pub mod git;
pub mod hook;
pub mod journal;
pub mod json;
pub mod label;
pub mod listing;
pub mod number;
pub mod number_law;
pub mod ops;
pub mod ops_law;
pub mod order;
pub mod path;
pub mod path_law;
pub mod place;
pub mod prune;
pub mod prune_law;
pub mod report;
pub mod report_law;
pub mod restore_law;
pub mod settings;
pub mod settings_law;
pub mod snap_law;
pub mod step_law;
pub mod store;
pub mod text;
pub mod text_law;
pub mod tree_ref;
pub mod view_law;
pub mod walk;
pub mod walk_law;
