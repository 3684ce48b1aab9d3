//! Engine of a stacked-branch Git client: line-range ownership of commits per
//! file, the workspace-wide index built from it, the canonical list of
//! worktree changes, the segmented commit graph and the rules of a rebase plan.

pub mod object_id;
pub mod path;
pub mod rebase;
pub mod reference;
pub mod repository;
pub mod settings;
pub mod dependencies;
pub mod diff;
pub mod graph;
pub mod hooks;
pub mod hunk;
pub mod stack;
pub mod stack_id;
pub mod text;
pub mod tool;
pub mod ui;
pub mod wd_tree;
pub mod workspace;
pub mod worktree;
