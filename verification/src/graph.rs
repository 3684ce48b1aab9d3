//! The commit graph of a workspace, cut into segments.
//!
//! A traversal starts at the tips of the workspace and walks to the
//! parents. Each commit lands in one segment; a segment is a run of commits
//! under one name, and edges lead from a segment to the segments of the
//! parents of its last commit. Each commit carries flags that tell how it
//! was reached.

pub mod flags;
pub mod limit;
pub mod segment;
pub mod store;
pub mod options;
pub mod queue;
pub mod arena;
pub mod refs;
pub mod remotes;
pub mod reach;
pub mod init;
pub mod seed;
pub mod walk;
pub mod post;
pub mod overlay;
pub mod cover;
pub mod roots;
pub mod descent;
pub mod seen;
