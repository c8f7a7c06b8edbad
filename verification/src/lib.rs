//! Directory query engine: glob patterns with negation, brace expansion and
//! sibling relations, path normalisation, and result aggregation.
pub mod text;
pub mod braces;
pub mod paths_patterns;
pub mod paths_options;
pub mod paths_entry;
pub mod order;
pub mod fs_walk;
pub mod querypath;

pub use crate::fs_walk::{FsWalk, FsWalkStat, WalkRecord};
pub use crate::paths_entry::{AnchoredPath, PathContext, PathNode, PathsEntry, normalize_path};
pub use crate::paths_options::PathsOptions;
pub use crate::paths_patterns::{PattEnvIndex, PattExp, PattRaw, PathsPatterns, PatternError};
pub use crate::querypath::{DirItem, FileItem, QueryPath, QueryResults, WalkEnvIndex};
