//! Scanner options that shape the result, independent of the pattern syntax.
use vstd::prelude::*;

verus! {

/// Options of a query.
#[derive(Debug, Clone, Copy, PartialEq, Eq, Structural)]
pub struct PathsOptions {
    /// Keep the parent directories of matched files and directories in the
    /// result, so that no matched entry is left without its parents.
    pub keep_parent: bool,
    /// Match patterns without regard to letter case.
    pub ignore_case: bool,
}

impl Default for PathsOptions {
    fn default() -> (o: Self)
        ensures
            !o.keep_parent,
            !o.ignore_case,
    {
        PathsOptions { keep_parent: false, ignore_case: false }
    }
}

impl PathsOptions {
    /// The default options: both off.
    pub fn new() -> (o: Self)
        ensures
            !o.keep_parent,
            !o.ignore_case,
    {
        PathsOptions { keep_parent: false, ignore_case: false }
    }

    /// These options with `keep_parent` set to `keep`.
    pub fn keep_parent(self, keep: bool) -> (o: Self)
        ensures
            o.keep_parent == keep,
            o.ignore_case == self.ignore_case,
    {
        PathsOptions { keep_parent: keep, ..self }
    }

    /// These options with `ignore_case` set to `ignore`.
    pub fn ignore_case(self, ignore: bool) -> (o: Self)
        ensures
            o.ignore_case == ignore,
            o.keep_parent == self.keep_parent,
    {
        PathsOptions { ignore_case: ignore, ..self }
    }
}

} // verus!
