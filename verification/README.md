# querypath

A directory query engine: glob patterns with negation (`!`), sibling and
orphan relations (`@`, `$`), raw regexes (`re:`), root anchors (`./`),
directory-only patterns (trailing `/`) and brace alternatives (`{a|b}`),
applied to a walk of one or more scan targets, with file and directory
sizes aggregated per directory.

## Layout

- `src/` is the library, verified with Verus. Every function states what
  it returns in its `ensures`, over the spec functions of its module.
  - `text.rs`: character-sequence specifications (`str::find`, `rfind`,
    `split`, `replace`, `trim`, ...) and their executable counterparts.
  - `braces.rs`: brace expansion, innermost group first.
  - `paths_patterns.rs`: the pattern language, its compilation into regular
    expression sources (run by the `regex` crate), single rules and rule sets.
  - `paths_entry.rs`: path normalisation, the parent/name split, whether a
    path lies inside a directory (with `\` as a separator where the
    platform reads it so), anchoring of scan targets at the working
    directory, the requested target list.
  - `fs_walk.rs`: the walk result, built from the entries that a directory
    walk reports, sorted and without duplicates.
  - `order.rs`: the text order and sorted insertion.
  - `querypath.rs`: the query builder, the in-memory index of a walk, the
    selection of files and directories and their sizes, and the report.
  - A caller's environment for `@`/`$` rules implements `PattEnvIndex`,
    naming what it holds by two spec functions that its lookups answer by.
- `app/` does the disk work (working directory, canonical paths, the
  `walkdir` walk, file metadata, the clock) and hands plain values to the
  library: `PathsEntry::build`, `AnchoredPath::resolve`, `FsWalk::scan_entry`
  and `QueryPath::run` come from its traits.
- `tests/` exercises the library on in-memory walks.
