use querypath::{FsWalk, FsWalkStat, WalkRecord};

/// One walk record for an entry below the working directory.
fn rec(inside: &str, is_dir: bool, is_empty: bool) -> WalkRecord {
    WalkRecord {
        depth: 1 + inside.matches('/').count(),
        is_symlink: false,
        is_dir,
        is_empty,
        inside: Some(inside.to_string()),
    }
}

/// The records of the tree `tests/_/` (the target itself included).
fn full_tree() -> Vec<WalkRecord> {
    let dirs = [
        "tests/_/.gh",
        "tests/_/.gh/lib",
        "tests/_/.gh/lib/dw",
        "tests/_/.gh/lib/dw/dwew",
        "tests/_/.gh/lib/dw/dwew/src",
        "tests/_/.gh/src",
        "tests/_/.ijk",
        "tests/_/.ijk/src",
        "tests/_/abc",
        "tests/_/abc/mod",
        "tests/_/abc/src",
        "tests/_/def",
        "tests/_/def/app",
        "tests/_/def/src",
        "tests/_/mn@copy",
        "tests/_/mn@copy/src",
        "tests/_/mn@copy/lib",
        "tests/_/mn@copy/lib/d$w",
        "tests/_/mn@copy/lib/d$w/dwew",
        "tests/_/mn@copy/lib/d$w/dwew/src",
    ];
    let files = [
        "tests/_/.gh/.oiu",
        "tests/_/.gh/aoe",
        "tests/_/.gh/lib/dw/dwew/src/erw.wq",
        "tests/_/.gh/lib/dw/wewe.rs",
        "tests/_/.gh/lib/dw/wxw",
        "tests/_/.gh/lib/jewe.rs",
        "tests/_/.gh/wrt.rs",
        "tests/_/def/io@.rt",
        "tests/_/def/src/io$.rt",
        "tests/_/mn@copy/wrt.rs",
        "tests/_/mn@copy/lib/jewe.rs",
        "tests/_/mn@copy/lib/d$w/wewe.rs",
        "tests/_/mn@copy/lib/d$w/dwew/src/erw.wq",
    ];
    let mut out = vec![WalkRecord {
        depth: 0,
        is_symlink: false,
        is_dir: true,
        is_empty: false,
        inside: Some("tests/_".to_string()),
    }];
    for d in dirs {
        out.push(rec(d, true, false));
    }
    for f in files {
        out.push(rec(f, false, false));
    }
    out
}

/// The records of the tree `tests/_/.gh/` only.
fn gh_tree() -> Vec<WalkRecord> {
    full_tree()
        .into_iter()
        .filter(|r| {
            let p = r.inside.clone().unwrap();
            p.starts_with("tests/_/.gh/")
        })
        .collect()
}


fn texts(nodes: &[querypath::PathNode]) -> Vec<String> {
    nodes.iter().map(|n| n.str.clone()).collect()
}

#[test]
fn test_scan_hidden_structure_without_patterns() {
    let mut records = gh_tree();
    records.reverse();
    let walk = FsWalk::scan(records);
    assert_eq!(
        texts(&walk.files),
        vec![
            "./tests/_/.gh/.oiu",
            "./tests/_/.gh/aoe",
            "./tests/_/.gh/lib/dw/dwew/src/erw.wq",
            "./tests/_/.gh/lib/dw/wewe.rs",
            "./tests/_/.gh/lib/dw/wxw",
            "./tests/_/.gh/lib/jewe.rs",
            "./tests/_/.gh/wrt.rs",
        ]
    );
    assert_eq!(
        texts(&walk.dirs),
        vec![
            "./tests/_/.gh/lib/",
            "./tests/_/.gh/lib/dw/",
            "./tests/_/.gh/lib/dw/dwew/",
            "./tests/_/.gh/lib/dw/dwew/src/",
            "./tests/_/.gh/src/",
        ]
    );
    assert_eq!(walk.stat.count_files, 7);
    assert_eq!(walk.stat.count_dirs, 5);
}

#[test]
fn walk_skips_target_links_and_outside_entries() {
    let records = vec![
        WalkRecord { depth: 0, is_symlink: false, is_dir: true, is_empty: false, inside: Some("abc".to_string()) },
        WalkRecord { depth: 1, is_symlink: true, is_dir: false, is_empty: false, inside: Some("abc/link".to_string()) },
        WalkRecord { depth: 1, is_symlink: false, is_dir: false, is_empty: false, inside: None },
        rec("abc/mod", true, true),
        rec("abc/src", true, false),
        rec("abc/src/x.rs", false, true),
    ];
    let walk = FsWalk::scan(records);
    assert_eq!(texts(&walk.files), vec!["./abc/src/x.rs"]);
    assert_eq!(texts(&walk.dirs), vec!["./abc/mod/", "./abc/src/"]);
    assert_eq!(
        walk.stat,
        FsWalkStat { count_files: 1, count_dirs: 2, count_empty_dirs: 1, count_empty_files: 1 }
    );
}

#[test]
fn walk_counts_every_record_but_lists_each_text_once() {
    let records = vec![
        rec("abc/src", true, false),
        rec("abc/src/x.rs", false, false),
        rec("abc/src/", true, false),
        rec("./abc/src/x.rs", false, false),
    ];
    let walk = FsWalk::scan(records);
    assert_eq!(texts(&walk.files), vec!["./abc/src/x.rs"]);
    assert_eq!(texts(&walk.dirs), vec!["./abc/src/"]);
    assert_eq!(walk.stat.count_files, 2);
    assert_eq!(walk.stat.count_dirs, 2);
}

#[test]
fn walk_texts_are_normalised() {
    let records = vec![rec("abc\\src\\x.rs", false, false), rec("abc\\src", true, false)];
    let walk = FsWalk::scan(records);
    assert_eq!(texts(&walk.files), vec!["./abc/src/x.rs"]);
    assert_eq!(texts(&walk.dirs), vec!["./abc/src/"]);
}

#[test]
fn default_walk_counters_are_zero() {
    let s = FsWalkStat::default();
    assert_eq!(s, FsWalkStat { count_files: 0, count_dirs: 0, count_empty_dirs: 0, count_empty_files: 0 });
    let empty = FsWalk::scan(vec![]);
    assert!(empty.files.is_empty());
    assert!(empty.dirs.is_empty());
    assert_eq!(empty.stat, s);
}

/// The records of the subtree `tests/_/<name>/` of the fixture tree.
fn subtree(name: &str) -> Vec<WalkRecord> {
    let prefix = format!("tests/_/{name}/");
    full_tree().into_iter().filter(|r| r.inside.clone().unwrap().starts_with(&prefix)).collect()
}

#[test]
fn test_scan_single_dir_without_patterns() {
    let walk = FsWalk::scan(subtree("abc"));
    assert!(walk.files.is_empty());
    assert_eq!(texts(&walk.dirs), vec!["./tests/_/abc/mod/", "./tests/_/abc/src/"]);
}

#[test]
fn test_scan_multiple_alternatives_without_patterns() {
    let targets = querypath::PathsEntry::requested_paths(&["./tests/_/{abc|def}/"]);
    assert_eq!(targets, vec!["./tests/_/abc/", "./tests/_/def/"]);
    let mut records = subtree("abc");
    records.extend(subtree("def"));
    let walk = FsWalk::scan(records);
    assert_eq!(
        texts(&walk.dirs),
        vec!["./tests/_/abc/mod/", "./tests/_/abc/src/", "./tests/_/def/app/", "./tests/_/def/src/"]
    );
}

#[test]
fn podglad_skanu_w_konsoli() {
    let mut records = subtree(".gh");
    records.extend(subtree("abc"));
    let walk = FsWalk::scan(records);
    println!("dirs ({}):", walk.dirs.len());
    for d in &walk.dirs {
        println!("  {}", d.str);
    }
    println!("files ({}):", walk.files.len());
    for f in &walk.files {
        println!("  {}", f.str);
    }
    println!(
        "dirs {} (empty {}), files {} (empty {})",
        walk.stat.count_dirs, walk.stat.count_empty_dirs, walk.stat.count_files, walk.stat.count_empty_files
    );
}

#[test]
fn walk_texts_start_with_dot_slash() {
    let walk = FsWalk::scan(full_tree());
    assert!(walk.files.iter().all(|f| f.buf.starts_with("./") && !f.buf.ends_with('/')));
    assert!(walk.dirs.iter().all(|d| d.buf.starts_with("./") && d.buf.ends_with('/')));
}
