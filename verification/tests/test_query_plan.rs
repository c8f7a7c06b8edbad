use querypath::querypath::QueryPlan;
use querypath::{
    AnchoredPath, DirItem, FileItem, FsWalk, PathNode, PathsEntry, PathsOptions,
    QueryPath, QueryResults, WalkEnvIndex, WalkRecord,
};

/// One walk record for an entry below the working directory.
fn rec(inside: &str, is_dir: bool, is_empty: bool) -> WalkRecord {
    WalkRecord {
        depth: 1 + inside.matches('/').count(),
        is_symlink: false,
        is_dir,
        is_empty,
        inside: Some(inside.to_string()),
    }
}

/// The records of the tree `tests/_/` (the target itself included).
fn full_tree() -> Vec<WalkRecord> {
    let dirs = [
        "tests/_/.gh",
        "tests/_/.gh/lib",
        "tests/_/.gh/lib/dw",
        "tests/_/.gh/lib/dw/dwew",
        "tests/_/.gh/lib/dw/dwew/src",
        "tests/_/.gh/src",
        "tests/_/.ijk",
        "tests/_/.ijk/src",
        "tests/_/abc",
        "tests/_/abc/mod",
        "tests/_/abc/src",
        "tests/_/def",
        "tests/_/def/app",
        "tests/_/def/src",
        "tests/_/mn@copy",
        "tests/_/mn@copy/src",
        "tests/_/mn@copy/lib",
        "tests/_/mn@copy/lib/d$w",
        "tests/_/mn@copy/lib/d$w/dwew",
        "tests/_/mn@copy/lib/d$w/dwew/src",
    ];
    let files = [
        "tests/_/.gh/.oiu",
        "tests/_/.gh/aoe",
        "tests/_/.gh/lib/dw/dwew/src/erw.wq",
        "tests/_/.gh/lib/dw/wewe.rs",
        "tests/_/.gh/lib/dw/wxw",
        "tests/_/.gh/lib/jewe.rs",
        "tests/_/.gh/wrt.rs",
        "tests/_/def/io@.rt",
        "tests/_/def/src/io$.rt",
        "tests/_/mn@copy/wrt.rs",
        "tests/_/mn@copy/lib/jewe.rs",
        "tests/_/mn@copy/lib/d$w/wewe.rs",
        "tests/_/mn@copy/lib/d$w/dwew/src/erw.wq",
    ];
    let mut out = vec![WalkRecord {
        depth: 0,
        is_symlink: false,
        is_dir: true,
        is_empty: false,
        inside: Some("tests/_".to_string()),
    }];
    for d in dirs {
        out.push(rec(d, true, false));
    }
    for f in files {
        out.push(rec(f, false, false));
    }
    out
}

/// The records of the tree `tests/_/.gh/` only.
fn gh_tree() -> Vec<WalkRecord> {
    full_tree()
        .into_iter()
        .filter(|r| {
            let p = r.inside.clone().unwrap();
            p.starts_with("tests/_/.gh/")
        })
        .collect()
}


/// Every file weighs 10 bytes but `erw.wq`, which weighs 5.
fn sizes_of(walk: &FsWalk) -> Vec<u64> {
    walk.files.iter().map(|f| if f.str.ends_with("erw.wq") { 5 } else { 10 }).collect()
}

fn plan_for(q: &QueryPath, walk: &FsWalk) -> QueryPlan {
    let env = WalkEnvIndex::from_walk(walk);
    let patterns = q.pattern_set().unwrap();
    q.plan(walk, &env, &patterns, &sizes_of(walk))
}

fn dir_paths(p: &QueryPlan) -> Vec<String> {
    p.dirs.iter().map(|d| d.path.clone()).collect()
}

fn dir<'a>(p: &'a QueryPlan, path: &str) -> &'a DirItem {
    p.dirs.iter().find(|d| d.path == path).unwrap()
}

#[test]
fn builder_collects_paths_patterns_and_options() {
    let q = QueryPath::new();
    assert!(q.paths.is_empty());
    assert!(q.patterns.is_empty());
    assert_eq!(q.options, PathsOptions::new());
    let q = q
        .scan_at(&["./a/"])
        .scan_at(&["./b/", ""])
        .match_pattern(&["*.rs"])
        .match_pattern(&["!x"])
        .keep_parent(true)
        .ignore_case(true);
    assert_eq!(q.paths, vec!["./a/", "./b/", ""]);
    assert_eq!(q.patterns, vec!["*.rs", "!x"]);
    assert!(q.options.keep_parent);
    assert!(q.options.ignore_case);
    let q = q.options(PathsOptions::new().ignore_case(true));
    assert!(!q.options.keep_parent);
    assert!(q.options.ignore_case);
    let d = QueryPath::default();
    assert!(d.paths.is_empty() && d.patterns.is_empty());
}

#[test]
fn pattern_set_uses_the_case_option() {
    let q = QueryPath::new().match_pattern(&["*.RS", " "]);
    let strict = q.pattern_set().unwrap();
    assert_eq!(strict.rules_count(), 1);
    let walk = FsWalk::scan(gh_tree());
    let env = WalkEnvIndex::from_walk(&walk);
    assert!(!env.accepts(&strict, "./tests/_/.gh/wrt.rs"));
    let loose = q.ignore_case(true).pattern_set().unwrap();
    assert!(env.accepts(&loose, "./tests/_/.gh/wrt.rs"));
    assert!(QueryPath::new().match_pattern(&["re:("]).pattern_set().is_err());
}

#[test]
fn plan_without_patterns_selects_everything() {
    let walk = FsWalk::scan(gh_tree());
    let p = plan_for(&QueryPath::new(), &walk);
    assert_eq!(p.files.len(), 7);
    let files: Vec<&str> = p.files.iter().map(|f| f.path.as_str()).collect();
    let walked: Vec<&str> = walk.files.iter().map(|f| f.str.as_str()).collect();
    assert_eq!(files, walked);
    assert_eq!(p.files[2].path, "./tests/_/.gh/lib/dw/dwew/src/erw.wq");
    assert_eq!(p.files[2].size, 5);
    assert!(p.files.iter().all(|f| !f.is_binary && f.modified_at.is_none()));
    assert_eq!(
        dir_paths(&p),
        vec![
            "./tests/_/.gh/lib/",
            "./tests/_/.gh/lib/dw/",
            "./tests/_/.gh/lib/dw/dwew/",
            "./tests/_/.gh/lib/dw/dwew/src/",
            "./tests/_/.gh/src/",
        ]
    );
    let lib = dir(&p, "./tests/_/.gh/lib/");
    assert_eq!(lib.real_size, 35);
    assert_eq!(lib.matched_size, 35);
    let src = dir(&p, "./tests/_/.gh/src/");
    assert_eq!(src.real_size, 0);
    assert_eq!(src.matched_size, 0);
}

#[test]
fn scenariusz_3_keep_parent_katalogi_nadrzedne() {
    let walk = FsWalk::scan(full_tree());
    let q = QueryPath::new().match_pattern(&["erw.wq"]).keep_parent(true);
    let p = plan_for(&q, &walk);
    let files: Vec<&str> = p.files.iter().map(|f| f.path.as_str()).collect();
    assert_eq!(
        files,
        vec!["./tests/_/.gh/lib/dw/dwew/src/erw.wq", "./tests/_/mn@copy/lib/d$w/dwew/src/erw.wq"]
    );
    assert_eq!(
        dir_paths(&p),
        vec![
            "./tests/_/.gh/",
            "./tests/_/.gh/lib/",
            "./tests/_/.gh/lib/dw/",
            "./tests/_/.gh/lib/dw/dwew/",
            "./tests/_/.gh/lib/dw/dwew/src/",
            "./tests/_/mn@copy/",
            "./tests/_/mn@copy/lib/",
            "./tests/_/mn@copy/lib/d$w/",
            "./tests/_/mn@copy/lib/d$w/dwew/",
            "./tests/_/mn@copy/lib/d$w/dwew/src/",
        ]
    );
    let gh = dir(&p, "./tests/_/.gh/");
    assert_eq!(gh.real_size, 65);
    assert_eq!(gh.matched_size, 5);
    let dw = dir(&p, "./tests/_/.gh/lib/dw/");
    assert_eq!(dw.real_size, 25);
    assert_eq!(dw.matched_size, 5);
    let copy = dir(&p, "./tests/_/mn@copy/");
    assert_eq!(copy.real_size, 35);
    assert_eq!(copy.matched_size, 5);
    for d in &p.dirs {
        assert!(d.matched_size <= d.real_size);
    }

    let without = plan_for(&q.clone().keep_parent(false), &walk);
    assert_eq!(without.files.len(), 2);
    assert!(without.dirs.is_empty());
}

#[test]
fn plan_selects_accepted_directories() {
    let walk = FsWalk::scan(full_tree());
    let q = QueryPath::new().match_pattern(&["**/src/"]);
    let p = plan_for(&q, &walk);
    assert!(p.files.is_empty());
    assert_eq!(p.dirs.len(), 7);
    let def_src = dir(&p, "./tests/_/def/src/");
    assert_eq!(def_src.real_size, 10);
    assert_eq!(def_src.matched_size, 0);
    let kept = plan_for(&q.keep_parent(true), &walk);
    assert_eq!(kept.dirs.len(), 18);
    for d in dir_paths(&p) {
        assert!(dir_paths(&kept).contains(&d));
    }
    assert!(dir_paths(&kept).contains(&"./tests/_/.ijk/".to_string()));
    assert!(!dir_paths(&kept).contains(&"./tests/_/abc/mod/".to_string()));
}

#[test]
fn report_collects_what_the_query_did() {
    let cwd = PathNode::new("/work".to_string());
    let target = AnchoredPath::anchor(&cwd, PathNode::new("/work/tests/_/.gh".to_string()), Some("tests/_/.gh"), true);
    let entry = PathsEntry::from_targets(cwd, vec![target]).unwrap();
    let walk = FsWalk::scan(gh_tree());
    let q = QueryPath::new().scan_at(&["./tests/_/.gh/"]).match_pattern(&["*.rs"]);
    let p = plan_for(&q, &walk);
    let files: Vec<FileItem> = p.files.clone();
    let r: QueryResults = q.report(&entry, &walk, p.files, p.dirs, 100, 130, 30);
    assert_eq!(r.execution_dir, "/work");
    assert_eq!(r.scanned_paths, vec!["./tests/_/.gh/"]);
    assert_eq!(r.patterns, vec!["*.rs"]);
    assert_eq!(r.scanned_files, 7);
    assert_eq!(r.scanned_dirs, 5);
    assert_eq!((r.started_at_ms, r.finished_at_ms, r.duration_ms), (100, 130, 30));
    assert_eq!(r.files, files);
    assert_eq!(r.files.len(), 3);
    assert!(r.dirs.is_empty());
    let d = QueryResults::default();
    assert!(d.files.is_empty() && d.scanned_files == 0);
}

#[test]
fn directory_totals_must_fit_in_u64() {
    let walk = FsWalk::scan(full_tree());
    let env = WalkEnvIndex::from_walk(&walk);
    let huge: Vec<u64> = walk
        .files
        .iter()
        .map(|f| if f.str.ends_with("erw.wq") { u64::MAX } else { 10 })
        .collect();
    let q = QueryPath::new().match_pattern(&["erw.wq"]);
    let patterns = q.pattern_set().unwrap();
    assert!(q.sizes_fit(&walk, &env, &patterns, &huge));
    let kept = q.clone().keep_parent(true);
    assert!(!kept.sizes_fit(&walk, &env, &patterns, &huge));
    assert!(kept.sizes_fit(&walk, &env, &patterns, &sizes_of(&walk)));
    assert!(kept.plan_checked(&walk, &env, &patterns, &huge).is_none());
    let checked = kept.plan_checked(&walk, &env, &patterns, &sizes_of(&walk)).unwrap();
    let plain = kept.plan(&walk, &env, &patterns, &sizes_of(&walk));
    assert_eq!(dir_paths(&checked), dir_paths(&plain));
    assert_eq!(checked.files, plain.files);
    assert!(q.plan_checked(&walk, &env, &patterns, &huge).is_some());
    let src_dirs = QueryPath::new().match_pattern(&["**/src/"]);
    let src_patterns = src_dirs.pattern_set().unwrap();
    assert!(src_dirs.sizes_fit(&walk, &env, &src_patterns, &huge));
    let only_def = QueryPath::new().match_pattern(&["def/"]);
    let def_patterns = only_def.pattern_set().unwrap();
    assert!(only_def.sizes_fit(&walk, &env, &def_patterns, &huge));
}

#[test]
fn zero_byte_marks_binary_content() {
    use_zero_byte_cases();
}

fn use_zero_byte_cases() {
    assert!(!querypath::querypath::holds_zero_byte(b""));
    assert!(!querypath::querypath::holds_zero_byte(b"plain text\n"));
    assert!(querypath::querypath::holds_zero_byte(&[0x7f, b'E', b'L', b'F', 0, 1]));
    assert!(querypath::querypath::holds_zero_byte(&[0]));
}

#[test]
fn keep_parent_keeps_parents_of_matched_directories() {
    let walk = FsWalk::scan(vec![rec("a", true, false), rec("a/b", true, true)]);
    let q = QueryPath::new().match_pattern(&["b/"]);
    let without = plan_for(&q, &walk);
    assert_eq!(dir_paths(&without), vec!["./a/b/"]);
    let with = plan_for(&q.keep_parent(true), &walk);
    assert_eq!(dir_paths(&with), vec!["./a/", "./a/b/"]);

    let deep = FsWalk::scan(full_tree());
    let src = plan_for(&QueryPath::new().match_pattern(&["**/dwew/src/"]).keep_parent(true), &deep);
    assert_eq!(
        dir_paths(&src),
        vec![
            "./tests/_/.gh/",
            "./tests/_/.gh/lib/",
            "./tests/_/.gh/lib/dw/",
            "./tests/_/.gh/lib/dw/dwew/",
            "./tests/_/.gh/lib/dw/dwew/src/",
            "./tests/_/mn@copy/",
            "./tests/_/mn@copy/lib/",
            "./tests/_/mn@copy/lib/d$w/",
            "./tests/_/mn@copy/lib/d$w/dwew/",
            "./tests/_/mn@copy/lib/d$w/dwew/src/",
        ]
    );
}
