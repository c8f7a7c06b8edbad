use querypath::paths_patterns::PattEnvIndex;
use querypath::{FsWalk, PathsPatterns, WalkEnvIndex, WalkRecord};

/// One walk record for an entry below the working directory.
fn rec(inside: &str, is_dir: bool, is_empty: bool) -> WalkRecord {
    WalkRecord {
        depth: 1 + inside.matches('/').count(),
        is_symlink: false,
        is_dir,
        is_empty,
        inside: Some(inside.to_string()),
    }
}

/// The records of the tree `tests/_/` (the target itself included).
fn full_tree() -> Vec<WalkRecord> {
    let dirs = [
        "tests/_/.gh",
        "tests/_/.gh/lib",
        "tests/_/.gh/lib/dw",
        "tests/_/.gh/lib/dw/dwew",
        "tests/_/.gh/lib/dw/dwew/src",
        "tests/_/.gh/src",
        "tests/_/.ijk",
        "tests/_/.ijk/src",
        "tests/_/abc",
        "tests/_/abc/mod",
        "tests/_/abc/src",
        "tests/_/def",
        "tests/_/def/app",
        "tests/_/def/src",
        "tests/_/mn@copy",
        "tests/_/mn@copy/src",
        "tests/_/mn@copy/lib",
        "tests/_/mn@copy/lib/d$w",
        "tests/_/mn@copy/lib/d$w/dwew",
        "tests/_/mn@copy/lib/d$w/dwew/src",
    ];
    let files = [
        "tests/_/.gh/.oiu",
        "tests/_/.gh/aoe",
        "tests/_/.gh/lib/dw/dwew/src/erw.wq",
        "tests/_/.gh/lib/dw/wewe.rs",
        "tests/_/.gh/lib/dw/wxw",
        "tests/_/.gh/lib/jewe.rs",
        "tests/_/.gh/wrt.rs",
        "tests/_/def/io@.rt",
        "tests/_/def/src/io$.rt",
        "tests/_/mn@copy/wrt.rs",
        "tests/_/mn@copy/lib/jewe.rs",
        "tests/_/mn@copy/lib/d$w/wewe.rs",
        "tests/_/mn@copy/lib/d$w/dwew/src/erw.wq",
    ];
    let mut out = vec![WalkRecord {
        depth: 0,
        is_symlink: false,
        is_dir: true,
        is_empty: false,
        inside: Some("tests/_".to_string()),
    }];
    for d in dirs {
        out.push(rec(d, true, false));
    }
    for f in files {
        out.push(rec(f, false, false));
    }
    out
}

/// The records of the tree `tests/_/.gh/` only.
fn gh_tree() -> Vec<WalkRecord> {
    full_tree()
        .into_iter()
        .filter(|r| {
            let p = r.inside.clone().unwrap();
            p.starts_with("tests/_/.gh/")
        })
        .collect()
}

/// The texts of the walk's files that `patterns` accept.
fn matched_files(walk: &FsWalk, env: &WalkEnvIndex, patterns: &PathsPatterns) -> Vec<String> {
    walk.files
        .iter()
        .map(|f| f.str.clone())
        .filter(|f| patterns.is_match(f, env))
        .collect()
}

/// The texts of the walk's directories that `patterns` accept.
fn matched_dirs(walk: &FsWalk, env: &WalkEnvIndex, patterns: &PathsPatterns) -> Vec<String> {
    walk.dirs
        .iter()
        .map(|d| d.str.clone())
        .filter(|d| patterns.is_match(d, env))
        .collect()
}

#[test]
fn scenariusz_1_dopasowanie_globo_klamrowe() {
    let walk = FsWalk::scan(gh_tree());
    let env = WalkEnvIndex::from_walk(&walk);
    let patterns = PathsPatterns::build(&["*.{rs|wq}"], false).unwrap();
    let m = matched_files(&walk, &env, &patterns);
    assert_eq!(m.len(), 4);
    assert!(m.contains(&"./tests/_/.gh/wrt.rs".to_string()));
    assert!(m.contains(&"./tests/_/.gh/lib/jewe.rs".to_string()));
    assert!(m.contains(&"./tests/_/.gh/lib/dw/wewe.rs".to_string()));
    assert!(m.contains(&"./tests/_/.gh/lib/dw/dwew/src/erw.wq".to_string()));
}

#[test]
fn scenariusz_2_negacja_wykluczenia() {
    let walk = FsWalk::scan(gh_tree());
    let env = WalkEnvIndex::from_walk(&walk);
    let patterns = PathsPatterns::build(&["*.rs", "!**/dw/*"], false).unwrap();
    let m = matched_files(&walk, &env, &patterns);
    assert_eq!(m.len(), 2);
    assert!(m.contains(&"./tests/_/.gh/wrt.rs".to_string()));
    assert!(m.contains(&"./tests/_/.gh/lib/jewe.rs".to_string()));
    assert!(!m.contains(&"./tests/_/.gh/lib/dw/wewe.rs".to_string()));
}

#[test]
fn scenariusz_3_bezposredni_regex() {
    let walk = FsWalk::scan(gh_tree());
    let env = WalkEnvIndex::from_walk(&walk);
    let patterns = PathsPatterns::build(&["re:.*erw\\.wq$"], false).unwrap();
    let m = matched_files(&walk, &env, &patterns);
    assert_eq!(m, vec!["./tests/_/.gh/lib/dw/dwew/src/erw.wq".to_string()]);
}

#[test]
fn scenariusz_4_tylko_katalogi() {
    let walk = FsWalk::scan(full_tree());
    let env = WalkEnvIndex::from_walk(&walk);
    let patterns = PathsPatterns::build(&["**/src/"], false).unwrap();
    let d = matched_dirs(&walk, &env, &patterns);
    assert_eq!(d.len(), 7);
    for expected in [
        "./tests/_/.gh/src/",
        "./tests/_/.gh/lib/dw/dwew/src/",
        "./tests/_/.ijk/src/",
        "./tests/_/abc/src/",
        "./tests/_/def/src/",
        "./tests/_/mn@copy/src/",
        "./tests/_/mn@copy/lib/d$w/dwew/src/",
    ] {
        assert!(d.contains(&expected.to_string()));
    }
    assert_eq!(matched_files(&walk, &env, &patterns).len(), 0);
}

#[test]
fn scenariusz_5_ochrona_znaki_specialne_w_fizycznych_sciezkach() {
    let walk = FsWalk::scan(full_tree());
    let env = WalkEnvIndex::from_walk(&walk);
    let rt = PathsPatterns::build(&["*.rt"], false).unwrap();
    let m = matched_files(&walk, &env, &rt);
    assert_eq!(m.len(), 2);
    assert!(m.contains(&"./tests/_/def/io@.rt".to_string()));
    assert!(m.contains(&"./tests/_/def/src/io$.rt".to_string()));

    let copy = PathsPatterns::build(&["**/mn@copy/{*.rs|**/*.rs}"], false).unwrap();
    let m = matched_files(&walk, &env, &copy);
    assert_eq!(m.len(), 3);
    assert!(m.contains(&"./tests/_/mn@copy/wrt.rs".to_string()));
    assert!(m.contains(&"./tests/_/mn@copy/lib/jewe.rs".to_string()));
    assert!(m.contains(&"./tests/_/mn@copy/lib/d$w/wewe.rs".to_string()));
}

#[test]
fn scenariusz_2_ignore_case_dopasowanie() {
    let walk = FsWalk::scan(gh_tree());
    let env = WalkEnvIndex::from_walk(&walk);
    let strict = PathsPatterns::build(&["*.RS"], false).unwrap();
    assert_eq!(matched_files(&walk, &env, &strict).len(), 0);
    let loose = PathsPatterns::build(&["*.RS"], true).unwrap();
    let m = matched_files(&walk, &env, &loose);
    assert_eq!(m.len(), 3);
    assert!(m.contains(&"./tests/_/.gh/wrt.rs".to_string()));
    assert!(m.contains(&"./tests/_/.gh/lib/jewe.rs".to_string()));
    assert!(m.contains(&"./tests/_/.gh/lib/dw/wewe.rs".to_string()));
}

#[test]
fn index_answers_agree_with_asking_it() {
    let walk = FsWalk::scan(full_tree());
    let env = WalkEnvIndex::from_walk(&walk);
    let patterns = PathsPatterns::build(&["*.rs", "!**/dw/*", "@*/", "$*.wq"], false).unwrap();
    for f in walk.files.iter().chain(walk.dirs.iter()) {
        assert_eq!(env.accepts(&patterns, &f.str), patterns.is_match(&f.str, &env));
    }
}

#[test]
fn index_lookups() {
    let walk = FsWalk::scan(gh_tree());
    let env = WalkEnvIndex::from_walk(&walk);
    assert!(env.has_dir("./tests/_/.gh/lib/dw/"));
    assert!(!env.has_dir("./tests/_/.gh/lib/dw"));
    assert!(!env.has_dir("./tests/_/.gh/"));
    assert!(env.has_file_with_prefix("./tests/_/.gh/lib/dw/w"));
    assert!(env.has_file_with_prefix("./tests/_/.gh/wrt."));
    assert!(!env.has_file_with_prefix("./tests/_/.gh/lib/dw/x"));
    let rs = |f: &str| f.ends_with(".rs");
    assert!(env.any_file_in_dir("./tests/_/.gh/lib/", &rs));
    let wq = |f: &str| f.ends_with(".wq") && f.contains("/dwew/");
    assert!(env.any_file_in_dir("./tests/_/.gh/lib/dw/", &wq));
    let none = |f: &str| f.ends_with(".md");
    assert!(!env.any_file_in_dir("./tests/_/.gh/", &none));
    assert!(!env.any_file_in_dir("./tests/_/.ghost/", &rs));
}

#[test]
fn sibling_rules_pair_files_with_directories() {
    let records = vec![
        rec("src", true, false),
        rec("src/core", true, false),
        rec("src/util2", true, true),
        rec("src/core.rs", false, false),
        rec("src/util.rs", false, false),
    ];
    let walk = FsWalk::scan(records);
    let env = WalkEnvIndex::from_walk(&walk);
    let with = PathsPatterns::build(&["@*/"], false).unwrap();
    assert_eq!(matched_dirs(&walk, &env, &with), vec!["./src/core/".to_string()]);
    let without = PathsPatterns::build(&["$*/"], false).unwrap();
    assert_eq!(
        matched_dirs(&walk, &env, &without),
        vec!["./src/".to_string(), "./src/util2/".to_string()]
    );
    // A file rule asks for the directory of the same name beside it.
    let file_with = PathsPatterns::build(&["@core.rs"], false).unwrap();
    assert_eq!(matched_files(&walk, &env, &file_with), vec!["./src/core.rs".to_string()]);
    let file_without = PathsPatterns::build(&["$core.rs"], false).unwrap();
    assert_eq!(matched_files(&walk, &env, &file_without).len(), 0);
    let lonely = PathsPatterns::build(&["$util.rs"], false).unwrap();
    assert_eq!(matched_files(&walk, &env, &lonely), vec!["./src/util.rs".to_string()]);
}
