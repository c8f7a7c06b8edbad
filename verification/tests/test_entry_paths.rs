use querypath::paths_entry::{inside_of, EntryError};
use querypath::{normalize_path, AnchoredPath, PathContext, PathNode, PathsEntry};

#[test]
fn normalisation_examples() {
    assert_eq!(normalize_path("\\\\?\\C:\\work\\.\\src"), "C:/work/src");
    assert_eq!(normalize_path("./a\\b/./c"), "./a/b/c");
    assert_eq!(normalize_path("\\\\?\\\\\\?\\x"), "x");
    assert_eq!(normalize_path("a/b"), "a/b");
    assert_eq!(normalize_path(""), "");
    assert_eq!(normalize_path("/././"), "/");
    assert_eq!(normalize_path("a/././b"), "a/b");
    assert_eq!(normalize_path("a\\.\\.\\b/./"), "a/b/");
    assert_eq!(normalize_path("./a/../b/.c/."), "./a/../b/.c/.");
    for p in ["\\\\?\\C:\\a\\b", "x\\\\y", "\\", "/./././x/./", "a/.\\./."] {
        let n = normalize_path(p);
        assert!(!n.contains('\\'));
        assert!(!n.contains("/./"));
    }
}

#[test]
fn path_node_keeps_both_texts() {
    let n = PathNode::new("C:\\work\\a".to_string());
    assert_eq!(n.buf, "C:\\work\\a");
    assert_eq!(n.str, "C:/work/a");
    let c = n.clone();
    assert_eq!(c, n);
}

#[test]
fn context_splits_parent_and_name() {
    let c = PathContext::from_path("./src/lib/mod.rs");
    assert_eq!(c.parent(), "src/lib");
    assert_eq!(c.name(), "mod.rs");
    assert!(!c.is_root_level());
    assert_eq!(format!("{}/{}", c.parent(), c.name()), "src/lib/mod.rs");

    let top = PathContext::from_path("./main.rs");
    assert_eq!(top.parent(), "");
    assert_eq!(top.name(), "main.rs");
    assert!(top.is_root_level());

    let repeated = PathContext::from_path("././a/b");
    assert_eq!(repeated.parent(), "a");
    assert_eq!(repeated.name(), "b");

    let dir = PathContext::from_path("./src/");
    assert_eq!(dir.parent(), "");
    assert_eq!(dir.name(), "src");
    assert!(dir.is_root_level());

    let nested = PathContext::from_path("./a/b/");
    assert_eq!(nested.parent(), "a");
    assert_eq!(nested.name(), "b");

    let root = PathContext::from_path("./");
    assert_eq!(root.parent(), "");
    assert_eq!(root.name(), "");
}

#[test]
fn anchoring_inside_and_outside_the_working_directory() {
    let cwd = PathNode::new("/work".to_string());
    let d = AnchoredPath::anchor(&cwd, PathNode::new("/work/tests/_/abc".to_string()), Some("tests/_/abc"), true);
    assert_eq!(d.relative_path, "./tests/_/abc/");
    assert_eq!(d.execution_dir, cwd);
    assert_eq!(d.target_dir.str, "/work/tests/_/abc");

    let f = AnchoredPath::anchor(&cwd, PathNode::new("/work/a/b.rs".to_string()), Some("a/b.rs"), false);
    assert_eq!(f.relative_path, "./a/b.rs");

    let own = AnchoredPath::anchor(&cwd, PathNode::new("/work".to_string()), Some(""), true);
    assert_eq!(own.relative_path, "./");

    let back = AnchoredPath::anchor(&cwd, PathNode::new("/work/x".to_string()), Some("\\x\\y\\"), true);
    assert_eq!(back.relative_path, "./x/y/");

    let out = AnchoredPath::anchor(&cwd, PathNode::new("/other/place".to_string()), None, true);
    assert_eq!(out.relative_path, "/other/place/");

    let out_file = AnchoredPath::anchor(&cwd, PathNode::new("/other/f.txt".to_string()), None, false);
    assert_eq!(out_file.relative_path, "/other/f.txt");

    let win = AnchoredPath::anchor(&cwd, PathNode::new("\\\\?\\D:\\data\\".to_string()), None, true);
    assert_eq!(win.relative_path, "D:/data/");
}

#[test]
fn requested_paths_default_to_the_working_directory() {
    assert_eq!(PathsEntry::requested_paths(&[]), vec!["./"]);
    assert_eq!(PathsEntry::requested_paths(&["", "  "]), vec!["./", "./"]);
    assert_eq!(PathsEntry::requested_paths(&["  ./src/ "]), vec!["./src/"]);
}

#[test]
fn requested_paths_expand_alternatives() {
    assert_eq!(
        PathsEntry::requested_paths(&["./tests/_/{.gh|abc}/"]),
        vec!["./tests/_/.gh/", "./tests/_/abc/"]
    );
    assert_eq!(
        PathsEntry::requested_paths(&["./tests/_/{.gh/lib/dw|abc}/"]),
        vec!["./tests/_/.gh/lib/dw/", "./tests/_/abc/"]
    );
    assert_eq!(
        PathsEntry::requested_paths(&["{./tests/_/.gh/lib/dw/|./tests/_/.gh/lib/dw/abc/}", "./x"]),
        vec!["./tests/_/.gh/lib/dw/", "./tests/_/.gh/lib/dw/abc/", "./x"]
    );
    assert_eq!(
        PathsEntry::expand_alternatives("./{abc/ao/|def/}"),
        vec!["./abc/ao/", "./def/"]
    );
}

#[test]
fn entry_needs_a_found_target() {
    let cwd = PathNode::new("/work".to_string());
    match PathsEntry::from_targets(cwd, vec![]) {
        Err(e) => assert_eq!(e, EntryError::NoExistingTarget),
        Ok(_) => panic!("no candidate must give an error"),
    }
}

#[test]
fn entry_keeps_one_anchor_per_target() {
    let cwd = PathNode::new("/work".to_string());
    let a = AnchoredPath::anchor(&cwd, PathNode::new("/work/abc".to_string()), Some("abc"), true);
    let b = AnchoredPath::anchor(&cwd, PathNode::new("/work/def".to_string()), Some("def"), true);
    let a_again = AnchoredPath::anchor(&cwd, PathNode::new("/work/abc".to_string()), Some("./abc/"), true);
    let e = PathsEntry::from_targets(cwd.clone(), vec![a, b, a_again]).unwrap();
    assert_eq!(e.execution_dir, cwd);
    let rel: Vec<&str> = e.targets.iter().map(|t| t.relative_path.as_str()).collect();
    assert_eq!(rel, vec!["./abc/", "./def/"]);
}

#[test]
fn text_inside_a_directory() {
    assert_eq!(inside_of("/work", "/work/a/b.rs", false), Some("a/b.rs".to_string()));
    assert_eq!(inside_of("/work/", "/work/a", false), Some("a".to_string()));
    assert_eq!(inside_of("/work", "/work", false), Some(String::new()));
    assert_eq!(inside_of("/work", "/workshop/a", false), None);
    assert_eq!(inside_of("/work", "/other", false), None);
    assert_eq!(inside_of("/", "/etc/hosts", false), Some("etc/hosts".to_string()));
    assert_eq!(inside_of("/work/a", "/work", false), None);
    assert_eq!(inside_of("/work", "/work\\a", false), None);
}

#[test]
fn text_inside_a_directory_with_backslashes() {
    assert_eq!(inside_of("\\\\?\\C:\\x", "\\\\?\\C:\\x\\a", true), Some("a".to_string()));
    assert_eq!(inside_of("\\\\?\\C:\\x", "\\\\?\\C:\\x", true), Some(String::new()));
    assert_eq!(inside_of("C:\\", "C:\\x\\y", true), Some("x\\y".to_string()));
    assert_eq!(inside_of("C:\\x", "C:\\xy", true), None);
    assert_eq!(inside_of("C:/x", "C:/x/a", true), Some("a".to_string()));
    let cwd = PathNode::new("\\\\?\\C:\\x".to_string());
    let target = "\\\\?\\C:\\x\\a".to_string();
    let inside = inside_of(&cwd.buf, &target, true);
    let a = AnchoredPath::anchor(&cwd, PathNode::new(target), inside.as_deref(), true);
    assert_eq!(a.relative_path, "./a/");
}

#[test]
fn blank_inputs_trim_unicode_white_space() {
    assert_eq!(PathsEntry::requested_paths(&["\u{3000}./x\u{85}"]), vec!["./x"]);
    assert_eq!(PathsEntry::requested_paths(&["\u{2003}\t"]), vec!["./"]);
}

/// The entry that the working directory `/work` holding the directories
/// `existing` (relative, without slashes at either end) gives for `inputs`,
/// resolved as the disk side does.
fn entry_in(existing: &[&str], inputs: &[&str]) -> Result<PathsEntry, EntryError> {
    let cwd = PathNode::new("/work".to_string());
    let mut candidates = Vec::new();
    for r in PathsEntry::requested_paths(inputs) {
        let rel = r.trim_start_matches("./").trim_end_matches('/').to_string();
        let found = rel.is_empty() || existing.contains(&rel.as_str());
        if found {
            let target = if rel.is_empty() { "/work".to_string() } else { format!("/work/{rel}") };
            let inside = inside_of(&cwd.buf, &target, false);
            candidates.push(AnchoredPath::anchor(&cwd, PathNode::new(target), inside.as_deref(), true));
        }
    }
    PathsEntry::from_targets(cwd, candidates)
}

const TREE: [&str; 5] = ["tests/_/abc", "tests/_/.gh", "tests/_/.gh/lib", "tests/_/.gh/lib/dw", "tests/_/def"];

#[test]
fn scenariusz_1_pojedyncza_lokalizacja() {
    let entry = entry_in(&TREE, &["./tests/_/abc/"]).unwrap();
    assert_eq!(entry.targets.len(), 1);
    assert!(entry.targets[0].relative_path.ends_with("tests/_/abc/"));
    assert!(entry.targets[0].target_dir.str.ends_with("tests/_/abc"));
}

#[test]
fn scenariusz_2_wariant_ukryty() {
    let entry = entry_in(&TREE, &["./tests/_/.gh/"]).unwrap();
    assert_eq!(entry.targets.len(), 1);
    assert!(entry.targets[0].relative_path.ends_with("tests/_/.gh/"));
    assert!(entry.targets[0].target_dir.str.ends_with("tests/_/.gh"));
}

#[test]
fn scenariusz_3_alternatywa_zwykly_i_ukryty() {
    let entry = entry_in(&TREE, &["./tests/_/{.gh|abc}/"]).unwrap();
    assert_eq!(entry.targets.len(), 2);
    let paths: Vec<&str> = entry.targets.iter().map(|t| t.relative_path.as_str()).collect();
    assert!(paths.iter().any(|p| p.ends_with("tests/_/.gh/")));
    assert!(paths.iter().any(|p| p.ends_with("tests/_/abc/")));
}

#[test]
fn scenariusz_4_alternatywa_rozne_glebokosci() {
    let entry = entry_in(&TREE, &["./tests/_/{.gh/lib/dw|abc}/"]).unwrap();
    assert_eq!(entry.targets.len(), 2);
    let paths: Vec<&str> = entry.targets.iter().map(|t| t.relative_path.as_str()).collect();
    assert!(paths.iter().any(|p| p.ends_with("tests/_/.gh/lib/dw/")));
    assert!(paths.iter().any(|p| p.ends_with("tests/_/abc/")));
}

#[test]
fn scenariusz_5_alternatywa_z_niewlasciwa_sciezka() {
    let entry =
        entry_in(&TREE, &["{./tests/_/.gh/lib/dw/|./tests/_/.gh/lib/dw/abc/}"]).unwrap();
    assert_eq!(entry.targets.len(), 1);
    assert!(entry.targets[0].relative_path.ends_with("tests/_/.gh/lib/dw/"));
}

#[test]
fn working_directory_is_the_default_target() {
    let entry = entry_in(&TREE, &[]).unwrap();
    assert_eq!(entry.targets.len(), 1);
    assert_eq!(entry.targets[0].relative_path, "./");
    assert_eq!(entry.targets[0].target_dir, entry.execution_dir);
    let blanks = entry_in(&TREE, &["", "  "]).unwrap();
    assert_eq!(blanks.targets.len(), 1);
    assert!(entry_in(&TREE, &["./nowhere/"]).is_err());
}
