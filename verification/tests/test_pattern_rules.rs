use querypath::paths_patterns::{EnvQuery, PatternCompiled};
use querypath::{FsWalk, WalkEnvIndex, WalkRecord};
use querypath::{PathsPatterns, PatternError};

/// The index of a walk that met the directories `dirs` and the files
/// `files` (texts as the walk writes them: `./a/b/` and `./a/b.rs`).
fn env_of(dirs: &[&str], files: &[&str]) -> WalkEnvIndex {
    let mut records = Vec::new();
    for d in dirs {
        let inside = d.trim_start_matches("./").trim_end_matches('/').to_string();
        records.push(WalkRecord { depth: 1, is_symlink: false, is_dir: true, is_empty: false, inside: Some(inside) });
    }
    for f in files {
        let inside = f.trim_start_matches("./").to_string();
        records.push(WalkRecord { depth: 1, is_symlink: false, is_dir: false, is_empty: false, inside: Some(inside) });
    }
    WalkEnvIndex::from_walk(&FsWalk::scan(records))
}

fn empty_env() -> WalkEnvIndex {
    env_of(&[], &[])
}

#[test]
fn build_skips_blank_patterns_and_expands_braces() {
    let ps = PathsPatterns::build(&["", "  ", "*.rs", "{a|b}"], false).unwrap();
    assert_eq!(ps.raw.0, vec!["*.rs".to_string(), "{a|b}".to_string()]);
    assert_eq!(ps.expanded.0, vec!["*.rs".to_string(), "a".to_string(), "b".to_string()]);
    assert_eq!(ps.rules_count(), 3);
}

#[test]
fn build_names_the_first_refused_expansion() {
    match PathsPatterns::build(&["*.rs", "re:(", "[abc"], false) {
        Err(PatternError::InvalidPattern { pattern, .. }) => assert_eq!(pattern, "re:("),
        Ok(_) => panic!("an unbalanced group must be refused"),
    }
    match PathsPatterns::build(&["{x|[abc}"], false) {
        Err(PatternError::InvalidPattern { pattern, .. }) => assert_eq!(pattern, "[abc"),
        Ok(_) => panic!("an unclosed class must be refused"),
    }
}

#[test]
fn empty_pattern_set_accepts_every_path() {
    let ps = PathsPatterns::build(&[], false).unwrap();
    assert_eq!(ps.rules_count(), 0);
    let env = empty_env();
    assert!(ps.is_match("./anything/at/all.bin", &env));
    assert!(ps.is_match("./dir/", &env));
    let blank = PathsPatterns::build(&["   "], true).unwrap();
    assert_eq!(blank.rules_count(), 0);
    assert!(blank.is_match("./x", &env));
}

#[test]
fn only_negated_rules_accept_what_they_do_not_veto() {
    let ps = PathsPatterns::build(&["!*.rs"], false).unwrap();
    let env = empty_env();
    assert!(ps.is_match("./a.md", &env));
    assert!(!ps.is_match("./a.rs", &env));
}

#[test]
fn some_positive_rule_must_accept() {
    let ps = PathsPatterns::build(&["*.rs", "!x"], false).unwrap();
    let env = empty_env();
    assert!(!ps.is_match("./a.md", &env));
    assert!(ps.is_match("./a.rs", &env));
    assert!(!ps.is_match("./x", &env));
}

#[test]
fn regex_metacharacters_in_globs_are_literal() {
    let ps = PathsPatterns::build(&["a+b.rs"], false).unwrap();
    let env = empty_env();
    assert!(ps.is_match("./a+b.rs", &env));
    assert!(!ps.is_match("./aab.rs", &env));
    assert!(!ps.is_match("./a+bxrs", &env));
    let q = PathsPatterns::build(&["(x)?.md"], false).unwrap();
    assert!(q.is_match("./(x)1.md", &env));
    assert!(!q.is_match("./x1.md", &env));
}

#[test]
fn glob_wildcards_and_anchors() {
    let env = empty_env();
    let one = PathsPatterns::build(&["src/*.rs"], false).unwrap();
    assert!(one.is_match("./src/lib.rs", &env));
    assert!(one.is_match("./crate/src/lib.rs", &env));
    assert!(!one.is_match("./src/deep/lib.rs", &env));
    let root = PathsPatterns::build(&["./src/*.rs"], false).unwrap();
    assert!(root.is_match("./src/lib.rs", &env));
    assert!(!root.is_match("./crate/src/lib.rs", &env));
    let deep = PathsPatterns::build(&["src/**.rs"], false).unwrap();
    assert!(deep.is_match("./src/deep/lib.rs", &env));
    let single = PathsPatterns::build(&["a?c"], false).unwrap();
    assert!(single.is_match("./abc", &env));
    assert!(!single.is_match("./a/c", &env));
    let class = PathsPatterns::build(&["[!a-c]x"], false).unwrap();
    assert!(class.is_match("./dx", &env));
    assert!(!class.is_match("./bx", &env));
    let escaped = PathsPatterns::build(&["\\*.md"], false).unwrap();
    assert!(escaped.is_match("./*.md", &env));
    assert!(!escaped.is_match("./a.md", &env));
}

#[test]
fn sibling_file_rules_look_for_a_directory() {
    let env = env_of(&["./src/core/"], &[]);
    let with = PathsPatterns::build(&["@core.rs"], false).unwrap();
    let without = PathsPatterns::build(&["$core.rs"], false).unwrap();
    assert!(with.is_match("./src/core.rs", &env));
    assert!(!without.is_match("./src/core.rs", &env));
    assert!(!with.is_match("./lib/core.rs", &env));
    assert!(without.is_match("./lib/core.rs", &env));
    assert!(!with.is_match("./src/other.rs", &env));
    assert!(!without.is_match("./src/other.rs", &env));
    let root_env = env_of(&["./core/"], &[]);
    assert!(with.is_match("./core.rs", &root_env));
    assert!(!without.is_match("./core.rs", &root_env));
}

#[test]
fn one_rule_question_and_decision() {
    let rule = PatternCompiled::compile("!@core.rs", false).unwrap();
    assert!(rule.is_negated);
    assert_eq!(rule.query("./src/core.rs"), Some(EnvQuery::Dir("./src/core/".to_string())));
    assert_eq!(rule.query("./src/other.rs"), None);
    assert!(rule.decide("./src/core.rs", true));
    assert!(!rule.decide("./src/core.rs", false));
    let dir_rule = PatternCompiled::compile("$core/", false).unwrap();
    assert_eq!(dir_rule.query("./src/core/"), Some(EnvQuery::FilePrefix("./src/core.".to_string())));
    assert_eq!(dir_rule.query("./src/core.rs"), None);
    assert!(dir_rule.decide("./src/core/", false));
    assert!(!dir_rule.decide("./src/core/", true));
    let env = env_of(&[], &["./src/core.rs"]);
    assert!(!dir_rule.is_match("./src/core/", &env));
    assert!(PatternCompiled::compile("re:(", false).is_err());
}

#[test]
fn set_questions_and_decision() {
    let ps = PathsPatterns::build(&["@core.rs", "*.md"], false).unwrap();
    let q = ps.queries("./src/core.rs");
    assert_eq!(q, vec![Some(EnvQuery::Dir("./src/core/".to_string())), None]);
    assert!(ps.decide("./src/core.rs", &[true, false]));
    assert!(!ps.decide("./src/core.rs", &[false, false]));
    assert!(ps.decide("./README.md", &[false, false]));
}

#[test]
fn brace_expansion_examples() {
    assert_eq!(PathsPatterns::expand_braces("a{b|c}d"), vec!["abd", "acd"]);
    assert_eq!(PathsPatterns::expand_braces("x{a|{b|c}}"), vec!["xa", "xb", "xa", "xc"]);
    assert_eq!(PathsPatterns::expand_braces("plain"), vec!["plain"]);
    assert_eq!(PathsPatterns::expand_braces("{a|b"), vec!["{a|b"]);
    assert_eq!(PathsPatterns::expand_braces("}{a|b}"), vec!["}{a|b}"]);
    assert_eq!(PathsPatterns::expand_braces("{}"), vec![""]);
    assert_eq!(
        PathsPatterns::expand_braces("{a|b}{1|2}"),
        vec!["a1", "a2", "b1", "b2"]
    );
    assert_eq!(PathsPatterns::expand_braces(""), vec![""]);
}

#[test]
fn every_expansion_is_final() {
    for input in ["x{a|{b|c}}", "{a|b}{1|2}", "./{abc/ao/|def/}", "}{a|b}", "{{|}}"] {
        let out = PathsPatterns::expand_braces(input);
        assert!(!out.is_empty());
        for e in &out {
            assert_eq!(PathsPatterns::expand_braces(e), vec![e.clone()]);
        }
    }
}

#[test]
fn sibling_and_orphan_rules_on_a_walk_index() {
    let env = env_of(&["./src/", "./src/core/"], &["./src/core.rs"]);
    let a = PatternCompiled::compile("@core.rs", false).unwrap();
    let o = PatternCompiled::compile("$core.rs", false).unwrap();
    assert!(a.is_match("./src/core.rs", &env));
    assert!(!o.is_match("./src/core.rs", &env));
    let ad = PatternCompiled::compile("@core/", false).unwrap();
    let od = PatternCompiled::compile("$core/", false).unwrap();
    assert!(ad.is_match("./src/core/", &env));
    assert!(!od.is_match("./src/core/", &env));
    assert!(!ad.is_match("./src/", &env));
}

#[test]
fn rule_order_does_not_change_the_verdict() {
    let env = env_of(&["./src/", "./src/core/"], &["./src/core.rs", "./src/util.rs"]);
    let a = PathsPatterns::build(&["*.rs", "!$*.rs", "@core/"], false).unwrap();
    let b = PathsPatterns::build(&["@core/", "!$*.rs", "*.rs"], false).unwrap();
    for p in ["./src/core.rs", "./src/util.rs", "./src/core/", "./src/", "./x.md"] {
        assert_eq!(a.is_match(p, &env), b.is_match(p, &env));
    }
}

#[test]
fn one_group_gives_one_text_per_option() {
    assert_eq!(PathsPatterns::expand_braces("src/{a|b|}.rs"), vec!["src/a.rs", "src/b.rs", "src/.rs"]);
    assert_eq!(PathsPatterns::expand_braces("x{only}y{"), vec!["xonlyy{"]);
}
