use querypath::paths_options::PathsOptions;
use querypath::paths_patterns::PathsPatterns;
use querypath::{FsWalk, WalkEnvIndex};

#[test]
fn scenariusz_1_domyslne_wartosci_opcji() {
    let opts = PathsOptions::new();
    assert!(!opts.keep_parent);
    assert!(!opts.ignore_case);
}

#[test]
fn ignore_case_matches_upper_extension() {
    let env = WalkEnvIndex::from_walk(&FsWalk::scan(vec![]));
    let strict = PathsPatterns::build(&["*.RS"], false).unwrap();
    assert!(!strict.is_match("./tests/_/.gh/wrt.rs", &env));
    let loose = PathsPatterns::build(&["*.RS"], true).unwrap();
    assert!(loose.is_match("./tests/_/.gh/wrt.rs", &env));
}
