//! Pattern language: globs (`*`, `**`, `?`, `[..]`, `\`), negation (`!`),
//! sibling (`@`) and orphan (`$`) relations, raw regexes (`re:`), root
//! anchors (`./`), directory-only patterns (trailing `/`) and brace
//! alternatives (`{a|b}`).
//!
//! A glob is turned here, character by character, into the source text
//! of a regular expression; compiling and running that expression is the
//! work of the `regex` crate.
use vstd::prelude::*;
use crate::braces::{expand_braces, expand_text};
use crate::text::{
    char_vec_views, chars_of, copy_chars, ends_with_char, has_char, has_prefix, has_suffix, last_index_of,
    first_index_of, find_char, push_all, rfind_char, slice_chars, starts_with, string_of,
    string_views, strip_trailing_char, strip_trailing_char_chars, trim_chars, trim_ws,
    lemma_first_index_of, lemma_last_index_of,
};

verus! {

// ---------------------------------------------------------------------------
// The `regex` crate
// ---------------------------------------------------------------------------

/// `regex::Regex`, opaque here.
#[verifier::external_type_specification]
#[verifier::external_body]
pub struct ExRegex(regex::Regex);

/// `regex::Error`, opaque here.
#[verifier::external_type_specification]
#[verifier::external_body]
pub struct ExRegexError(regex::Error);

/// Whether `regex::Regex::new` accepts `pattern` (its syntax and size
/// limits decide).
pub uninterp spec fn regex_compiles(pattern: Seq<char>) -> bool;

/// Whether the expression compiled from `pattern` matches somewhere in
/// `haystack` (`regex::Regex::is_match`).
pub uninterp spec fn regex_accepts(pattern: Seq<char>, haystack: Seq<char>) -> bool;

/// The characters that `regex::escape` prefixes with a backslash.
pub open spec fn is_meta_character(c: char) -> bool {
    c == '\\' || c == '.' || c == '+' || c == '*' || c == '?' || c == '(' || c == ')' || c == '|'
        || c == '[' || c == ']' || c == '{' || c == '}' || c == '^' || c == '$' || c == '#' || c
        == '&' || c == '-' || c == '~'
}

/// `regex::escape` of `text`.
pub open spec fn escape_text(text: Seq<char>) -> Seq<char>
    decreases text.len(),
{
    if text.len() == 0 {
        seq![]
    } else {
        (if is_meta_character(text[0]) {
            seq!['\\', text[0]]
        } else {
            seq![text[0]]
        }) + escape_text(text.skip(1))
    }
}

/// `regex::escape`: every meta character of `text` gets a backslash in front
/// of it, every other character is kept, in order.
#[verifier::external_body]
fn regex_escape(text: &str) -> (r: String)
    ensures
        r@ == escape_text(text@),
{
    regex::escape(text)
}

/// A compiled regular expression together with the source it was compiled
/// from. The only way to make one is `Matcher::compile`, so the expression
/// is always the compilation of `source`.
#[derive(Debug)]
pub struct Matcher {
    re: regex::Regex,
    source: String,
}

impl Matcher {
    /// A matcher exists only for a source that the regex crate accepts.
    #[verifier::type_invariant]
    spec fn compiled(self) -> bool {
        regex_compiles(self.source@)
    }

    /// The regular-expression source this matcher was compiled from.
    pub closed spec fn source(&self) -> Seq<char> {
        self.source@
    }

    /// `regex::Regex::new`: succeeds exactly when the crate accepts
    /// `source` (named `regex_compiles`); the matcher keeps `source`.
    #[verifier::external_body]
    pub(crate) fn compile(source: &str) -> (r: Result<Matcher, regex::Error>)
        ensures
            r is Ok <==> regex_compiles(source@),
            r matches Ok(m) ==> m.source() == source@,
    {
        match regex::Regex::new(source) {
            Ok(re) => Ok(Matcher { re, source: source.to_string() }),
            Err(e) => Err(e),
        }
    }

    /// `regex::Regex::is_match`: whether the expression matches somewhere in
    /// `haystack`, a function of the source and the haystack (named
    /// `regex_accepts`).
    #[verifier::external_body]
    pub(crate) fn is_match(&self, haystack: &str) -> (b: bool)
        ensures
            b == regex_accepts(self.source(), haystack@),
    {
        self.re.is_match(haystack)
    }
}

impl Clone for Matcher {
    /// Compiles the same source again.
    fn clone(&self) -> (r: Self)
        ensures
            r.source() == self.source(),
    {
        proof {
            use_type_invariant(self);
        }
        let r = Matcher::compile(self.source.as_str());
        r.unwrap()
    }
}

// ---------------------------------------------------------------------------
// The environment that answers relation queries
// ---------------------------------------------------------------------------

/// An in-memory index of the scanned tree, asked by `@` and `$` rules
/// whether a directory or a file with a given prefix exists, so that no
/// disk access is needed while matching. Implementations are supplied by
/// the caller. Each names what it holds by two spec functions, and its two
/// lookups answer by them: an answer depends on the index and the text
/// asked about, and on nothing else.
pub trait PattEnvIndex {
    /// The index holds the directory `dir` (with its trailing `/`).
    spec fn dir_listed(&self, dir: Seq<char>) -> bool;

    /// The index holds a file beginning with `prefix`.
    spec fn file_prefix_listed(&self, prefix: Seq<char>) -> bool;

    /// The directory `dir` (with its trailing `/`) is in the index.
    fn has_dir(&self, dir: &str) -> (b: bool)
        ensures
            b == self.dir_listed(dir@),
    ;

    /// Some file of the index begins with `prefix`.
    fn has_file_with_prefix(&self, prefix: &str) -> (b: bool)
        ensures
            b == self.file_prefix_listed(prefix@),
    ;

    /// Whether `check` holds of some file inside `dir`.
    fn any_file_in_dir<F: Fn(&str) -> bool>(&self, dir: &str, check: &F) -> bool
        requires
            forall|s: &str| check.requires((s,)),
    ;
}

/// The index's answer to a rule's question (no for no question): a
/// directory question asks `has_dir`, a prefix question
/// `has_file_with_prefix`.
pub open spec fn env_answer<E: PattEnvIndex>(env: &E, q: Option<(bool, Seq<char>)>) -> bool {
    match q {
        Some(x) => if x.0 {
            env.dir_listed(x.1)
        } else {
            env.file_prefix_listed(x.1)
        },
        None => false,
    }
}

/// The index's answers to the questions of `rules` about `path`.
pub open spec fn env_answers<E: PattEnvIndex>(env: &E, rules: Seq<RuleSpec>, path: Seq<char>) -> Seq<
    bool,
> {
    Seq::new(rules.len(), |i: int| env_answer(env, rule_query(rules[i], path)))
}

/// A question that an `@` or `$` rule asks the environment.
#[derive(Debug, Clone, PartialEq, Eq)]
pub enum EnvQuery {
    /// Is this directory (with its trailing `/`) there?
    Dir(String),
    /// Does some file begin with this text?
    FilePrefix(String),
}

impl View for EnvQuery {
    /// `true` for a directory question, and the text asked about.
    type V = (bool, Seq<char>);

    open spec fn view(&self) -> (bool, Seq<char>) {
        match self {
            EnvQuery::Dir(d) => (true, d@),
            EnvQuery::FilePrefix(p) => (false, p@),
        }
    }
}

/// The spec view of an optional query.
pub open spec fn query_view(q: Option<EnvQuery>) -> Option<(bool, Seq<char>)> {
    match q {
        Some(x) => Some(x@),
        None => None,
    }
}

// ---------------------------------------------------------------------------
// Specification of a compiled rule
// ---------------------------------------------------------------------------

/// What a compiled rule is made of.
pub struct RuleSpec {
    pub regex_source: Seq<char>,
    pub targets_dir_only: bool,
    pub requires_sibling: bool,
    pub requires_orphan: bool,
    pub base_name: Seq<char>,
    pub is_negated: bool,
}

/// `(?i)` when case is ignored.
pub open spec fn case_flag(ignore_case: bool) -> Seq<char> {
    if ignore_case {
        seq!['(', '?', 'i', ')']
    } else {
        seq![]
    }
}

/// The pattern after its `!`.
pub open spec fn after_negation(pattern: Seq<char>) -> Seq<char> {
    if has_prefix(pattern, seq!['!']) {
        pattern.skip(1)
    } else {
        pattern
    }
}

/// The pattern after its `!` and its `@` or `$`.
pub open spec fn after_markers(pattern: Seq<char>) -> Seq<char> {
    let p = after_negation(pattern);
    if has_prefix(p, seq!['@']) || has_prefix(p, seq!['$']) {
        p.skip(1)
    } else {
        p
    }
}

/// The name before the first `.` of the last `/`-separated piece, once
/// trailing slashes are gone: `a/core.rs` -> `core`.
pub open spec fn base_name_of(p: Seq<char>) -> Seq<char> {
    let t = strip_trailing_char(p, '/');
    let s = last_index_of(t, '/');
    let last = if s < 0 {
        t
    } else {
        t.skip(s + 1)
    };
    let d = first_index_of(last, '.');
    if d < 0 {
        last
    } else {
        last.take(d)
    }
}

/// The regex text for a glob character other than `\`, `*` and `[`.
pub open spec fn glob_char(c: char) -> Seq<char> {
    if c == '.' {
        seq!['\\', '.']
    } else if c == '/' {
        seq!['/']
    } else if c == '?' {
        seq!['[', '^', '/', ']']
    } else if c == ']' || c == '-' || c == '^' {
        seq![c]
    } else {
        escape_text(seq![c])
    }
}

/// The regex text of a glob: `**` is any text, `*` any text within one
/// level, `?` one character other than `/`, `[!` a negated class, `\x` the
/// character `x` literally; every other character stands for itself.
pub open spec fn glob_body(g: Seq<char>) -> Seq<char>
    decreases g.len(),
{
    if g.len() == 0 {
        seq![]
    } else if g[0] == '\\' {
        if g.len() >= 2 {
            escape_text(seq![g[1]]) + glob_body(g.skip(2))
        } else {
            seq![]
        }
    } else if g[0] == '*' {
        if g.len() >= 2 && g[1] == '*' {
            seq!['.', '*'] + glob_body(g.skip(2))
        } else {
            seq!['[', '^', '/', ']', '*'] + glob_body(g.skip(1))
        }
    } else if g[0] == '[' {
        if g.len() >= 2 && g[1] == '!' {
            seq!['[', '^'] + glob_body(g.skip(2))
        } else {
            seq!['['] + glob_body(g.skip(1))
        }
    } else {
        glob_char(g[0]) + glob_body(g.skip(1))
    }
}

/// The regex source of a glob (markers already removed): anchored at the
/// root for `./`, otherwise at any level boundary; `**/` at the front is
/// dropped; the whole path must be consumed.
pub open spec fn glob_source(p: Seq<char>, ignore_case: bool) -> Seq<char> {
    let dot = seq!['.', '/'];
    let stars = seq!['*', '*', '/'];
    let anchor = if has_prefix(p, dot) {
        seq!['^']
    } else {
        seq!['(', '?', ':', '^', '|', '/', ')']
    };
    let body = if has_prefix(p, dot) {
        p.skip(2)
    } else if has_prefix(p, stars) {
        p.skip(3)
    } else {
        p
    };
    case_flag(ignore_case) + anchor + glob_body(body) + seq!['$']
}

/// `re:` at the front asks for a raw regular expression.
pub open spec fn is_direct_regex(p: Seq<char>) -> bool {
    has_prefix(p, seq!['r', 'e', ':'])
}

/// The rule that `PatternCompiled::compile` makes of `pattern`.
pub open spec fn compile_spec(pattern: Seq<char>, ignore_case: bool) -> RuleSpec {
    let negated = has_prefix(pattern, seq!['!']);
    let p1 = after_negation(pattern);
    let sibling = has_prefix(p1, seq!['@']);
    let orphan = !sibling && has_prefix(p1, seq!['$']);
    let p = after_markers(pattern);
    if is_direct_regex(p) {
        RuleSpec {
            regex_source: case_flag(ignore_case) + p.skip(3),
            targets_dir_only: has_suffix(pattern, seq!['/']),
            requires_sibling: sibling,
            requires_orphan: orphan,
            base_name: seq![],
            is_negated: negated,
        }
    } else {
        RuleSpec {
            regex_source: glob_source(p, ignore_case),
            targets_dir_only: has_suffix(p, seq!['/']),
            requires_sibling: sibling,
            requires_orphan: orphan,
            base_name: base_name_of(p),
            is_negated: negated,
        }
    }
}

/// The path without one leading `./`.
pub open spec fn without_dot_slash(path: Seq<char>) -> Seq<char> {
    if has_prefix(path, seq!['.', '/']) {
        path.skip(2)
    } else {
        path
    }
}

/// The directory that a file needs beside it for `@` (or must lack for
/// `$`): `<parent>/<base_name>/`, the parent written as in the file's path,
/// so that `./src/core.rs` asks for `./src/core/`, the form in which a walk
/// lists directories.
pub open spec fn sibling_dir(path: Seq<char>, base_name: Seq<char>) -> Seq<char> {
    let i = last_index_of(path, '/');
    let parent = if i < 0 {
        seq![]
    } else {
        path.take(i)
    };
    (if parent.len() > 0 {
        parent + seq!['/']
    } else {
        seq![]
    }) + base_name + seq!['/']
}

/// The prefix of the files that a directory needs beside it for `@` (or
/// must lack for `$`): `<dir>.`.
pub open spec fn sibling_file_prefix(path: Seq<char>) -> Seq<char> {
    strip_trailing_char(path, '/') + seq!['.']
}

/// The question a rule asks about `path`, if it gets that far: a file needs
/// `sibling_dir` for `@`/`$`, a directory (ending in `/`) needs a file
/// beginning with `sibling_file_prefix`. A rule that already failed, or has
/// no relation, asks nothing.
pub open spec fn rule_query(r: RuleSpec, path: Seq<char>) -> Option<(bool, Seq<char>)> {
    let is_dir = has_suffix(path, seq!['/']);
    let clean = without_dot_slash(path);
    if (r.targets_dir_only && !is_dir) || !regex_accepts(r.regex_source, clean) || !(
    r.requires_sibling || r.requires_orphan) {
        None
    } else if !is_dir {
        Some((true, sibling_dir(path, r.base_name)))
    } else {
        Some((false, sibling_file_prefix(path)))
    }
}

/// Whether a rule accepts `path` (a path ending in `/` is a directory),
/// `answer` being the answer to its question: a rule for directories
/// refuses files, the expression must match the path without a leading
/// `./`, and an `@` (`$`) rule needs a yes (a no).
pub open spec fn rule_verdict(r: RuleSpec, path: Seq<char>, answer: bool) -> bool {
    let is_dir = has_suffix(path, seq!['/']);
    let clean = without_dot_slash(path);
    if r.targets_dir_only && !is_dir {
        false
    } else if !regex_accepts(r.regex_source, clean) {
        false
    } else if r.requires_sibling || r.requires_orphan {
        !(r.requires_sibling && !answer) && !(r.requires_orphan && answer)
    } else {
        true
    }
}

/// Whether a rule set accepts `path`, `answers[i]` answering rule `i`'s
/// question: no negated rule accepts it, and some positive rule accepts it
/// unless there is none.
pub open spec fn patterns_verdict(rules: Seq<RuleSpec>, path: Seq<char>, answers: Seq<bool>) -> bool {
    &&& forall|i: int|
        0 <= i < rules.len() && rules[i].is_negated ==> !rule_verdict(
            #[trigger] rules[i],
            path,
            answers[i],
        )
    &&& (forall|i: int| 0 <= i < rules.len() ==> (#[trigger] rules[i]).is_negated) || exists|
        i: int,
    |
        0 <= i < rules.len() && !(#[trigger] rules[i]).is_negated && rule_verdict(
            rules[i],
            path,
            answers[i],
        )
}

// ---------------------------------------------------------------------------
// Compiled rule
// ---------------------------------------------------------------------------

/// One compiled pattern.
#[derive(Debug, Clone)]
pub struct PatternCompiled {
    matcher: Matcher,
    targets_dir_only: bool,
    requires_sibling: bool,
    requires_orphan: bool,
    base_name: String,
    pub is_negated: bool,
}

impl View for PatternCompiled {
    type V = RuleSpec;

    closed spec fn view(&self) -> RuleSpec {
        RuleSpec {
            regex_source: self.matcher.source(),
            targets_dir_only: self.targets_dir_only,
            requires_sibling: self.requires_sibling,
            requires_orphan: self.requires_orphan,
            base_name: self.base_name@,
            is_negated: self.is_negated,
        }
    }
}

/// Appends `regex::escape` of the single character `c`.
fn push_escaped(out: &mut Vec<char>, c: char)
    ensures
        final(out)@ == old(out)@ + escape_text(seq![c]),
{
    let mut one: Vec<char> = Vec::new();
    one.push(c);
    let text = string_of(&one);
    let escaped = regex_escape(text.as_str());
    let cs = chars_of(escaped.as_str());
    assert(one@ =~= seq![c]);
    push_all(out, &cs);
}

/// Appends the regex text of the glob `g` to `out`.
fn push_glob_body(out: &mut Vec<char>, g: &[char])
    ensures
        final(out)@ == old(out)@ + glob_body(g@),
{
    let ghost start = out@;
    let mut i: usize = 0;
    assert(g@.skip(0) =~= g@);
    while i < g.len()
        invariant
            i <= g.len(),
            out@ + glob_body(g@.skip(i as int)) == start + glob_body(g@),
        decreases g.len() - i,
    {
        let ghost rest = g@.skip(i as int);
        let ghost before = out@;
        let c = g[i];
        assert(rest[0] == c);
        if c == '\\' {
            if i + 1 < g.len() {
                push_escaped(out, g[i + 1]);
                assert(rest[1] == g@[i + 1]);
                assert(rest.skip(2) =~= g@.skip(i + 2));
                i = i + 2;
            } else {
                assert(rest.len() == 1);
                assert(g@.skip(g.len() as int) =~= Seq::<char>::empty());
                i = g.len();
            }
        } else if c == '*' {
            if i + 1 < g.len() && g[i + 1] == '*' {
                out.push('.');
                out.push('*');
                assert(out@ =~= before + seq!['.', '*']);
                assert(rest.skip(2) =~= g@.skip(i + 2));
                i = i + 2;
            } else {
                out.push('[');
                out.push('^');
                out.push('/');
                out.push(']');
                out.push('*');
                assert(out@ =~= before + seq!['[', '^', '/', ']', '*']);
                assert(rest.skip(1) =~= g@.skip(i + 1));
                i = i + 1;
            }
        } else if c == '[' {
            if i + 1 < g.len() && g[i + 1] == '!' {
                out.push('[');
                out.push('^');
                assert(out@ =~= before + seq!['[', '^']);
                assert(rest.skip(2) =~= g@.skip(i + 2));
                i = i + 2;
            } else {
                out.push('[');
                assert(out@ =~= before + seq!['[']);
                assert(rest.skip(1) =~= g@.skip(i + 1));
                i = i + 1;
            }
        } else {
            if c == '.' {
                out.push('\\');
                out.push('.');
                assert(out@ =~= before + seq!['\\', '.']);
            } else if c == '/' {
                out.push('/');
                assert(out@ =~= before + seq!['/']);
            } else if c == '?' {
                out.push('[');
                out.push('^');
                out.push('/');
                out.push(']');
                assert(out@ =~= before + seq!['[', '^', '/', ']']);
            } else if c == ']' || c == '-' || c == '^' {
                out.push(c);
                assert(out@ =~= before + seq![c]);
            } else {
                push_escaped(out, c);
            }
            assert(rest.skip(1) =~= g@.skip(i + 1));
            i = i + 1;
        }
    }
}

/// The name of `base_name_of(p)`.
fn base_name_chars(p: &[char]) -> (r: Vec<char>)
    ensures
        r@ == base_name_of(p@),
{
    let t = strip_trailing_char_chars(p, '/');
    let last = match rfind_char(&t, '/') {
        Some(s) => {
            proof {
                lemma_last_index_of(t@, '/');
            }
            let l = slice_chars(&t, s + 1, t.len());
            assert(l@ =~= t@.skip(s + 1));
            l
        },
        None => t,
    };
    match find_char(&last, '.') {
        Some(d) => {
            proof {
                lemma_first_index_of(last@, '.');
            }
            let r = slice_chars(&last, 0, d);
            assert(r@ =~= last@.take(d as int));
            r
        },
        None => last,
    }
}

impl PatternCompiled {
    /// Compiles one pattern (braces already expanded). Fails exactly when the
    /// regex crate refuses the expression built from it.
    pub fn compile(pattern: &str, ignore_case: bool) -> (r: Result<Self, regex::Error>)
        ensures
            r is Ok <==> regex_compiles(compile_spec(pattern@, ignore_case).regex_source),
            r matches Ok(c) ==> c@ == compile_spec(pattern@, ignore_case),
    {
        let pat = chars_of(pattern);
        let bang: Vec<char> = vec!['!'];
        assert(bang@ =~= seq!['!']);
        let is_negated = starts_with(&pat, &bang);
        let p1 = if is_negated {
            slice_chars(&pat, 1, pat.len())
        } else {
            copy_chars(&pat)
        };
        assert(is_negated ==> p1@ =~= pat@.skip(1));
        let at: Vec<char> = vec!['@'];
        let dollar: Vec<char> = vec!['$'];
        assert(at@ =~= seq!['@']);
        assert(dollar@ =~= seq!['$']);
        assert(p1@ == after_negation(pat@));
        let requires_sibling = starts_with(&p1, &at);
        let requires_orphan = !requires_sibling && starts_with(&p1, &dollar);
        let p = if requires_sibling || requires_orphan {
            slice_chars(&p1, 1, p1.len())
        } else {
            copy_chars(&p1)
        };
        assert(p@ =~= after_markers(pat@)) by {
            if has_prefix(p1@, seq!['@']) || has_prefix(p1@, seq!['$']) {
                assert(p@ =~= p1@.skip(1));
            }
        }
        let mut source: Vec<char> = Vec::new();
        if ignore_case {
            source.push('(');
            source.push('?');
            source.push('i');
            source.push(')');
        }
        assert(source@ =~= case_flag(ignore_case));
        let re_prefix: Vec<char> = vec!['r', 'e', ':'];
        if starts_with(&p, &re_prefix) {
            let raw = slice_chars(&p, 3, p.len());
            assert(raw@ =~= p@.skip(3));
            push_all(&mut source, &raw);
            let src = string_of(&source);
            let matcher = Matcher::compile(src.as_str())?;
            let targets_dir_only = ends_with_char(&pat, '/');
            return Ok(
                PatternCompiled {
                    matcher,
                    targets_dir_only,
                    requires_sibling,
                    requires_orphan,
                    base_name: String::new(),
                    is_negated,
                },
            );
        }
        let targets_dir_only = ends_with_char(&p, '/');
        let base_name = string_of(&base_name_chars(&p));
        let dot: Vec<char> = vec!['.', '/'];
        let stars: Vec<char> = vec!['*', '*', '/'];
        let anchored = starts_with(&p, &dot);
        let body = if anchored {
            slice_chars(&p, 2, p.len())
        } else if starts_with(&p, &stars) {
            slice_chars(&p, 3, p.len())
        } else {
            copy_chars(&p)
        };
        let ghost flag = source@;
        if anchored {
            source.push('^');
            assert(source@ =~= flag + seq!['^']);
        } else {
            source.push('(');
            source.push('?');
            source.push(':');
            source.push('^');
            source.push('|');
            source.push('/');
            source.push(')');
            assert(source@ =~= flag + seq!['(', '?', ':', '^', '|', '/', ')']);
        }
        push_glob_body(&mut source, &body);
        source.push('$');
        assert(body@ =~= (if has_prefix(p@, seq!['.', '/']) {
            p@.skip(2)
        } else if has_prefix(p@, seq!['*', '*', '/']) {
            p@.skip(3)
        } else {
            p@
        }));
        assert(source@ =~= glob_source(p@, ignore_case));
        let src = string_of(&source);
        let matcher = Matcher::compile(src.as_str())?;
        Ok(
            PatternCompiled {
                matcher,
                targets_dir_only,
                requires_sibling,
                requires_orphan,
                base_name,
                is_negated,
            },
        )
    }
}


/// `sibling_dir(path, base)`.
fn sibling_dir_chars(clean: &[char], base: &[char]) -> (r: Vec<char>)
    ensures
        r@ == sibling_dir(clean@, base@),
{
    let mut r: Vec<char> = Vec::new();
    match rfind_char(clean, '/') {
        Some(i) => {
            proof {
                lemma_last_index_of(clean@, '/');
            }
            if i > 0 {
                let parent = slice_chars(clean, 0, i);
                push_all(&mut r, &parent);
                r.push('/');
            }
            assert(clean@.take(i as int) =~= clean@.subrange(0, i as int));
        },
        None => {},
    }
    push_all(&mut r, base);
    r.push('/');
    assert(r@ =~= sibling_dir(clean@, base@));
    r
}

impl PatternCompiled {
    /// Whether `path` is a directory, the path without a leading `./`, and
    /// whether the rule gets past its directory and expression checks.
    fn stage(&self, path: &str) -> (r: (bool, Vec<char>, bool))
        ensures
            r.0 == has_suffix(path@, seq!['/']),
            r.1@ == without_dot_slash(path@),
            r.2 == (!(self@.targets_dir_only && !r.0) && regex_accepts(self@.regex_source, r.1@)),
    {
        let cs = chars_of(path);
        let is_dir = ends_with_char(&cs, '/');
        let dot: Vec<char> = vec!['.', '/'];
        assert(dot@ =~= seq!['.', '/']);
        let clean = if starts_with(&cs, &dot) {
            slice_chars(&cs, 2, cs.len())
        } else {
            copy_chars(&cs)
        };
        assert(clean@ =~= without_dot_slash(path@));
        if self.targets_dir_only && !is_dir {
            return (is_dir, clean, false);
        }
        let clean_text = string_of(&clean);
        let passes = self.matcher.is_match(clean_text.as_str());
        (is_dir, clean, passes)
    }

    /// The question built for `path` once the rule needs one.
    fn question(&self, path: &str, is_dir: bool, clean: &Vec<char>) -> (q: EnvQuery)
        requires
            is_dir == has_suffix(path@, seq!['/']),
            clean@ == without_dot_slash(path@),
        ensures
            q@ == (if !is_dir {
                (true, sibling_dir(path@, self@.base_name))
            } else {
                (false, sibling_file_prefix(path@))
            }),
    {
        if !is_dir {
            let base = chars_of(self.base_name.as_str());
            let cs = chars_of(path);
            EnvQuery::Dir(string_of(&sibling_dir_chars(&cs, &base)))
        } else {
            let cs = chars_of(path);
            let mut prefix = strip_trailing_char_chars(&cs, '/');
            prefix.push('.');
            assert(prefix@ =~= sibling_file_prefix(path@));
            EnvQuery::FilePrefix(string_of(&prefix))
        }
    }

    /// The answer decides an `@` rule (needs yes) or a `$` rule (needs no).
    fn relation_holds(&self, answer: bool) -> (b: bool)
        ensures
            b == (!(self@.requires_sibling && !answer) && !(self@.requires_orphan && answer)),
    {
        !(self.requires_sibling && !answer) && !(self.requires_orphan && answer)
    }

    /// The question this rule asks the environment about `path`, if any.
    pub fn query(&self, path: &str) -> (q: Option<EnvQuery>)
        ensures
            query_view(q) == rule_query(self@, path@),
    {
        let (is_dir, clean, passes) = self.stage(path);
        if !passes || !(self.requires_sibling || self.requires_orphan) {
            return None;
        }
        Some(self.question(path, is_dir, &clean))
    }

    /// Whether this rule accepts `path`, `answer` answering its question.
    pub fn decide(&self, path: &str, answer: bool) -> (b: bool)
        ensures
            b == rule_verdict(self@, path@, answer),
    {
        let (_is_dir, _clean, passes) = self.stage(path);
        if !passes {
            return false;
        }
        if self.requires_sibling || self.requires_orphan {
            return self.relation_holds(answer);
        }
        true
    }

    /// Whether this rule accepts `path`, asking `env` its question if it has
    /// one: a rule for directories refuses files, the expression must match
    /// the path (without a leading `./`), and an `@` (`$`) rule needs (must
    /// lack) the sibling that `env` is asked about.
    pub fn is_match<E: PattEnvIndex>(&self, path: &str, env: &E) -> (b: bool)
        ensures
            b == rule_verdict(self@, path@, env_answer(env, rule_query(self@, path@))),
    {
        let (is_dir, clean, passes) = self.stage(path);
        if !passes {
            return false;
        }
        if !(self.requires_sibling || self.requires_orphan) {
            return true;
        }
        let answer = match self.question(path, is_dir, &clean) {
            EnvQuery::Dir(d) => env.has_dir(d.as_str()),
            EnvQuery::FilePrefix(p) => env.has_file_with_prefix(p.as_str()),
        };
        self.relation_holds(answer)
    }
}

/// A rule without a question about `path` gives the same verdict whatever
/// the answer.
pub proof fn law_unasked_rule_ignores_answer(r: RuleSpec, path: Seq<char>, a: bool)
    requires
        rule_query(r, path) is None,
    ensures
        rule_verdict(r, path, a) == rule_verdict(r, path, false),
{
}

// ---------------------------------------------------------------------------
// Pattern sets
// ---------------------------------------------------------------------------

/// The raw patterns, as given (blank ones left out).
#[derive(Debug, Clone, PartialEq, Eq)]
pub struct PattRaw(pub Vec<String>);

/// The patterns after brace expansion.
#[derive(Debug, Clone, PartialEq, Eq)]
pub struct PattExp(pub Vec<String>);

/// Why a pattern set could not be built.
#[derive(Debug)]
pub enum PatternError {
    /// The expression built from `pattern` (after brace expansion) was
    /// refused by the regex crate.
    InvalidPattern { pattern: String, error: regex::Error },
}

/// The character views of a slice of string slices.
pub open spec fn str_views(v: Seq<&str>) -> Seq<Seq<char>> {
    v.map_values(|x: &str| x@)
}

/// The patterns that are not blank (only white space), in order.
pub open spec fn nonblank(ps: Seq<Seq<char>>) -> Seq<Seq<char>>
    decreases ps.len(),
{
    if ps.len() == 0 {
        seq![]
    } else if trim_ws(ps.last()).len() > 0 {
        nonblank(ps.drop_last()).push(ps.last())
    } else {
        nonblank(ps.drop_last())
    }
}

/// The brace expansions of all inputs, concatenated in order.
pub open spec fn expand_each(ps: Seq<Seq<char>>) -> Seq<Seq<char>>
    decreases ps.len(),
{
    if ps.len() == 0 {
        seq![]
    } else {
        expand_each(ps.drop_last()) + expand_braces(ps.last())
    }
}

/// The rules compiled from `ps`, in order.
pub open spec fn compile_all(ps: Seq<Seq<char>>, ignore_case: bool) -> Seq<RuleSpec> {
    ps.map_values(|p: Seq<char>| compile_spec(p, ignore_case))
}

/// The expression of `compile_spec(p, ignore_case)` is accepted.
pub open spec fn pattern_compiles(p: Seq<char>, ignore_case: bool) -> bool {
    regex_compiles(compile_spec(p, ignore_case).regex_source)
}

/// A compiled, ready-to-match set of patterns.
#[derive(Debug, Clone)]
pub struct PathsPatterns {
    pub raw: PattRaw,
    pub expanded: PattExp,
    compiled: Vec<PatternCompiled>,
}

impl PathsPatterns {
    /// The raw patterns kept.
    pub closed spec fn raw_patterns(&self) -> Seq<Seq<char>> {
        string_views(self.raw.0@)
    }

    /// The expanded patterns.
    pub closed spec fn expanded_patterns(&self) -> Seq<Seq<char>> {
        string_views(self.expanded.0@)
    }

    /// The compiled rules, in the order of the expanded patterns.
    pub closed spec fn rules(&self) -> Seq<RuleSpec> {
        self.compiled@.map_values(|c: PatternCompiled| c@)
    }

    /// Builds a pattern set: blank patterns are skipped, braces are expanded,
    /// and every expansion is compiled. Fails, naming the first expansion
    /// whose expression the regex crate refuses, exactly when there is one.
    pub fn build(patterns: &[&str], ignore_case: bool) -> (r: Result<Self, PatternError>)
        ensures
            ({
                let exp = expand_each(nonblank(str_views(patterns@)));
                &&& r is Ok <==> forall|i: int|
                    0 <= i < exp.len() ==> pattern_compiles(#[trigger] exp[i], ignore_case)
                &&& r matches Ok(ps) ==> {
                    &&& ps.raw_patterns() == nonblank(str_views(patterns@))
                    &&& ps.expanded_patterns() == exp
                    &&& ps.rules() == compile_all(exp, ignore_case)
                }
                &&& r matches Err(PatternError::InvalidPattern { pattern, error }) ==> exists|k: int|
                    0 <= k < exp.len() && pattern@ == exp[k] && !pattern_compiles(exp[k], ignore_case)
                        && forall|j: int| 0 <= j < k ==> pattern_compiles(#[trigger] exp[j], ignore_case)
            }),
    {
        let ghost views = str_views(patterns@);
        let mut raw: Vec<String> = Vec::new();
        let mut expanded: Vec<String> = Vec::new();
        let mut i: usize = 0;
        while i < patterns.len()
            invariant
                i <= patterns.len(),
                views == str_views(patterns@),
                string_views(raw@) == nonblank(views.take(i as int)),
                string_views(expanded@) == expand_each(nonblank(views.take(i as int))),
            decreases patterns.len() - i,
        {
            let s: &str = patterns[i];
            let cs = chars_of(s);
            let trimmed = trim_chars(&cs);
            let ghost t = views.take(i + 1);
            assert(t.drop_last() =~= views.take(i as int));
            assert(t.last() == s@);
            if trimmed.len() > 0 {
                let ghost before_raw = raw@;
                let ghost before_exp = expanded@;
                raw.push(string_of(&cs));
                assert(string_views(raw@) =~= string_views(before_raw).push(s@));
                let more = expand_text(s);
                let mut k: usize = 0;
                while k < more.len()
                    invariant
                        k <= more.len(),
                        string_views(expanded@) == string_views(before_exp) + string_views(
                            more@,
                        ).take(k as int),
                    decreases more.len() - k,
                {
                    let ghost mid = expanded@;
                    expanded.push(string_of(&chars_of(more[k].as_str())));
                    assert(string_views(expanded@) =~= string_views(mid).push(more@[k as int]@));
                    assert(string_views(more@).take(k + 1) =~= string_views(more@).take(
                        k as int,
                    ).push(more@[k as int]@));
                    k = k + 1;
                }
                assert(string_views(more@).take(more.len() as int) =~= string_views(more@));
                assert(nonblank(t) == nonblank(views.take(i as int)).push(s@));
                assert(nonblank(t).drop_last() =~= nonblank(views.take(i as int)));
            }
            i = i + 1;
        }
        assert(views.take(patterns.len() as int) =~= views);
        let ghost exp = string_views(expanded@);
        let mut compiled: Vec<PatternCompiled> = Vec::new();
        let mut j: usize = 0;
        while j < expanded.len()
            invariant
                j <= expanded.len(),
                exp == string_views(expanded@),
                exp == expand_each(nonblank(str_views(patterns@))),
                string_views(raw@) == nonblank(str_views(patterns@)),
                forall|m: int| 0 <= m < j ==> pattern_compiles(#[trigger] exp[m], ignore_case),
                compiled@.map_values(|c: PatternCompiled| c@) == compile_all(exp, ignore_case).take(
                    j as int,
                ),
            decreases expanded.len() - j,
        {
            assert(exp[j as int] == expanded@[j as int]@);
            match PatternCompiled::compile(expanded[j].as_str(), ignore_case) {
                Ok(rule) => {
                    let ghost before = compiled@;
                    compiled.push(rule);
                    assert(compiled@.map_values(|c: PatternCompiled| c@) =~= before.map_values(
                        |c: PatternCompiled| c@,
                    ).push(compile_spec(exp[j as int], ignore_case)));
                    assert(compile_all(exp, ignore_case).take(j + 1) =~= compile_all(
                        exp,
                        ignore_case,
                    ).take(j as int).push(compile_spec(exp[j as int], ignore_case)));
                },
                Err(error) => {
                    let pattern = string_of(&chars_of(expanded[j].as_str()));
                    assert(pattern@ == exp[j as int]);
                    assert(!pattern_compiles(exp[j as int], ignore_case));
                    assert(exists|k: int|
                        0 <= k < exp.len() && pattern@ == exp[k] && !pattern_compiles(exp[k], ignore_case)
                            && forall|m: int| 0 <= m < k ==> pattern_compiles(#[trigger] exp[m], ignore_case));
                    return Err(PatternError::InvalidPattern { pattern, error });
                },
            }
            j = j + 1;
        }
        assert(compile_all(exp, ignore_case).take(expanded.len() as int) =~= compile_all(
            exp,
            ignore_case,
        ));
        Ok(PathsPatterns { raw: PattRaw(raw), expanded: PattExp(expanded), compiled })
    }

    /// The question of each rule about `path`, in rule order.
    pub fn queries(&self, path: &str) -> (q: Vec<Option<EnvQuery>>)
        ensures
            q.len() == self.rules().len(),
            forall|i: int|
                0 <= i < q.len() ==> query_view(#[trigger] q@[i]) == rule_query(
                    self.rules()[i],
                    path@,
                ),
    {
        let mut q: Vec<Option<EnvQuery>> = Vec::new();
        let mut i: usize = 0;
        while i < self.compiled.len()
            invariant
                i <= self.compiled.len(),
                q.len() == i,
                self.rules().len() == self.compiled.len(),
                forall|k: int|
                    0 <= k < i ==> query_view(#[trigger] q@[k]) == rule_query(
                        self.rules()[k],
                        path@,
                    ),
            decreases self.compiled.len() - i,
        {
            assert(self.rules()[i as int] == self.compiled@[i as int]@);
            q.push(self.compiled[i].query(path));
            i = i + 1;
        }
        q
    }

    /// Whether `path` passes the set, `answers[i]` answering rule `i`'s
    /// question: negated rules veto it, and if there is any positive rule,
    /// one of them must accept it.
    pub fn decide(&self, path: &str, answers: &[bool]) -> (b: bool)
        requires
            answers.len() == self.rules().len(),
        ensures
            b == patterns_verdict(self.rules(), path@, answers@),
    {
        let ghost rules = self.rules();
        let mut has_positive: bool = false;
        let mut matched_positive: bool = false;
        let mut i: usize = 0;
        while i < self.compiled.len()
            invariant
                i <= self.compiled.len(),
                rules == self.rules(),
                rules.len() == self.compiled.len(),
                answers.len() == rules.len(),
                forall|k: int|
                    0 <= k < i && rules[k].is_negated ==> !rule_verdict(
                        #[trigger] rules[k],
                        path@,
                        answers@[k],
                    ),
                has_positive == exists|k: int| 0 <= k < i && !(#[trigger] rules[k]).is_negated,
                matched_positive == exists|k: int|
                    0 <= k < i && !(#[trigger] rules[k]).is_negated && rule_verdict(
                        rules[k],
                        path@,
                        answers@[k],
                    ),
            decreases self.compiled.len() - i,
        {
            let c = &self.compiled[i];
            assert(rules[i as int] == c@);
            if c.is_negated {
                if c.decide(path, answers[i]) {
                    return false;
                }
            } else {
                has_positive = true;
                if !matched_positive && c.decide(path, answers[i]) {
                    matched_positive = true;
                }
            }
            i = i + 1;
        }
        if has_positive {
            matched_positive
        } else {
            true
        }
    }

    /// Whether `path` passes the set, asking `env` the rules' questions as
    /// they come: negated rules veto it, and if there is any positive rule,
    /// one of them must accept it. A positive rule is not asked once one has
    /// accepted.
    pub fn is_match<E: PattEnvIndex>(&self, path: &str, env: &E) -> (b: bool)
        ensures
            b == patterns_verdict(self.rules(), path@, env_answers(env, self.rules(), path@)),
    {
        let ghost rules = self.rules();
        let ghost answers = env_answers(env, rules, path@);
        let mut has_positive: bool = false;
        let mut matched_positive: bool = false;
        let mut i: usize = 0;
        while i < self.compiled.len()
            invariant
                i <= self.compiled.len(),
                rules == self.rules(),
                answers == env_answers(env, rules, path@),
                rules.len() == self.compiled.len(),
                forall|k: int|
                    0 <= k < i && rules[k].is_negated ==> !rule_verdict(
                        #[trigger] rules[k],
                        path@,
                        answers[k],
                    ),
                has_positive == exists|k: int| 0 <= k < i && !(#[trigger] rules[k]).is_negated,
                matched_positive == exists|k: int|
                    0 <= k < i && !(#[trigger] rules[k]).is_negated && rule_verdict(
                        rules[k],
                        path@,
                        answers[k],
                    ),
            decreases self.compiled.len() - i,
        {
            let c = &self.compiled[i];
            assert(rules[i as int] == c@);
            assert(answers[i as int] == env_answer(env, rule_query(c@, path@)));
            if c.is_negated {
                if c.is_match(path, env) {
                    assert(!patterns_verdict(rules, path@, answers));
                    return false;
                }
            } else {
                has_positive = true;
                if !matched_positive && c.is_match(path, env) {
                    matched_positive = true;
                }
            }
            i = i + 1;
        }
        if has_positive {
            matched_positive
        } else {
            true
        }
    }

    /// The number of compiled rules.
    pub fn rules_count(&self) -> (n: usize)
        ensures
            n == self.rules().len(),
    {
        self.compiled.len()
    }

    /// Every alternative of `input` (`{a|b}` groups, innermost first).
    pub fn expand_braces(input: &str) -> (r: Vec<String>)
        ensures
            string_views(r@) == expand_braces(input@),
    {
        expand_text(input)
    }
}

// ---------------------------------------------------------------------------
// Laws of rules and rule sets
// ---------------------------------------------------------------------------

/// A negated rule is a hard veto: if it accepts the path, the set refuses
/// the path, whatever the other rules say.
pub proof fn law_negated_rule_vetoes(rules: Seq<RuleSpec>, path: Seq<char>, answers: Seq<bool>, i: int)
    requires
        0 <= i < rules.len(),
        rules[i].is_negated,
        rule_verdict(rules[i], path, answers[i]),
    ensures
        !patterns_verdict(rules, path, answers),
{
}

/// An empty rule set accepts every path.
pub proof fn law_empty_set_accepts_all(path: Seq<char>, answers: Seq<bool>)
    ensures
        patterns_verdict(Seq::<RuleSpec>::empty(), path, answers),
{
}

/// A set of negated rules only accepts exactly the paths that none of them
/// accepts.
pub proof fn law_only_vetoes(rules: Seq<RuleSpec>, path: Seq<char>, answers: Seq<bool>)
    requires
        forall|i: int| 0 <= i < rules.len() ==> (#[trigger] rules[i]).is_negated,
    ensures
        patterns_verdict(rules, path, answers) == forall|i: int|
            0 <= i < rules.len() ==> !rule_verdict(#[trigger] rules[i], path, answers[i]),
{
}

/// When the set has a positive rule, a path passes only if some positive
/// rule accepts it and no negated rule does.
pub proof fn law_positive_rule_needed(rules: Seq<RuleSpec>, path: Seq<char>, answers: Seq<bool>, j: int)
    requires
        0 <= j < rules.len(),
        !rules[j].is_negated,
    ensures
        patterns_verdict(rules, path, answers) == ((exists|i: int|
            0 <= i < rules.len() && !(#[trigger] rules[i]).is_negated && rule_verdict(
                rules[i],
                path,
                answers[i],
            )) && forall|i: int|
            0 <= i < rules.len() && (#[trigger] rules[i]).is_negated ==> !rule_verdict(
                rules[i],
                path,
                answers[i],
            )),
{
    assert(!(forall|i: int| 0 <= i < rules.len() ==> (#[trigger] rules[i]).is_negated)) by {
        assert(!rules[j].is_negated);
    }
}

/// Dropping up to `k` leading characters keeps a trailing `/`.
proof fn lemma_skip_keeps_slash(p: Seq<char>, k: int)
    requires
        has_suffix(p, seq!['/']),
        0 <= k < p.len(),
    ensures
        has_suffix(p.skip(k), seq!['/']),
{
    assert(p.skip(k).subrange(p.skip(k).len() - 1, p.skip(k).len() as int) =~= p.subrange(
        p.len() - 1,
        p.len() as int,
    ));
}

/// A pattern ending in `/` targets directories only: its rule refuses every
/// path that does not end in `/`.
pub proof fn law_dir_pattern_refuses_files(pattern: Seq<char>, ignore_case: bool, path: Seq<char>, answer: bool)
    requires
        has_suffix(pattern, seq!['/']),
        !has_suffix(path, seq!['/']),
    ensures
        compile_spec(pattern, ignore_case).targets_dir_only,
        !rule_verdict(compile_spec(pattern, ignore_case), path, answer),
{
    let last = pattern.len() - 1;
    assert(pattern[last] == '/') by {
        assert(pattern.subrange(last, pattern.len() as int)[0] == pattern[last]);
    }
    let p1 = after_negation(pattern);
    if has_prefix(pattern, seq!['!']) {
        assert(pattern[0] == '!') by {
            assert(pattern.subrange(0, 1)[0] == pattern[0]);
        }
        lemma_skip_keeps_slash(pattern, 1);
    }
    assert(has_suffix(p1, seq!['/']));
    if has_prefix(p1, seq!['@']) || has_prefix(p1, seq!['$']) {
        assert(p1[0] == '@' || p1[0] == '$') by {
            assert(p1.subrange(0, 1)[0] == p1[0]);
        }
        assert(p1[p1.len() - 1] == '/') by {
            assert(p1.subrange(p1.len() - 1, p1.len() as int)[0] == p1[p1.len() - 1]);
        }
        lemma_skip_keeps_slash(p1, 1);
    }
    assert(has_suffix(after_markers(pattern), seq!['/']));
}

/// Ignoring case only puts `(?i)` in front of the expression; the rest of
/// the rule is the same.
pub proof fn law_ignore_case_prefixes_flag(pattern: Seq<char>)
    ensures
        compile_spec(pattern, true).regex_source == seq!['(', '?', 'i', ')'] + compile_spec(
            pattern,
            false,
        ).regex_source,
        compile_spec(pattern, true).targets_dir_only == compile_spec(pattern, false).targets_dir_only,
        compile_spec(pattern, true).requires_sibling == compile_spec(pattern, false).requires_sibling,
        compile_spec(pattern, true).requires_orphan == compile_spec(pattern, false).requires_orphan,
        compile_spec(pattern, true).base_name == compile_spec(pattern, false).base_name,
        compile_spec(pattern, true).is_negated == compile_spec(pattern, false).is_negated,
{
    let p = after_markers(pattern);
    let flag = seq!['(', '?', 'i', ')'];
    if is_direct_regex(p) {
        assert(case_flag(false) + p.skip(3) =~= p.skip(3));
    } else {
        let dot = seq!['.', '/'];
        let stars = seq!['*', '*', '/'];
        let anchor = if has_prefix(p, dot) {
            seq!['^']
        } else {
            seq!['(', '?', ':', '^', '|', '/', ')']
        };
        let body = if has_prefix(p, dot) {
            p.skip(2)
        } else if has_prefix(p, stars) {
            p.skip(3)
        } else {
            p
        };
        let tail = anchor + glob_body(body) + seq!['$'];
        assert(glob_source(p, false) =~= tail);
        assert(glob_source(p, true) =~= flag + tail);
    }
}

/// `$q` is the opposite of `@q`: both ask the same question about a path,
/// `@q` accepts it exactly when the question is asked and answered yes, and
/// `$q` exactly when it is asked and answered no.
pub proof fn law_orphan_opposes_sibling(q: Seq<char>, ignore_case: bool, path: Seq<char>, answer: bool)
    ensures
        rule_query(compile_spec(seq!['@'] + q, ignore_case), path) == rule_query(
            compile_spec(seq!['$'] + q, ignore_case),
            path,
        ),
        rule_verdict(compile_spec(seq!['@'] + q, ignore_case), path, answer) == (rule_query(
            compile_spec(seq!['@'] + q, ignore_case),
            path,
        ) is Some && answer),
        rule_verdict(compile_spec(seq!['$'] + q, ignore_case), path, answer) == (rule_query(
            compile_spec(seq!['$'] + q, ignore_case),
            path,
        ) is Some && !answer),
{
    let at = seq!['@'] + q;
    let dollar = seq!['$'] + q;
    assert(!has_prefix(at, seq!['!'])) by {
        assert(at.subrange(0, 1)[0] == '@');
    }
    assert(!has_prefix(dollar, seq!['!'])) by {
        assert(dollar.subrange(0, 1)[0] == '$');
    }
    assert(has_prefix(at, seq!['@'])) by {
        assert(at.subrange(0, 1) =~= seq!['@']);
    }
    assert(!has_prefix(dollar, seq!['@'])) by {
        assert(dollar.subrange(0, 1)[0] == '$');
    }
    assert(has_prefix(dollar, seq!['$'])) by {
        assert(dollar.subrange(0, 1) =~= seq!['$']);
    }
    assert(at.skip(1) =~= q);
    assert(dollar.skip(1) =~= q);
    assert(after_markers(at) == q);
    assert(after_markers(dollar) == q);
    assert(has_suffix(at, seq!['/']) == has_suffix(dollar, seq!['/'])) by {
        if q.len() > 0 {
            assert(at.subrange(at.len() - 1, at.len() as int) =~= q.subrange(
                q.len() - 1,
                q.len() as int,
            ));
            assert(dollar.subrange(dollar.len() - 1, dollar.len() as int) =~= q.subrange(
                q.len() - 1,
                q.len() as int,
            ));
        } else {
            assert(at.subrange(0, 1)[0] == '@');
            assert(dollar.subrange(0, 1)[0] == '$');
        }
    }
}


// ---------------------------------------------------------------------------
// Laws of the glob language
// ---------------------------------------------------------------------------

/// A glob must consume the whole path: the expression of every glob rule
/// (any pattern that is not `re:`) ends with the end anchor `$`.
pub proof fn law_glob_anchored_at_end(pattern: Seq<char>, ignore_case: bool)
    requires
        !is_direct_regex(after_markers(pattern)),
    ensures
        has_suffix(compile_spec(pattern, ignore_case).regex_source, seq!['$']),
{
    let src = compile_spec(pattern, ignore_case).regex_source;
    assert(src.subrange(src.len() - 1, src.len() as int) =~= seq!['$']);
}

/// A glob rule is anchored at the root for `./`, and otherwise at the
/// start of the path or just after a `/` (so at any level, the top level
/// included).
pub proof fn law_glob_anchored_at_start(pattern: Seq<char>, ignore_case: bool)
    requires
        !is_direct_regex(after_markers(pattern)),
    ensures
        has_prefix(
            compile_spec(pattern, ignore_case).regex_source,
            case_flag(ignore_case) + if has_prefix(after_markers(pattern), seq!['.', '/']) {
                seq!['^']
            } else {
                seq!['(', '?', ':', '^', '|', '/', ')']
            },
        ),
{
    let src = compile_spec(pattern, ignore_case).regex_source;
    let p = after_markers(pattern);
    let head = case_flag(ignore_case) + if has_prefix(p, seq!['.', '/']) {
        seq!['^']
    } else {
        seq!['(', '?', ':', '^', '|', '/', ')']
    };
    assert(src.subrange(0, head.len() as int) =~= head);
}

/// A leading `**/` matches zero or more levels: `**/q` gives the same
/// expression as `q`, so it also matches at the top level.
pub proof fn law_leading_stars_match_top_level(q: Seq<char>, ignore_case: bool)
    requires
        !has_prefix(q, seq!['.', '/']),
        !has_prefix(q, seq!['*', '*', '/']),
        !has_prefix(q, seq!['!']),
        !has_prefix(q, seq!['@']),
        !has_prefix(q, seq!['$']),
        !is_direct_regex(q),
    ensures
        compile_spec(seq!['*', '*', '/'] + q, ignore_case).regex_source == compile_spec(
            q,
            ignore_case,
        ).regex_source,
{
    let s = seq!['*', '*', '/'] + q;
    assert(s.subrange(0, 1)[0] == '*');
    assert(!has_prefix(s, seq!['!']));
    assert(!has_prefix(s, seq!['@']));
    assert(!has_prefix(s, seq!['$']));
    assert(after_markers(s) == s);
    assert(after_markers(q) == q);
    assert(!has_prefix(s, seq!['.', '/'])) by {
        assert(s.subrange(0, 2)[0] == '*');
    }
    assert(!is_direct_regex(s)) by {
        assert(s.subrange(0, 3)[0] == '*');
    }
    assert(has_prefix(s, seq!['*', '*', '/'])) by {
        assert(s.subrange(0, 3) =~= seq!['*', '*', '/']);
    }
    assert(s.skip(3) =~= q);
}

/// `?` stands for exactly one character other than `/`.
pub proof fn law_question_mark_is_one_character(g: Seq<char>)
    ensures
        glob_body(seq!['?'] + g) == seq!['[', '^', '/', ']'] + glob_body(g),
{
    let s = seq!['?'] + g;
    assert(s[0] == '?');
    assert(s.skip(1) =~= g);
}

/// `*` stands for any text within one level, and `**` for any text.
pub proof fn law_stars(g: Seq<char>)
    ensures
        !has_prefix(g, seq!['*']) ==> glob_body(seq!['*'] + g) == seq!['[', '^', '/', ']', '*']
            + glob_body(g),
        glob_body(seq!['*', '*'] + g) == seq!['.', '*'] + glob_body(g),
{
    let one = seq!['*'] + g;
    assert(one[0] == '*');
    assert(one.skip(1) =~= g);
    if !has_prefix(g, seq!['*']) && one.len() >= 2 {
        assert(one[1] != '*') by {
            if one[1] == '*' {
                assert(g.subrange(0, 1) =~= seq!['*']);
            }
        }
    }
    let two = seq!['*', '*'] + g;
    assert(two[0] == '*' && two[1] == '*');
    assert(two.skip(2) =~= g);
}

/// A character written after `\` stands for itself: it is escaped for the
/// expression as `regex::escape` does.
pub proof fn law_backslash_escapes(c: char, g: Seq<char>)
    ensures
        glob_body(seq!['\\', c] + g) == escape_text(seq![c]) + glob_body(g),
{
    let s = seq!['\\', c] + g;
    assert(s[0] == '\\' && s[1] == c);
    assert(s.skip(2) =~= g);
}

/// A raw regex given with `re:` is passed to the engine unchanged, after
/// the case flag; a `!` in front only negates the rule.
pub proof fn law_direct_regex_unchanged(r: Seq<char>, ignore_case: bool)
    ensures
        compile_spec(seq!['r', 'e', ':'] + r, ignore_case).regex_source == case_flag(ignore_case)
            + r,
        compile_spec(seq!['!', 'r', 'e', ':'] + r, ignore_case).regex_source == case_flag(
            ignore_case,
        ) + r,
        compile_spec(seq!['!', 'r', 'e', ':'] + r, ignore_case).is_negated,
        !compile_spec(seq!['r', 'e', ':'] + r, ignore_case).is_negated,
{
    let a = seq!['r', 'e', ':'] + r;
    let b = seq!['!'] + a;
    assert(seq!['!', 'r', 'e', ':'] + r =~= b);
    assert(!has_prefix(a, seq!['!'])) by {
        assert(a.subrange(0, 1)[0] == 'r');
    }
    assert(!has_prefix(a, seq!['@'])) by {
        assert(a.subrange(0, 1)[0] == 'r');
    }
    assert(!has_prefix(a, seq!['$'])) by {
        assert(a.subrange(0, 1)[0] == 'r');
    }
    assert(has_prefix(a, seq!['r', 'e', ':'])) by {
        assert(a.subrange(0, 3) =~= seq!['r', 'e', ':']);
    }
    assert(a.skip(3) =~= r);
    assert(has_prefix(b, seq!['!'])) by {
        assert(b.subrange(0, 1) =~= seq!['!']);
    }
    assert(b.skip(1) =~= a);
    assert(after_markers(a) == a);
    assert(after_markers(b) == a);
}

/// A `.` of a glob is a literal dot, a `/` a literal separator, and `[!`
/// opens a negated class.
pub proof fn law_dot_slash_and_negated_class(g: Seq<char>)
    ensures
        glob_body(seq!['.'] + g) == seq!['\\', '.'] + glob_body(g),
        glob_body(seq!['/'] + g) == seq!['/'] + glob_body(g),
        glob_body(seq!['[', '!'] + g) == seq!['[', '^'] + glob_body(g),
{
    let d = seq!['.'] + g;
    assert(d[0] == '.');
    assert(d.skip(1) =~= g);
    let sl = seq!['/'] + g;
    assert(sl[0] == '/');
    assert(sl.skip(1) =~= g);
    let c = seq!['[', '!'] + g;
    assert(c[0] == '[' && c[1] == '!');
    assert(c.skip(2) =~= g);
}

/// Every character without a meaning in globs stands for itself: it is
/// escaped for the expression as `regex::escape` does.
pub proof fn law_plain_characters_are_literal(c: char, g: Seq<char>)
    requires
        c != '\\' && c != '*' && c != '[' && c != '?' && c != '.' && c != '/' && c != ']' && c
            != '-' && c != '^',
    ensures
        glob_body(seq![c] + g) == escape_text(seq![c]) + glob_body(g),
{
    let s = seq![c] + g;
    assert(s[0] == c);
    assert(s.skip(1) =~= g);
}

/// `last_index_of` of a text made of a part, a `c` and a part without `c`.
proof fn lemma_last_index_split(a: Seq<char>, b: Seq<char>, c: char)
    requires
        !has_char(b, c),
    ensures
        last_index_of(a + seq![c] + b, c) == a.len(),
{
    let s = a + seq![c] + b;
    lemma_last_index_of(s, c);
    let l = last_index_of(s, c);
    assert(s[a.len() as int] == c);
    if l < a.len() {
        assert(s[a.len() as int] != c);
    } else if l > a.len() {
        assert(s[l] == b[l - a.len() - 1]);
    }
}

/// The directory that a file rule asks for lies beside the file: for the
/// file `dir/name`, it is `dir/<base_name>/`.
pub proof fn law_sibling_dir_beside_file(dir: Seq<char>, name: Seq<char>, base_name: Seq<char>)
    requires
        dir.len() > 0,
        !has_char(name, '/'),
    ensures
        sibling_dir(dir + seq!['/'] + name, base_name) == dir + seq!['/'] + base_name + seq!['/'],
{
    let path = dir + seq!['/'] + name;
    lemma_last_index_split(dir, name, '/');
    assert(path.take(dir.len() as int) =~= dir);
}

/// The files that a directory rule asks for are those named like the
/// directory with an extension: for `d/`, those beginning with `d.`.
pub proof fn law_sibling_files_beside_dir(d: Seq<char>)
    requires
        !has_suffix(d, seq!['/']),
    ensures
        sibling_file_prefix(d + seq!['/']) == d + seq!['.'],
{
    let p = d + seq!['/'];
    assert(p.drop_last() =~= d);
    assert(p.last() == '/');
    if d.len() > 0 {
        assert(d.last() != '/') by {
            if d.last() == '/' {
                assert(d.subrange(d.len() - 1, d.len() as int) =~= seq!['/']);
            }
        }
    }
    assert(strip_trailing_char(d, '/') == d);
    assert(strip_trailing_char(p, '/') == strip_trailing_char(d, '/'));
}
} // verus!
