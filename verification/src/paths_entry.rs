//! Path texts: normalisation, the parent/name split of a path, the anchor of
//! a scan target relative to the working directory, and the set of targets
//! of a query.
use vstd::prelude::*;
use vstd::string::StrSliceExecFns;
use crate::braces::{expand_braces, expand_text, law_no_group_no_expansion};
use crate::paths_patterns::{expand_each, str_views};
use crate::text::{
    chars_of, copy_chars, ends_with_char, has_char, has_prefix, has_suffix, last_index_of, lemma_last_index_of,
    push_all, replace_all, replace_chars, rfind_char, slice_chars, string_of, string_views,
    strip_both_char, strip_leading, strip_leading_at, strip_leading_char_chars,
    strip_trailing_char, strip_trailing_char_chars, starts_with, trim_chars, trim_ws,
};

verus! {

// ---------------------------------------------------------------------------
// Normalisation
// ---------------------------------------------------------------------------

/// The Windows verbatim prefix `\\?\`.
pub open spec fn verbatim_prefix() -> Seq<char> {
    seq!['\\', '\\', '?', '\\']
}

/// The text with every `./` that follows a `/` removed, again and again, so
/// that no `/./` is left: `prev_slash` tells whether the text already
/// produced ends in `/`.
pub open spec fn collapse_dot_segments(prev_slash: bool, s: Seq<char>) -> Seq<char>
    decreases s.len(),
{
    if s.len() == 0 {
        s
    } else if prev_slash && s.len() >= 2 && s[0] == '.' && s[1] == '/' {
        collapse_dot_segments(true, s.skip(2))
    } else {
        seq![s[0]] + collapse_dot_segments(s[0] == '/', s.skip(1))
    }
}

/// A path text in the uniform form: every leading `\\?\` removed, every
/// `\` turned into `/`, then every `/./` reduced to `/` until none is left.
pub open spec fn normalized(p: Seq<char>) -> Seq<char> {
    collapse_dot_segments(
        false,
        replace_all(strip_leading(p, verbatim_prefix()), seq!['\\'], seq!['/']),
    )
}

/// `collapse_dot_segments(false, s)`.
fn collapse_dot_chars(s: &[char]) -> (r: Vec<char>)
    ensures
        r@ == collapse_dot_segments(false, s@),
{
    let mut out: Vec<char> = Vec::new();
    let mut prev_slash = false;
    let mut i: usize = 0;
    assert(s@.skip(0) =~= s@);
    while i < s.len()
        invariant
            i <= s.len(),
            out@ + collapse_dot_segments(prev_slash, s@.skip(i as int)) == collapse_dot_segments(
                false,
                s@,
            ),
        decreases s.len() - i,
    {
        let ghost rest = s@.skip(i as int);
        assert(rest[0] == s@[i as int]);
        if prev_slash && i + 1 < s.len() && s[i] == '.' && s[i + 1] == '/' {
            assert(rest[1] == s@[i + 1]);
            assert(rest.skip(2) =~= s@.skip(i + 2));
            i = i + 2;
        } else {
            let c = s[i];
            let ghost before = out@;
            out.push(c);
            assert(rest.skip(1) =~= s@.skip(i + 1));
            assert(out@ + collapse_dot_segments(c == '/', s@.skip(i + 1)) =~= before + (seq![c]
                + collapse_dot_segments(c == '/', rest.skip(1))));
            prev_slash = c == '/';
            i = i + 1;
        }
    }
    assert(s@.skip(s.len() as int) =~= Seq::<char>::empty());
    assert(out@ + Seq::<char>::empty() =~= out@);
    out
}

/// Normalises a path text (see `normalized`).
pub fn normalize_path(p: &str) -> (r: String)
    ensures
        r@ == normalized(p@),
{
    let cs = chars_of(p);
    let unc: Vec<char> = vec!['\\', '\\', '?', '\\'];
    assert(unc@ =~= verbatim_prefix());
    let start = strip_leading_at(&cs, &unc);
    let rest = slice_chars(&cs, start, cs.len());
    assert(rest@ =~= cs@.skip(start as int));
    let back: Vec<char> = vec!['\\'];
    let fwd: Vec<char> = vec!['/'];
    assert(back@ =~= seq!['\\']);
    assert(fwd@ =~= seq!['/']);
    let slashed = replace_chars(&rest, &back, &fwd);
    let out = collapse_dot_chars(&slashed);
    string_of(&out)
}

// ---------------------------------------------------------------------------
// Path nodes
// ---------------------------------------------------------------------------

/// A path as given (`buf`) together with its normalised text (`str`).
#[derive(Debug, PartialEq, Eq, Hash)]
pub struct PathNode {
    pub buf: String,
    pub str: String,
}

impl View for PathNode {
    type V = (Seq<char>, Seq<char>);

    open spec fn view(&self) -> (Seq<char>, Seq<char>) {
        (self.buf@, self.str@)
    }
}

impl Clone for PathNode {
    fn clone(&self) -> (r: Self)
        ensures
            r@ == self@,
    {
        PathNode { buf: self.buf.clone(), str: self.str.clone() }
    }
}

impl PathNode {
    /// A node for `buf`, with its normalised text.
    pub fn new(buf: String) -> (n: Self)
        ensures
            n.buf@ == buf@,
            n.str@ == normalized(buf@),
    {
        let str = normalize_path(buf.as_str());
        PathNode { buf, str }
    }
}

/// The two nodes hold the same texts.
fn same_node(a: &PathNode, b: &PathNode) -> (r: bool)
    ensures
        r == (a@ == b@),
{
    a.buf == b.buf && a.str == b.str
}

// ---------------------------------------------------------------------------
// Parent / name split
// ---------------------------------------------------------------------------

/// The path without its leading `./` groups and without one trailing `/`
/// (a directory is named by its last component, as a file is).
pub open spec fn relative_part(path: Seq<char>) -> Seq<char> {
    let c = strip_leading(path, seq!['.', '/']);
    if has_suffix(c, seq!['/']) {
        c.drop_last()
    } else {
        c
    }
}

/// The text before the last `/` of the relative part (empty without `/`).
pub open spec fn parent_part(path: Seq<char>) -> Seq<char> {
    let c = relative_part(path);
    let i = last_index_of(c, '/');
    if i < 0 {
        seq![]
    } else {
        c.take(i)
    }
}

/// The text after the last `/` of the relative part (all of it without `/`).
pub open spec fn name_part(path: Seq<char>) -> Seq<char> {
    let c = relative_part(path);
    let i = last_index_of(c, '/');
    if i < 0 {
        c
    } else {
        c.skip(i + 1)
    }
}

/// A path split into its parent directory and its last component, both
/// borrowed from the path.
#[derive(Debug, Clone, PartialEq, Eq)]
pub struct PathContext<'a> {
    pub parent: &'a str,
    pub file: &'a str,
}

impl<'a> PathContext<'a> {
    /// Splits `path` (leading `./` groups and one trailing `/` ignored) at
    /// its last `/`: `./a/b/` is the directory `b` in `a`.
    pub fn from_path(path: &'a str) -> (r: Self)
        ensures
            r.parent@ == parent_part(path@),
            r.file@ == name_part(path@),
    {
        let cs = chars_of(path);
        let dot: Vec<char> = vec!['.', '/'];
        assert(dot@ =~= seq!['.', '/']);
        let start = strip_leading_at(&cs, &dot);
        let ghost stripped = cs@.skip(start as int);
        assert(stripped =~= strip_leading(path@, seq!['.', '/']));
        let end = if ends_with_char(&cs, '/') && start < cs.len() {
            cs.len() - 1
        } else {
            cs.len()
        };
        let clean = slice_chars(&cs, start, end);
        assert(clean@ =~= relative_part(path@)) by {
            if has_suffix(stripped, seq!['/']) {
                assert(stripped.subrange(stripped.len() - 1, stripped.len() as int)
                    =~= cs@.subrange(cs.len() - 1, cs.len() as int));
            } else if end < cs.len() {
                assert(stripped.subrange(stripped.len() - 1, stripped.len() as int)
                    =~= cs@.subrange(cs.len() - 1, cs.len() as int));
            }
        }
        match rfind_char(&clean, '/') {
            Some(i) => {
                proof {
                    lemma_last_index_of(clean@, '/');
                }
                let parent = path.substring_char(start, start + i);
                let file = path.substring_char(start + i + 1, end);
                assert(parent@ =~= clean@.take(i as int));
                assert(file@ =~= clean@.skip(i + 1));
                PathContext { parent, file }
            },
            None => {
                let parent = path.substring_char(start, start);
                let file = path.substring_char(start, end);
                assert(parent@ =~= Seq::<char>::empty());
                assert(file@ =~= clean@);
                PathContext { parent, file }
            },
        }
    }

    /// The last component.
    pub fn name(&self) -> (r: &'a str)
        ensures
            r == self.file,
    {
        self.file
    }

    /// The parent directory.
    pub fn parent(&self) -> (r: &'a str)
        ensures
            r == self.parent,
    {
        self.parent
    }

    /// The path has no parent directory.
    pub fn is_root_level(&self) -> (b: bool)
        ensures
            b == (self.parent@.len() == 0),
    {
        self.parent.is_empty()
    }
}

// ---------------------------------------------------------------------------
// Anchored targets
// ---------------------------------------------------------------------------

/// A path separator: `/`, and `\` too where the platform reads it so
/// (`backslash`, as on Windows).
pub open spec fn is_separator(c: char, backslash: bool) -> bool {
    c == '/' || (backslash && c == '\\')
}

/// `s` without its trailing separators.
pub open spec fn strip_trailing_separators(s: Seq<char>, backslash: bool) -> Seq<char>
    decreases s.len(),
{
    if s.len() > 0 && is_separator(s.last(), backslash) {
        strip_trailing_separators(s.drop_last(), backslash)
    } else {
        s
    }
}

/// The text of `path` below the directory `base`: empty when `path` is
/// `base` itself, the rest after `base` and a separator when it lies
/// inside `base`, `None` otherwise. Trailing separators of `base` do not
/// count, so the root `/` holds every absolute path. This is
/// `Path::strip_prefix` on texts without empty or `.` components, as
/// canonical paths are, `backslash` telling whether `\` separates too.
pub open spec fn inside_text(base: Seq<char>, path: Seq<char>, backslash: bool) -> Option<
    Seq<char>,
> {
    let b = strip_trailing_separators(base, backslash);
    if path == b {
        Some(seq![])
    } else if path.len() > b.len() && has_prefix(path, b) && is_separator(
        path[b.len() as int],
        backslash,
    ) {
        Some(path.skip(b.len() as int + 1))
    } else {
        None
    }
}

/// The text of `path` inside the directory `base`, if it lies there (see
/// `inside_text`); `backslash` tells whether `\` separates path components
/// on this platform.
pub fn inside_of(base: &str, path: &str, backslash: bool) -> (r: Option<String>)
    ensures
        opt_string_view(r) == inside_text(base@, path@, backslash),
{
    let bs = chars_of(base);
    let mut n: usize = bs.len();
    assert(bs@.take(bs.len() as int) =~= base@);
    while n > 0 && (bs[n - 1] == '/' || (backslash && bs[n - 1] == '\\'))
        invariant
            n <= bs.len(),
            strip_trailing_separators(bs@.take(n as int), backslash) == strip_trailing_separators(
                base@,
                backslash,
            ),
        decreases n,
    {
        assert(bs@.take(n as int).drop_last() =~= bs@.take(n - 1));
        n = n - 1;
    }
    let b = slice_chars(&bs, 0, n);
    assert(b@ =~= bs@.take(n as int));
    assert(strip_trailing_separators(b@, backslash) == b@);
    let p = chars_of(path);
    if !starts_with(&p, &b) {
        assert(path@ != b@) by {
            if path@ == b@ {
                assert(path@.subrange(0, b@.len() as int) =~= b@);
            }
        }
        return None;
    }
    if p.len() == b.len() {
        assert(path@ =~= b@) by {
            assert(path@.subrange(0, b@.len() as int) == b@);
        }
        return Some(String::new());
    }
    assert(path@ != b@);
    let c = p[b.len()];
    if !(c == '/' || (backslash && c == '\\')) {
        return None;
    }
    let rest = slice_chars(&p, b.len() + 1, p.len());
    assert(rest@ =~= path@.skip(b@.len() as int + 1));
    Some(string_of(&rest))
}

/// The spec view of an `Option<String>`.
pub open spec fn opt_string_view(o: Option<String>) -> Option<Seq<char>> {
    match o {
        Some(s) => Some(s@),
        None => None,
    }
}

/// The text by which a target is reached from the working directory.
/// `inside` is the target's path inside the working directory when it lies
/// there (`None` otherwise); `target` is the target's normalised text.
pub open spec fn relative_text(inside: Option<Seq<char>>, target: Seq<char>, is_dir: bool) -> Seq<
    char,
> {
    match inside {
        Some(rel) => {
            let clean = strip_both_char(normalized(rel), '/');
            if clean.len() == 0 {
                seq!['.', '/']
            } else if is_dir {
                seq!['.', '/'] + clean + seq!['/']
            } else {
                seq!['.', '/'] + clean
            }
        },
        None => if is_dir && !has_suffix(target, seq!['/']) {
            target.push('/')
        } else {
            target
        },
    }
}

/// The spec view of an `Option<&str>`.
pub open spec fn opt_view(o: Option<&str>) -> Option<Seq<char>> {
    match o {
        Some(s) => Some(s@),
        None => None,
    }
}

/// A scan target bound to the working directory it was asked from.
#[derive(Debug)]
pub struct AnchoredPath {
    /// The working directory of the query.
    pub execution_dir: PathNode,
    /// The target itself.
    pub target_dir: PathNode,
    /// How the target is reached from the working directory.
    pub relative_path: String,
}

impl View for AnchoredPath {
    type V = ((Seq<char>, Seq<char>), (Seq<char>, Seq<char>), Seq<char>);

    open spec fn view(&self) -> Self::V {
        (self.execution_dir@, self.target_dir@, self.relative_path@)
    }
}

impl Clone for AnchoredPath {
    fn clone(&self) -> (r: Self)
        ensures
            r@ == self@,
    {
        AnchoredPath {
            execution_dir: self.execution_dir.clone(),
            target_dir: self.target_dir.clone(),
            relative_path: self.relative_path.clone(),
        }
    }
}

impl AnchoredPath {
    /// Anchors `target_dir` at `execution_dir`. `inside` is the target's path
    /// inside the working directory, if it lies there; `is_dir` tells whether
    /// the target is a directory. A target inside the working directory is
    /// reached by `./<path>` (with a trailing `/` for a directory, and `./`
    /// for the working directory itself); any other by its own text.
    pub fn anchor(
        execution_dir: &PathNode,
        target_dir: PathNode,
        inside: Option<&str>,
        is_dir: bool,
    ) -> (r: Self)
        ensures
            r.execution_dir@ == execution_dir@,
            r.target_dir@ == target_dir@,
            r.relative_path@ == relative_text(opt_view(inside), target_dir.str@, is_dir),
    {
        let relative = match inside {
            Some(rel) => {
                let norm = chars_of(normalize_path(rel).as_str());
                let clean = strip_trailing_char_chars(&strip_leading_char_chars(&norm, '/'), '/');
                let mut out: Vec<char> = Vec::new();
                out.push('.');
                out.push('/');
                if clean.len() > 0 {
                    push_all(&mut out, &clean);
                    if is_dir {
                        out.push('/');
                    }
                }
                assert(out@ =~= relative_text(opt_view(inside), target_dir.str@, is_dir));
                string_of(&out)
            },
            None => {
                let mut out = chars_of(target_dir.str.as_str());
                if is_dir && !ends_with_char(&out, '/') {
                    out.push('/');
                }
                string_of(&out)
            },
        };
        AnchoredPath { execution_dir: execution_dir.clone(), target_dir, relative_path: relative }
    }
}

// ---------------------------------------------------------------------------
// Targets of a query
// ---------------------------------------------------------------------------

/// Why a query has no target.
#[derive(Debug, Clone, Copy, PartialEq, Eq, Structural)]
pub enum EntryError {
    /// None of the requested or expanded paths exists.
    NoExistingTarget,
}

/// Each input trimmed, a blank one standing for `./`; no input at all
/// stands for `./` too.
pub open spec fn defaulted_inputs(inputs: Seq<Seq<char>>) -> Seq<Seq<char>> {
    let m = inputs.map_values(
        |x: Seq<char>|
            if trim_ws(x).len() == 0 {
                seq!['.', '/']
            } else {
                trim_ws(x)
            },
    );
    if m.len() == 0 {
        seq![seq!['.', '/']]
    } else {
        m
    }
}

/// The paths a query asks for: the defaulted inputs, each brace-expanded.
pub open spec fn requested_paths(inputs: Seq<Seq<char>>) -> Seq<Seq<char>> {
    expand_each(defaulted_inputs(inputs))
}

/// The view of a target's node.
pub open spec fn target_of(a: ((Seq<char>, Seq<char>), (Seq<char>, Seq<char>), Seq<char>)) -> (
    Seq<char>,
    Seq<char>,
) {
    a.1
}

/// The candidates, each kept only if no earlier kept one has the same
/// target node.
pub open spec fn first_per_target(
    cands: Seq<((Seq<char>, Seq<char>), (Seq<char>, Seq<char>), Seq<char>)>,
) -> Seq<((Seq<char>, Seq<char>), (Seq<char>, Seq<char>), Seq<char>)>
    decreases cands.len(),
{
    if cands.len() == 0 {
        seq![]
    } else {
        let kept = first_per_target(cands.drop_last());
        if exists|i: int| 0 <= i < kept.len() && target_of(kept[i]) == target_of(cands.last()) {
            kept
        } else {
            kept.push(cands.last())
        }
    }
}

/// The views of a sequence of anchored targets.
pub open spec fn anchored_views(v: Seq<AnchoredPath>) -> Seq<
    ((Seq<char>, Seq<char>), (Seq<char>, Seq<char>), Seq<char>),
> {
    v.map_values(|a: AnchoredPath| a@)
}

/// The working directory and the targets of a query.
#[derive(Debug)]
pub struct PathsEntry {
    pub execution_dir: PathNode,
    pub targets: Vec<AnchoredPath>,
}

impl PathsEntry {
    /// Every alternative of `input`: `./{abc/ao/|def/}` stands for
    /// `./abc/ao/` and `./def/`.
    pub fn expand_alternatives(input: &str) -> (r: Vec<String>)
        ensures
            string_views(r@) == expand_braces(input@),
    {
        expand_text(input)
    }

    /// The paths that `inputs` ask for, before any is looked up: each input
    /// trimmed (a blank one meaning `./`, and no input at all meaning `./`),
    /// then brace-expanded, in order.
    pub fn requested_paths(inputs: &[&str]) -> (r: Vec<String>)
        ensures
            string_views(r@) == requested_paths(str_views(inputs@)),
    {
        let ghost views = str_views(inputs@);
        let ghost m = views.map_values(
            |x: Seq<char>|
                if trim_ws(x).len() == 0 {
                    seq!['.', '/']
                } else {
                    trim_ws(x)
                },
        );
        let mut raw: Vec<Vec<char>> = Vec::new();
        let mut i: usize = 0;
        while i < inputs.len()
            invariant
                i <= inputs.len(),
                views == str_views(inputs@),
                m.len() == views.len(),
                forall|k: int|
                    0 <= k < m.len() ==> #[trigger] m[k] == (if trim_ws(views[k]).len() == 0 {
                        seq!['.', '/']
                    } else {
                        trim_ws(views[k])
                    }),
                raw@.map_values(|x: Vec<char>| x@) == m.take(i as int),
            decreases inputs.len() - i,
        {
            let cs = chars_of(inputs[i]);
            let t = trim_chars(&cs);
            let item = if t.len() == 0 {
                let d: Vec<char> = vec!['.', '/'];
                d
            } else {
                t
            };
            assert(item@ =~= m[i as int]);
            let ghost before = raw@;
            raw.push(item);
            assert(raw@.map_values(|x: Vec<char>| x@) =~= before.map_values(|x: Vec<char>| x@).push(
                m[i as int],
            ));
            assert(m.take(i + 1) =~= m.take(i as int).push(m[i as int]));
            i = i + 1;
        }
        assert(m.take(inputs.len() as int) =~= m);
        if raw.len() == 0 {
            let d: Vec<char> = vec!['.', '/'];
            raw.push(d);
        }
        let ghost dv = defaulted_inputs(views);
        assert(raw@.map_values(|x: Vec<char>| x@) =~= dv);
        let mut out: Vec<String> = Vec::new();
        let mut j: usize = 0;
        while j < raw.len()
            invariant
                j <= raw.len(),
                raw@.map_values(|x: Vec<char>| x@) == dv,
                string_views(out@) == expand_each(dv.take(j as int)),
            decreases raw.len() - j,
        {
            let text = string_of(&raw[j]);
            let more = expand_text(text.as_str());
            let ghost before = out@;
            let mut k: usize = 0;
            while k < more.len()
                invariant
                    k <= more.len(),
                    string_views(out@) == string_views(before) + string_views(more@).take(k as int),
                decreases more.len() - k,
            {
                let ghost mid = out@;
                out.push(string_of(&chars_of(more[k].as_str())));
                assert(string_views(out@) =~= string_views(mid).push(more@[k as int]@));
                assert(string_views(more@).take(k + 1) =~= string_views(more@).take(k as int).push(
                    more@[k as int]@,
                ));
                k = k + 1;
            }
            assert(string_views(more@).take(more.len() as int) =~= string_views(more@));
            let ghost t = dv.take(j + 1);
            assert(t.drop_last() =~= dv.take(j as int));
            assert(t.last() == raw@[j as int]@);
            j = j + 1;
        }
        assert(dv.take(raw.len() as int) =~= dv);
        out
    }

    /// The entry made of the found candidates: each target kept once (the
    /// first candidate for it), in order. Fails exactly when there is no
    /// candidate.
    pub fn from_targets(execution_dir: PathNode, candidates: Vec<AnchoredPath>) -> (r: Result<
        Self,
        EntryError,
    >)
        ensures
            r is Err <==> candidates.len() == 0,
            r matches Ok(e) ==> {
                &&& e.execution_dir@ == execution_dir@
                &&& anchored_views(e.targets@) == first_per_target(anchored_views(candidates@))
            },
    {
        let ghost cv = anchored_views(candidates@);
        let mut targets: Vec<AnchoredPath> = Vec::new();
        let mut i: usize = 0;
        while i < candidates.len()
            invariant
                i <= candidates.len(),
                cv == anchored_views(candidates@),
                anchored_views(targets@) == first_per_target(cv.take(i as int)),
                i > 0 ==> targets.len() > 0,
            decreases candidates.len() - i,
        {
            let c = &candidates[i];
            let ghost kept = anchored_views(targets@);
            let mut seen = false;
            let mut k: usize = 0;
            while k < targets.len()
                invariant
                    k <= targets.len(),
                    kept == anchored_views(targets@),
                    seen == exists|m: int|
                        0 <= m < k && target_of(kept[m]) == target_of(c@),
                decreases targets.len() - k,
            {
                if same_node(&targets[k].target_dir, &c.target_dir) {
                    seen = true;
                }
                assert(kept[k as int] == targets@[k as int]@);
                k = k + 1;
            }
            let ghost t = cv.take(i + 1);
            assert(t.drop_last() =~= cv.take(i as int));
            assert(t.last() == c@);
            if !seen {
                targets.push(c.clone());
                assert(anchored_views(targets@) =~= kept.push(c@));
            }
            i = i + 1;
        }
        assert(cv.take(candidates.len() as int) =~= cv);
        if targets.len() == 0 {
            return Err(EntryError::NoExistingTarget);
        }
        Ok(PathsEntry { execution_dir, targets })
    }
}


// ---------------------------------------------------------------------------
// Laws
// ---------------------------------------------------------------------------

/// Replacing a character by another one removes it.
proof fn lemma_replace_char_removes(s: Seq<char>, c: char, d: char)
    requires
        c != d,
    ensures
        !has_char(replace_all(s, seq![c], seq![d]), c),
    decreases s.len(),
{
    if s.len() > 0 {
        let pat = seq![c];
        if has_prefix(s, pat) {
            lemma_replace_char_removes(s.skip(1), c, d);
            let r = replace_all(s.skip(1), pat, seq![d]);
            assert forall|j: int| 0 <= j < (seq![d] + r).len() implies (seq![d] + r)[j] != c by {
                if j > 0 {
                    assert((seq![d] + r)[j] == r[j - 1]);
                }
            }
        } else {
            assert(s[0] != c) by {
                if s[0] == c {
                    assert(s.subrange(0, 1) =~= pat);
                }
            }
            lemma_replace_char_removes(s.skip(1), c, d);
            let r = replace_all(s.skip(1), pat, seq![d]);
            assert forall|j: int| 0 <= j < (seq![s[0]] + r).len() implies (seq![s[0]] + r)[j]
                != c by {
                if j > 0 {
                    assert((seq![s[0]] + r)[j] == r[j - 1]);
                }
            }
        }
    }
}

/// `/./` stands in `s`.
pub open spec fn has_dot_segment(s: Seq<char>) -> bool {
    exists|i: int| #![trigger s[i]] 0 <= i && i + 2 < s.len() && s[i] == '/' && s[i + 1] == '.' && s[i + 2] == '/'
}

/// Collapsing adds no character, and leaves no `/./`; after a `/` the
/// result does not begin with `./`, and without one it begins with the
/// text's first character.
proof fn lemma_collapse(prev_slash: bool, s: Seq<char>, x: char)
    ensures
        !has_char(s, x) ==> !has_char(collapse_dot_segments(prev_slash, s), x),
        !has_dot_segment(collapse_dot_segments(prev_slash, s)),
        prev_slash ==> !has_prefix(collapse_dot_segments(prev_slash, s), seq!['.', '/']),
        !prev_slash && s.len() > 0 ==> collapse_dot_segments(prev_slash, s).len() > 0
            && collapse_dot_segments(prev_slash, s)[0] == s[0],
    decreases s.len(),
{
    let r = collapse_dot_segments(prev_slash, s);
    if s.len() == 0 {
    } else if prev_slash && s.len() >= 2 && s[0] == '.' && s[1] == '/' {
        lemma_collapse(true, s.skip(2), x);
        if !has_char(s, x) {
            assert(!has_char(s.skip(2), x)) by {
                assert forall|j: int| 0 <= j < s.skip(2).len() implies s.skip(2)[j] != x by {
                    assert(s.skip(2)[j] == s[j + 2]);
                }
            }
        }
    } else {
        let c = s[0];
        let t = collapse_dot_segments(c == '/', s.skip(1));
        lemma_collapse(c == '/', s.skip(1), x);
        assert(r == seq![c] + t);
        if !has_char(s, x) {
            assert(!has_char(s.skip(1), x)) by {
                assert forall|j: int| 0 <= j < s.skip(1).len() implies s.skip(1)[j] != x by {
                    assert(s.skip(1)[j] == s[j + 1]);
                }
            }
            assert forall|j: int| 0 <= j < r.len() implies r[j] != x by {
                if j > 0 {
                    assert(r[j] == t[j - 1]);
                }
            }
        }
        assert forall|i: int|
            #![trigger r[i]]
            !(0 <= i && i + 2 < r.len() && r[i] == '/' && r[i + 1] == '.' && r[i + 2] == '/') by {
            if 0 <= i && i + 2 < r.len() && r[i] == '/' && r[i + 1] == '.' && r[i + 2] == '/' {
                if i == 0 {
                    assert(t[0] == '.' && t[1] == '/');
                    assert(t.subrange(0, 2) =~= seq!['.', '/']);
                } else {
                    assert(t[i - 1] == '/' && t[i] == '.' && t[i + 1] == '/');
                }
            }
        }
        if prev_slash && has_prefix(r, seq!['.', '/']) {
            assert(r[0] == '.' && r[1] == '/') by {
                assert(r.subrange(0, 2)[0] == r[0]);
                assert(r.subrange(0, 2)[1] == r[1]);
            }
            assert(s.skip(1).len() > 0);
            assert(t[0] == s.skip(1)[0]);
        }
    }
}

/// A normalised path holds no `\` and no `/./`.
pub proof fn law_normalized_is_uniform(p: Seq<char>)
    ensures
        !has_char(normalized(p), '\\'),
        !has_dot_segment(normalized(p)),
{
    let slashed = replace_all(strip_leading(p, verbatim_prefix()), seq!['\\'], seq!['/']);
    lemma_replace_char_removes(strip_leading(p, verbatim_prefix()), '\\', '/');
    lemma_collapse(false, slashed, '\\');
}

/// A path is its parent, a `/` and its name (leading `./` groups and one
/// trailing `/` aside);
/// the name holds no `/`, and a path without `/` is all name.
pub proof fn law_context_recomposes(path: Seq<char>)
    ensures
        !has_char(name_part(path), '/'),
        has_char(relative_part(path), '/') ==> relative_part(path) == parent_part(path) + seq!['/']
            + name_part(path),
        !has_char(relative_part(path), '/') ==> parent_part(path).len() == 0 && name_part(path)
            == relative_part(path),
{
    let c = relative_part(path);
    let i = last_index_of(c, '/');
    lemma_last_index_of(c, '/');
    if i < 0 {
        assert(!has_char(c, '/'));
    } else {
        assert(c == c.take(i) + seq!['/'] + c.skip(i + 1));
        let n = c.skip(i + 1);
        assert forall|j: int| 0 <= j < n.len() implies n[j] != '/' by {
            assert(n[j] == c[i + 1 + j]);
        }
    }
}

/// Without inputs, or with blank inputs only, a query asks for the working
/// directory `./`, once per input.
pub proof fn law_blank_inputs_mean_working_dir(inputs: Seq<Seq<char>>)
    requires
        forall|i: int| 0 <= i < inputs.len() ==> trim_ws(#[trigger] inputs[i]).len() == 0,
    ensures
        requested_paths(inputs) == Seq::new(
            if inputs.len() == 0 {
                1nat
            } else {
                inputs.len()
            },
            |i: int| seq!['.', '/'],
        ),
{
    let dot = seq!['.', '/'];
    law_no_group_no_expansion(dot);
    let d = defaulted_inputs(inputs);
    let n = if inputs.len() == 0 {
        1nat
    } else {
        inputs.len()
    };
    assert(d =~= Seq::new(n, |i: int| dot));
    lemma_expand_each_plain(d, n);
}

/// Expanding `n` copies of `./` gives them back.
proof fn lemma_expand_each_plain(d: Seq<Seq<char>>, n: nat)
    requires
        d == Seq::new(n, |i: int| seq!['.', '/']),
        expand_braces(seq!['.', '/']) == seq![seq!['.', '/']],
    ensures
        expand_each(d) == d,
    decreases n,
{
    if n > 0 {
        let m = (n - 1) as nat;
        assert(d.drop_last() =~= Seq::new(m, |i: int| seq!['.', '/']));
        lemma_expand_each_plain(d.drop_last(), m);
        assert(d.last() == seq!['.', '/']);
        assert(d.drop_last().push(d.last()) =~= d);
    }
}

/// A directory target is always reached by a text ending in `/`, and a
/// target inside the working directory by one beginning with `./`.
pub proof fn law_relative_text_shape(inside: Option<Seq<char>>, target: Seq<char>, is_dir: bool)
    ensures
        is_dir ==> has_suffix(relative_text(inside, target, is_dir), seq!['/']),
        inside is Some ==> has_prefix(relative_text(inside, target, is_dir), seq!['.', '/']),
{
    let r = relative_text(inside, target, is_dir);
    match inside {
        Some(rel) => {
            let clean = strip_both_char(normalized(rel), '/');
            if clean.len() == 0 {
                assert(r.subrange(1, 2) =~= seq!['/']);
                assert(r.subrange(0, 2) =~= seq!['.', '/']);
            } else if is_dir {
                assert(r.subrange(r.len() - 1, r.len() as int) =~= seq!['/']);
                assert(r.subrange(0, 2) =~= seq!['.', '/']);
            } else {
                assert(r.subrange(0, 2) =~= seq!['.', '/']);
            }
        },
        None => {
            if is_dir && !has_suffix(target, seq!['/']) {
                assert(r.subrange(r.len() - 1, r.len() as int) =~= seq!['/']);
            }
        },
    }
}

/// The kept candidates: no two have the same target, each is one of the
/// candidates, and every candidate's target is among them.
pub proof fn law_one_entry_per_target(
    cands: Seq<((Seq<char>, Seq<char>), (Seq<char>, Seq<char>), Seq<char>)>,
)
    ensures
        forall|i: int, j: int|
            0 <= i < j < first_per_target(cands).len() ==> target_of(
                #[trigger] first_per_target(cands)[i],
            ) != target_of(#[trigger] first_per_target(cands)[j]),
        forall|i: int|
            0 <= i < first_per_target(cands).len() ==> cands.contains(
                #[trigger] first_per_target(cands)[i],
            ),
        forall|k: int|
            0 <= k < cands.len() ==> exists|i: int|
                0 <= i < first_per_target(cands).len() && target_of(
                    #[trigger] first_per_target(cands)[i],
                ) == target_of(#[trigger] cands[k]),
    decreases cands.len(),
{
    if cands.len() > 0 {
        let prev = cands.drop_last();
        law_one_entry_per_target(prev);
        let kept = first_per_target(prev);
        let r = first_per_target(cands);
        assert forall|i: int| 0 <= i < r.len() implies cands.contains(#[trigger] r[i]) by {
            if i < kept.len() {
                assert(r[i] == kept[i]);
                assert(prev.contains(kept[i]));
                let w = choose|w: int| 0 <= w < prev.len() && prev[w] == kept[i];
                assert(cands[w] == prev[w]);
            } else {
                assert(r[i] == cands.last());
                assert(cands[cands.len() - 1] == cands.last());
            }
        }
        assert forall|k: int| 0 <= k < cands.len() implies exists|i: int|
            0 <= i < r.len() && target_of(#[trigger] r[i]) == target_of(#[trigger] cands[k]) by {
            if k < prev.len() {
                assert(cands[k] == prev[k]);
                let i = choose|i: int|
                    0 <= i < kept.len() && target_of(#[trigger] kept[i]) == target_of(prev[k]);
                assert(r[i] == kept[i]);
            } else {
                if exists|i: int| 0 <= i < kept.len() && target_of(kept[i]) == target_of(cands.last()) {
                    let i = choose|i: int|
                        0 <= i < kept.len() && target_of(kept[i]) == target_of(cands.last());
                    assert(r[i] == kept[i]);
                } else {
                    assert(r[kept.len() as int] == cands.last());
                }
            }
        }
    }
}
} // verus!
