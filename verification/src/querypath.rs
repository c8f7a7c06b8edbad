//! The query: its builder, the in-memory index of a walk, and the
//! evaluation of patterns and options over a walk into files and
//! directories with their sizes.
use vstd::prelude::*;
use crate::fs_walk::{node_texts, FsWalk};
use crate::order::{
    insert_sorted, lemma_between_shares_prefix, lemma_lex_asymmetric, lemma_prefix_not_after,
    lex_compare, lex_lt, lower_bound, strictly_sorted,
};
use crate::paths_options::PathsOptions;
use crate::paths_patterns::{
    compile_all, env_answer, env_answers, expand_each, nonblank, pattern_compiles, patterns_verdict, query_view, rule_query, str_views, EnvQuery,
    PathsPatterns, PattEnvIndex, PatternError,
};
use crate::paths_entry::{AnchoredPath, PathNode, PathsEntry};
use crate::paths_patterns::RuleSpec;
use crate::text::{chars_of, has_prefix, slice_chars, starts_with, string_of, string_views};

verus! {

// ---------------------------------------------------------------------------
// Result records
// ---------------------------------------------------------------------------

/// A matched file.
#[derive(Debug, Clone, PartialEq, Eq, Default)]
pub struct FileItem {
    pub path: String,
    pub size: u64,
    pub is_binary: bool,
    pub modified_at: Option<u64>,
}

/// A matched directory with two sizes: of all files below it, and of the
/// matched files below it.
#[derive(Debug, Clone, PartialEq, Eq, Default)]
pub struct DirItem {
    pub path: String,
    /// Total size of every file inside the directory.
    pub real_size: u64,
    /// Total size of the matched files inside the directory.
    pub matched_size: u64,
    pub modified_at: Option<u64>,
}

/// The report of a query.
#[derive(Debug, Clone, PartialEq, Eq, Default)]
pub struct QueryResults {
    pub execution_dir: String,
    pub scanned_paths: Vec<String>,
    pub patterns: Vec<String>,
    pub scanned_files: usize,
    pub scanned_dirs: usize,
    pub started_at_ms: u64,
    pub finished_at_ms: u64,
    pub duration_ms: u64,
    pub files: Vec<FileItem>,
    pub dirs: Vec<DirItem>,
}

// ---------------------------------------------------------------------------
// In-memory index of a walk
// ---------------------------------------------------------------------------

/// The texts of a walk's directories and files, each kept in text order,
/// so that relation queries need no disk access.
pub struct WalkEnvIndex {
    dirs: Vec<Vec<char>>,
    files: Vec<Vec<char>>,
}

/// The views of character vectors.
pub open spec fn key_views(v: Seq<Vec<char>>) -> Seq<Seq<char>> {
    v.map_values(|x: Vec<char>| x@)
}

impl WalkEnvIndex {
    #[verifier::type_invariant]
    spec fn sorted(self) -> bool {
        strictly_sorted(key_views(self.dirs@)) && strictly_sorted(key_views(self.files@))
    }

    /// Fills `keys` with the texts of `nodes`.
    fn keys_of(nodes: &Vec<crate::paths_entry::PathNode>) -> (keys: Vec<Vec<char>>)
        ensures
            strictly_sorted(key_views(keys@)),
            key_views(keys@).to_set() == node_texts(nodes@).to_set(),
    {
        let mut keys: Vec<Vec<char>> = Vec::new();
        let mut i: usize = 0;
        assert(key_views(keys@).to_set() =~= node_texts(nodes@).take(0).to_set());
        while i < nodes.len()
            invariant
                i <= nodes.len(),
                strictly_sorted(key_views(keys@)),
                key_views(keys@).to_set() == node_texts(nodes@).take(i as int).to_set(),
            decreases nodes.len() - i,
        {
            let k = chars_of(nodes[i].str.as_str());
            insert_sorted(&mut keys, k);
            assert(node_texts(nodes@).take(i + 1) =~= node_texts(nodes@).take(i as int).push(
                nodes@[i as int].str@,
            ));
            proof {
                node_texts(nodes@).take(i as int).lemma_push_to_set_commute(nodes@[i as int].str@);
            }
            i = i + 1;
        }
        assert(node_texts(nodes@).take(nodes.len() as int) =~= node_texts(nodes@));
        keys
    }

    /// The index of `walk`: its directories and files by normalised text.
    pub fn from_walk(walk: &FsWalk) -> (env: Self)
        ensures
            env.file_texts().to_set() == node_texts(walk.files@).to_set(),
            strictly_sorted(env.file_texts()),
            forall|d: Seq<char>| env.lists_dir(d) <==> node_texts(walk.dirs@).contains(d),
            forall|p: Seq<char>|
                env.lists_file_with_prefix(p) <==> exists|i: int|
                    0 <= i < walk.files.len() && has_prefix(
                        #[trigger] walk.files@[i].str@,
                        p,
                    ),
    {
        let dirs = Self::keys_of(&walk.dirs);
        let files = Self::keys_of(&walk.files);
        let env = WalkEnvIndex { dirs, files };
        assert forall|d: Seq<char>| env.lists_dir(d) <==> node_texts(walk.dirs@).contains(d) by {
            assert(key_views(env.dirs@).to_set().contains(d) <==> key_views(env.dirs@).contains(d));
            assert(node_texts(walk.dirs@).to_set().contains(d) <==> node_texts(
                walk.dirs@,
            ).contains(d));
        }
        assert forall|p: Seq<char>|
            env.lists_file_with_prefix(p) <==> exists|i: int|
                0 <= i < walk.files.len() && has_prefix(#[trigger] walk.files@[i].str@, p) by {
            let kv = key_views(env.files@);
            let nt = node_texts(walk.files@);
            if env.lists_file_with_prefix(p) {
                let k = choose|k: int| 0 <= k < kv.len() && has_prefix(#[trigger] kv[k], p);
                assert(kv.to_set().contains(kv[k]));
                assert(nt.to_set().contains(kv[k]));
                let i = choose|i: int| 0 <= i < nt.len() && nt[i] == kv[k];
                assert(has_prefix(walk.files@[i].str@, p));
            }
            if exists|i: int| 0 <= i < walk.files.len() && has_prefix(#[trigger] walk.files@[i].str@, p) {
                let i = choose|i: int| 0 <= i < walk.files.len() && has_prefix(#[trigger] walk.files@[i].str@, p);
                assert(nt[i] == walk.files@[i].str@);
                assert(nt.to_set().contains(nt[i]));
                assert(kv.to_set().contains(nt[i]));
                let k = choose|k: int| 0 <= k < kv.len() && kv[k] == nt[i];
                assert(has_prefix(kv[k], p));
            }
        }
        env
    }
}

impl WalkEnvIndex {
    /// The directory `dir` is in the index.
    pub closed spec fn lists_dir(&self, dir: Seq<char>) -> bool {
        key_views(self.dirs@).contains(dir)
    }

    /// The texts of the index's files, in text order.
    pub closed spec fn file_texts(&self) -> Seq<Seq<char>> {
        key_views(self.files@)
    }

    /// Some file of the index begins with `prefix`.
    pub closed spec fn lists_file_with_prefix(&self, prefix: Seq<char>) -> bool {
        exists|k: int|
            0 <= k < self.files.len() && has_prefix(#[trigger] key_views(self.files@)[k], prefix)
    }

    /// The index's answer to a rule's question.
    pub open spec fn answer_of(&self, q: (bool, Seq<char>)) -> bool {
        env_answer(self, Some(q))
    }

    /// The index's answers to the questions of `rules` about `path` (no
    /// for a rule without a question).
    pub open spec fn answers_for(&self, rules: Seq<crate::paths_patterns::RuleSpec>, path: Seq<char>) -> Seq<bool> {
        env_answers(self, rules, path)
    }

    /// Whether the index accepts `path` by `patterns`, answering every
    /// question itself.
    pub open spec fn index_accepts(&self, rules: Seq<crate::paths_patterns::RuleSpec>, path: Seq<char>) -> bool {
        patterns_verdict(rules, path, self.answers_for(rules, path))
    }

    /// Answers one question.
    pub fn answer(&self, q: &EnvQuery) -> (b: bool)
        ensures
            b == self.answer_of(q@),
    {
        match q {
            EnvQuery::Dir(d) => self.has_dir(d.as_str()),
            EnvQuery::FilePrefix(p) => self.has_file_with_prefix(p.as_str()),
        }
    }

    /// Whether `path` passes `patterns`, every question answered by this
    /// index.
    pub fn accepts(&self, patterns: &PathsPatterns, path: &str) -> (b: bool)
        ensures
            b == self.index_accepts(patterns.rules(), path@),
    {
        let qs = patterns.queries(path);
        let ghost expected = self.answers_for(patterns.rules(), path@);
        let mut answers: Vec<bool> = Vec::new();
        let mut i: usize = 0;
        while i < qs.len()
            invariant
                i <= qs.len(),
                qs.len() == patterns.rules().len(),
                expected == self.answers_for(patterns.rules(), path@),
                forall|k: int|
                    0 <= k < qs.len() ==> query_view(#[trigger] qs@[k]) == rule_query(
                        patterns.rules()[k],
                        path@,
                    ),
                answers@ == expected.take(i as int),
            decreases qs.len() - i,
        {
            let a = match &qs[i] {
                Some(q) => self.answer(q),
                None => false,
            };
            assert(a == expected[i as int]);
            answers.push(a);
            assert(expected.take(i + 1) =~= expected.take(i as int).push(a));
            i = i + 1;
        }
        assert(expected.take(qs.len() as int) =~= expected);
        patterns.decide(path, &answers)
    }
}

impl PattEnvIndex for WalkEnvIndex {
    open spec fn dir_listed(&self, dir: Seq<char>) -> bool {
        self.lists_dir(dir)
    }

    open spec fn file_prefix_listed(&self, prefix: Seq<char>) -> bool {
        self.lists_file_with_prefix(prefix)
    }

    /// Binary search among the directories.
    fn has_dir(&self, dir: &str) -> (b: bool)
        ensures
            b == self.lists_dir(dir@),
    {
        proof {
            use_type_invariant(self);
        }
        let d = chars_of(dir);
        let n = lower_bound(&self.dirs, &d);
        let kv = Ghost(key_views(self.dirs@));
        if n < self.dirs.len() && lex_compare(&self.dirs[n], &d) == 0 {
            assert(kv@[n as int] == d@);
            return true;
        }
        assert forall|k: int| 0 <= k < kv@.len() implies kv@[k] != d@ by {
            assert(kv@[k] == self.dirs@[k]@);
            if k > n {
                assert(lex_lt(kv@[n as int], kv@[k]));
                crate::order::lemma_lex_total(kv@[n as int], d@);
                if kv@[k] == d@ {
                    lemma_lex_asymmetric(kv@[n as int], kv@[k]);
                }
            } else if k < n {
                crate::order::lemma_lex_irreflexive(d@);
            }
        }
        false
    }

    /// The first file not before `prefix` begins with it exactly when some
    /// file does, the files being in text order.
    fn has_file_with_prefix(&self, prefix: &str) -> (b: bool)
        ensures
            b == self.lists_file_with_prefix(prefix@),
    {
        proof {
            use_type_invariant(self);
        }
        let p = chars_of(prefix);
        let n = lower_bound(&self.files, &p);
        let kv = Ghost(key_views(self.files@));
        if n < self.files.len() {
            let r = starts_with(&self.files[n], &p);
            if !r {
                assert forall|k: int| 0 <= k < self.files.len() implies !has_prefix(
                    #[trigger] kv@[k],
                    p@,
                ) by {
                    assert(kv@[k] == self.files@[k]@);
                    assert(kv@[n as int] == self.files@[n as int]@);
                    if has_prefix(kv@[k], p@) {
                        lemma_prefix_not_after(p@, kv@[k]);
                        if k > n {
                            lemma_lex_asymmetric(kv@[n as int], kv@[k]);
                        }
                        if k >= n {
                            lemma_between_shares_prefix(p@, kv@[n as int], kv@[k]);
                        }
                    }
                }
            } else {
                assert(has_prefix(kv@[n as int], p@));
            }
            r
        } else {
            assert forall|k: int| 0 <= k < self.files.len() implies !has_prefix(
                #[trigger] kv@[k],
                p@,
            ) by {
                assert(kv@[k] == self.files@[k]@);
                if has_prefix(kv@[k], p@) {
                    lemma_prefix_not_after(p@, kv@[k]);
                }
            }
            false
        }
    }

    /// Asks `check` about each file inside `dir` (each file beginning with
    /// `dir`), in text order, until it answers yes: the result is yes exactly
    /// when `check` answered yes for one of them.
    fn any_file_in_dir<F: Fn(&str) -> bool>(&self, dir: &str, check: &F) -> (b: bool)
        ensures
            b ==> exists|k: int, s: &str|
                0 <= k < self.file_texts().len() && has_prefix(#[trigger] self.file_texts()[k], dir@)
                    && s@ == self.file_texts()[k] && #[trigger] check.ensures((s,), true),
            !b ==> forall|k: int|
                0 <= k < self.file_texts().len() && has_prefix(
                    #[trigger] self.file_texts()[k],
                    dir@,
                ) ==> exists|s: &str| s@ == self.file_texts()[k] && check.ensures((s,), false),
    {
        proof {
            use_type_invariant(self);
        }
        let ghost kv = key_views(self.files@);
        let d = chars_of(dir);
        let n = lower_bound(&self.files, &d);
        let mut i = n;
        while i < self.files.len()
            invariant
                n <= i <= self.files.len(),
                kv == key_views(self.files@),
                kv == self.file_texts(),
                d@ == dir@,
                strictly_sorted(kv),
                forall|s: &str| check.requires((s,)),
                forall|k: int| 0 <= k < n ==> lex_lt(#[trigger] kv[k], d@),
                forall|k: int| n <= k < self.files.len() ==> !lex_lt(#[trigger] kv[k], d@),
                forall|k: int|
                    n <= k < i ==> has_prefix(#[trigger] kv[k], d@) && exists|s: &str|
                        s@ == kv[k] && check.ensures((s,), false),
            decreases self.files.len() - i,
        {
            assert(kv[i as int] == self.files@[i as int]@);
            if !starts_with(&self.files[i], &d) {
                assert forall|k: int|
                    0 <= k < kv.len() && has_prefix(#[trigger] kv[k], dir@) implies exists|s: &str|
                    s@ == kv[k] && check.ensures((s,), false) by {
                    if k < n {
                        lemma_prefix_not_after(d@, kv[k]);
                    } else if k > i {
                        lemma_lex_asymmetric(kv[i as int], kv[k]);
                        lemma_between_shares_prefix(d@, kv[i as int], kv[k]);
                    }
                }
                return false;
            }
            let text = string_of(&self.files[i]);
            let ts = text.as_str();
            let r = check(ts);
            assert(ts@ == kv[i as int]);
            if r {
                assert(has_prefix(kv[i as int], dir@));
                return true;
            }
            i = i + 1;
        }
        assert forall|k: int|
            0 <= k < kv.len() && has_prefix(#[trigger] kv[k], dir@) implies exists|s: &str|
            s@ == kv[k] && check.ensures((s,), false) by {
            if k < n {
                lemma_prefix_not_after(d@, kv[k]);
            }
        }
        false
    }
}

// ---------------------------------------------------------------------------
// The query
// ---------------------------------------------------------------------------

/// A query under construction: where to scan, what to match, and how.
#[derive(Debug, Clone, Default)]
pub struct QueryPath {
    pub paths: Vec<String>,
    pub patterns: Vec<String>,
    pub options: PathsOptions,
}

/// `f` lies below the directory text `d`: `d` is `f` up to and including
/// one of its `/` after the first character.
pub open spec fn ancestor_dir(d: Seq<char>, f: Seq<char>) -> bool {
    exists|k: int| 0 < k < f.len() && f[k] == '/' && d == #[trigger] f.take(k + 1)
}

/// The sum of the sizes of the files among `files[..n]` whose text begins
/// with `d`.
pub open spec fn size_below(files: Seq<PathNode>, sizes: Seq<u64>, d: Seq<char>, n: int) -> int
    decreases n,
{
    if n <= 0 {
        0
    } else {
        size_below(files, sizes, d, n - 1) + if has_prefix(files[n - 1].str@, d) {
            sizes[n - 1] as int
        } else {
            0
        }
    }
}

/// The sum of the sizes of the accepted files among `files[..n]` whose text
/// begins with `d`.
pub open spec fn matched_size_below(
    env: WalkEnvIndex,
    rules: Seq<RuleSpec>,
    files: Seq<PathNode>,
    sizes: Seq<u64>,
    d: Seq<char>,
    n: int,
) -> int
    decreases n,
{
    if n <= 0 {
        0
    } else {
        matched_size_below(env, rules, files, sizes, d, n - 1) + if has_prefix(files[n - 1].str@, d)
            && env.index_accepts(rules, files[n - 1].str@) {
            sizes[n - 1] as int
        } else {
            0
        }
    }
}

/// `d` is one of the walk's directories and the patterns accept it.
pub open spec fn accepted_walk_dir(env: WalkEnvIndex, rules: Seq<RuleSpec>, walk: FsWalk, d: Seq<char>) -> bool {
    exists|i: int|
        0 <= i < walk.dirs.len() && (#[trigger] walk.dirs@[i]).str@ == d && env.index_accepts(
            rules,
            d,
        )
}

/// `d` lies above one of the accepted files among `walk.files[..n]`.
pub open spec fn below_accepted_file(
    env: WalkEnvIndex,
    rules: Seq<RuleSpec>,
    walk: FsWalk,
    d: Seq<char>,
    n: int,
) -> bool {
    exists|i: int|
        0 <= i < n && i < walk.files.len() && env.index_accepts(
            rules,
            (#[trigger] walk.files@[i]).str@,
        ) && ancestor_dir(d, walk.files@[i].str@)
}

/// `d` lies above (or is) one of the accepted directories among
/// `walk.dirs[..n]`.
pub open spec fn below_accepted_dir(
    env: WalkEnvIndex,
    rules: Seq<RuleSpec>,
    walk: FsWalk,
    d: Seq<char>,
    n: int,
) -> bool {
    exists|i: int|
        0 <= i < n && i < walk.dirs.len() && env.index_accepts(
            rules,
            (#[trigger] walk.dirs@[i]).str@,
        ) && ancestor_dir(d, walk.dirs@[i].str@)
}

/// The directories of a query's result: every accepted directory of the
/// walk and, when parents are kept, every indexed directory above an
/// accepted file or an accepted directory.
pub open spec fn selected_dir(
    env: WalkEnvIndex,
    rules: Seq<RuleSpec>,
    walk: FsWalk,
    keep_parent: bool,
    d: Seq<char>,
) -> bool {
    ||| accepted_walk_dir(env, rules, walk, d)
    ||| keep_parent && env.lists_dir(d) && (below_accepted_file(
        env,
        rules,
        walk,
        d,
        walk.files.len() as int,
    ) || below_accepted_dir(env, rules, walk, d, walk.dirs.len() as int))
}

/// One more file considered.
proof fn lemma_below_file_step(env: WalkEnvIndex, rules: Seq<RuleSpec>, walk: FsWalk, d: Seq<char>, j: int)
    requires
        0 <= j < walk.files.len(),
    ensures
        below_accepted_file(env, rules, walk, d, j + 1) == (below_accepted_file(
            env,
            rules,
            walk,
            d,
            j,
        ) || (env.index_accepts(rules, walk.files@[j].str@) && ancestor_dir(
            d,
            walk.files@[j].str@,
        ))),
{
    if below_accepted_file(env, rules, walk, d, j + 1) {
        let i = choose|i: int|
            0 <= i < j + 1 && i < walk.files.len() && env.index_accepts(
                rules,
                (#[trigger] walk.files@[i]).str@,
            ) && ancestor_dir(d, walk.files@[i].str@);
        if i < j {
            assert(below_accepted_file(env, rules, walk, d, j));
        }
    }
    if below_accepted_file(env, rules, walk, d, j) {
        let i = choose|i: int|
            0 <= i < j && i < walk.files.len() && env.index_accepts(
                rules,
                (#[trigger] walk.files@[i]).str@,
            ) && ancestor_dir(d, walk.files@[i].str@);
        assert(below_accepted_file(env, rules, walk, d, j + 1));
    }
    if env.index_accepts(rules, walk.files@[j].str@) && ancestor_dir(d, walk.files@[j].str@) {
        assert(below_accepted_file(env, rules, walk, d, j + 1));
    }
}

/// One more directory considered.
proof fn lemma_below_dir_step(env: WalkEnvIndex, rules: Seq<RuleSpec>, walk: FsWalk, d: Seq<char>, k: int)
    requires
        0 <= k < walk.dirs.len(),
    ensures
        below_accepted_dir(env, rules, walk, d, k + 1) == (below_accepted_dir(
            env,
            rules,
            walk,
            d,
            k,
        ) || (env.index_accepts(rules, walk.dirs@[k].str@) && ancestor_dir(
            d,
            walk.dirs@[k].str@,
        ))),
{
    if below_accepted_dir(env, rules, walk, d, k + 1) {
        let i = choose|i: int|
            0 <= i < k + 1 && i < walk.dirs.len() && env.index_accepts(
                rules,
                (#[trigger] walk.dirs@[i]).str@,
            ) && ancestor_dir(d, walk.dirs@[i].str@);
        if i < k {
            assert(below_accepted_dir(env, rules, walk, d, k));
        }
    }
    if below_accepted_dir(env, rules, walk, d, k) {
        let i = choose|i: int|
            0 <= i < k && i < walk.dirs.len() && env.index_accepts(
                rules,
                (#[trigger] walk.dirs@[i]).str@,
            ) && ancestor_dir(d, walk.dirs@[i].str@);
        assert(below_accepted_dir(env, rules, walk, d, k + 1));
    }
    if env.index_accepts(rules, walk.dirs@[k].str@) && ancestor_dir(d, walk.dirs@[k].str@) {
        assert(below_accepted_dir(env, rules, walk, d, k + 1));
    }
}

/// The indices of the accepted files among `files[..n]`, in order.
pub open spec fn accepted_indices(
    env: WalkEnvIndex,
    rules: Seq<RuleSpec>,
    files: Seq<PathNode>,
    n: int,
) -> Seq<int>
    decreases n,
{
    if n <= 0 {
        seq![]
    } else if env.index_accepts(rules, files[n - 1].str@) {
        accepted_indices(env, rules, files, n - 1).push(n - 1)
    } else {
        accepted_indices(env, rules, files, n - 1)
    }
}

/// What a query selects from a walk, before the per-file disk facts
/// (`is_binary`, `modified_at`) are read.
#[derive(Debug, Clone)]
pub struct QueryPlan {
    pub files: Vec<FileItem>,
    pub dirs: Vec<DirItem>,
}

/// Summing over more files never gives less.
pub proof fn lemma_size_below_monotonic(files: Seq<PathNode>, sizes: Seq<u64>, d: Seq<char>, m: int, n: int)
    requires
        m <= n,
    ensures
        0 <= size_below(files, sizes, d, m) <= size_below(files, sizes, d, n),
    decreases n - m,
{
    lemma_size_below_nonnegative(files, sizes, d, m);
    if m < n {
        lemma_size_below_monotonic(files, sizes, d, m, n - 1);
    }
}

/// Sizes are never negative.
proof fn lemma_size_below_nonnegative(files: Seq<PathNode>, sizes: Seq<u64>, d: Seq<char>, n: int)
    ensures
        0 <= size_below(files, sizes, d, n),
    decreases n,
{
    if n > 0 {
        lemma_size_below_nonnegative(files, sizes, d, n - 1);
    }
}

/// Every selected directory's total fits in a `u64`.
pub open spec fn dir_sizes_fit(
    env: WalkEnvIndex,
    rules: Seq<RuleSpec>,
    walk: FsWalk,
    keep_parent: bool,
    sizes: Seq<u64>,
) -> bool {
    forall|d: Seq<char>|
        selected_dir(env, rules, walk, keep_parent, d) ==> #[trigger] size_below(
            walk.files@,
            sizes,
            d,
            walk.files.len() as int,
        ) <= u64::MAX
}

/// The matched size of a directory never exceeds its real size: the
/// matched files below it are some of the files below it.
pub proof fn law_matched_within_real(
    env: WalkEnvIndex,
    rules: Seq<RuleSpec>,
    files: Seq<PathNode>,
    sizes: Seq<u64>,
    d: Seq<char>,
    n: int,
)
    ensures
        0 <= matched_size_below(env, rules, files, sizes, d, n) <= size_below(files, sizes, d, n),
    decreases n,
{
    if n > 0 {
        law_matched_within_real(env, rules, files, sizes, d, n - 1);
    }
}

/// A file is taken for binary when its first bytes (the first kilobyte,
/// as read by the caller) hold a zero byte.
pub fn holds_zero_byte(head: &[u8]) -> (b: bool)
    ensures
        b == exists|i: int| 0 <= i < head.len() && head[i] == 0,
{
    let mut i: usize = 0;
    while i < head.len()
        invariant
            i <= head.len(),
            forall|k: int| 0 <= k < i ==> head[k] != 0,
        decreases head.len() - i,
    {
        if head[i] == 0 {
            return true;
        }
        i = i + 1;
    }
    false
}

impl QueryPath {
    /// An empty query: no path (the working directory), no pattern
    /// (everything), default options.
    pub fn new() -> (q: Self)
        ensures
            q.paths@.len() == 0,
            q.patterns@.len() == 0,
            !q.options.keep_parent,
            !q.options.ignore_case,
    {
        QueryPath { paths: Vec::new(), patterns: Vec::new(), options: PathsOptions::new() }
    }

    /// The query with `paths` added to its scan targets.
    pub fn scan_at(self, paths: &[&str]) -> (q: Self)
        ensures
            string_views(q.paths@) == string_views(self.paths@) + str_views(paths@),
            q.patterns@ == self.patterns@,
            q.options == self.options,
    {
        let mut all = self.paths;
        let ghost start = string_views(all@);
        let mut i: usize = 0;
        while i < paths.len()
            invariant
                i <= paths.len(),
                string_views(all@) == start + str_views(paths@).take(i as int),
            decreases paths.len() - i,
        {
            let ghost before = all@;
            all.push(string_of(&chars_of(paths[i])));
            assert(string_views(all@) =~= string_views(before).push(paths@[i as int]@));
            assert(str_views(paths@).take(i + 1) =~= str_views(paths@).take(i as int).push(
                paths@[i as int]@,
            ));
            i = i + 1;
        }
        assert(str_views(paths@).take(paths.len() as int) =~= str_views(paths@));
        QueryPath { paths: all, patterns: self.patterns, options: self.options }
    }

    /// The query with `patterns` added to its patterns.
    pub fn match_pattern(self, patterns: &[&str]) -> (q: Self)
        ensures
            string_views(q.patterns@) == string_views(self.patterns@) + str_views(patterns@),
            q.paths@ == self.paths@,
            q.options == self.options,
    {
        let mut all = self.patterns;
        let ghost start = string_views(all@);
        let mut i: usize = 0;
        while i < patterns.len()
            invariant
                i <= patterns.len(),
                string_views(all@) == start + str_views(patterns@).take(i as int),
            decreases patterns.len() - i,
        {
            let ghost before = all@;
            all.push(string_of(&chars_of(patterns[i])));
            assert(string_views(all@) =~= string_views(before).push(patterns@[i as int]@));
            assert(str_views(patterns@).take(i + 1) =~= str_views(patterns@).take(i as int).push(
                patterns@[i as int]@,
            ));
            i = i + 1;
        }
        assert(str_views(patterns@).take(patterns.len() as int) =~= str_views(patterns@));
        QueryPath { paths: self.paths, patterns: all, options: self.options }
    }

    /// The query with all options replaced by `options`.
    pub fn options(self, options: PathsOptions) -> (q: Self)
        ensures
            q.options == options,
            q.paths@ == self.paths@,
            q.patterns@ == self.patterns@,
    {
        QueryPath { paths: self.paths, patterns: self.patterns, options }
    }

    /// The query with `keep_parent` set to `keep`.
    pub fn keep_parent(self, keep: bool) -> (q: Self)
        ensures
            q.options.keep_parent == keep,
            q.options.ignore_case == self.options.ignore_case,
            q.paths@ == self.paths@,
            q.patterns@ == self.patterns@,
    {
        let options = self.options.keep_parent(keep);
        QueryPath { paths: self.paths, patterns: self.patterns, options }
    }

    /// The query with `ignore_case` set to `ignore`.
    pub fn ignore_case(self, ignore: bool) -> (q: Self)
        ensures
            q.options.ignore_case == ignore,
            q.options.keep_parent == self.options.keep_parent,
            q.paths@ == self.paths@,
            q.patterns@ == self.patterns@,
    {
        let options = self.options.ignore_case(ignore);
        QueryPath { paths: self.paths, patterns: self.patterns, options }
    }

    /// The query's patterns, compiled with its `ignore_case` option (see
    /// `PathsPatterns::build`).
    pub fn pattern_set(&self) -> (r: Result<PathsPatterns, PatternError>)
        ensures
            ({
                let exp = expand_each(nonblank(string_views(self.patterns@)));
                &&& r is Ok <==> forall|i: int|
                    0 <= i < exp.len() ==> pattern_compiles(
                        #[trigger] exp[i],
                        self.options.ignore_case,
                    )
                &&& r matches Ok(ps) ==> {
                    &&& ps.raw_patterns() == nonblank(string_views(self.patterns@))
                    &&& ps.expanded_patterns() == exp
                    &&& ps.rules() == compile_all(exp, self.options.ignore_case)
                }
            }),
    {
        let mut texts: Vec<&str> = Vec::new();
        let mut i: usize = 0;
        while i < self.patterns.len()
            invariant
                i <= self.patterns.len(),
                str_views(texts@) == string_views(self.patterns@).take(i as int),
            decreases self.patterns.len() - i,
        {
            let ghost before = texts@;
            texts.push(self.patterns[i].as_str());
            assert(str_views(texts@) =~= str_views(before).push(self.patterns@[i as int]@));
            assert(string_views(self.patterns@).take(i + 1) =~= string_views(self.patterns@).take(
                i as int,
            ).push(self.patterns@[i as int]@));
            i = i + 1;
        }
        assert(string_views(self.patterns@).take(self.patterns.len() as int) =~= string_views(
            self.patterns@,
        ));
        PathsPatterns::build(texts.as_slice(), self.options.ignore_case)
    }
}

/// The texts of the accepted directories of `walk`, in text order.
fn accepted_walk_dirs(env: &WalkEnvIndex, patterns: &PathsPatterns, walk: &FsWalk) -> (keys: Vec<
    Vec<char>,
>)
    ensures
        strictly_sorted(key_views(keys@)),
        forall|d: Seq<char>|
            key_views(keys@).contains(d) <==> exists|i: int|
                0 <= i < walk.dirs.len() && (#[trigger] walk.dirs@[i]).str@ == d
                    && env.index_accepts(patterns.rules(), d),
{
    let mut keys: Vec<Vec<char>> = Vec::new();
    let mut i: usize = 0;
    while i < walk.dirs.len()
        invariant
            i <= walk.dirs.len(),
            strictly_sorted(key_views(keys@)),
            forall|d: Seq<char>|
                key_views(keys@).contains(d) <==> exists|j: int|
                    0 <= j < i && (#[trigger] walk.dirs@[j]).str@ == d && env.index_accepts(
                        patterns.rules(),
                        d,
                    ),
        decreases walk.dirs.len() - i,
    {
        let ghost before = key_views(keys@);
        let text = walk.dirs[i].str.as_str();
        if env.accepts(patterns, text) {
            insert_sorted(&mut keys, chars_of(text));
        }
        assert forall|d: Seq<char>|
            key_views(keys@).contains(d) <==> exists|j: int|
                0 <= j < i + 1 && (#[trigger] walk.dirs@[j]).str@ == d && env.index_accepts(
                    patterns.rules(),
                    d,
                ) by {
            assert(key_views(keys@).to_set().contains(d) <==> key_views(keys@).contains(d));
            assert(before.to_set().contains(d) <==> before.contains(d));
            if d == walk.dirs@[i as int].str@ && env.index_accepts(patterns.rules(), d) {
                assert(key_views(keys@).to_set().contains(d));
            }
        }
        i = i + 1;
    }
    keys
}

/// Adds to `keys` every indexed directory above the file text `f`.
fn add_ancestors(env: &WalkEnvIndex, keys: &mut Vec<Vec<char>>, f: &[char])
    requires
        strictly_sorted(key_views(old(keys)@)),
    ensures
        strictly_sorted(key_views(final(keys)@)),
        forall|d: Seq<char>|
            #![trigger key_views(final(keys)@).contains(d)]
            key_views(final(keys)@).contains(d) <==> (key_views(old(keys)@).contains(d) || (
            env.lists_dir(d) && ancestor_dir(d, f@))),
{
    let ghost start = key_views(keys@);
    let mut k: usize = f.len();
    while k > 1
        invariant
            k <= f.len(),
            strictly_sorted(key_views(keys@)),
            forall|d: Seq<char>|
                key_views(keys@).contains(d) <==> (start.contains(d) || (env.lists_dir(d)
                    && exists|j: int|
                    k <= j < f.len() && 0 < j && f@[j] == '/' && d == #[trigger] f@.take(j + 1))),
        decreases k,
    {
        k = k - 1;
        let ghost before = key_views(keys@);
        if f[k] == '/' {
            let cand = slice_chars(f, 0, k + 1);
            assert(cand@ =~= f@.take(k + 1));
            if env.has_dir(string_of(&cand).as_str()) {
                insert_sorted(keys, cand);
            }
        }
        assert forall|d: Seq<char>|
            key_views(keys@).contains(d) <==> (start.contains(d) || (env.lists_dir(d)
                && exists|j: int|
                k <= j < f.len() && 0 < j && f@[j] == '/' && d == #[trigger] f@.take(j + 1))) by {
            assert(key_views(keys@).to_set().contains(d) <==> key_views(keys@).contains(d));
            assert(before.to_set().contains(d) <==> before.contains(d));
            if exists|j: int|
                k <= j < f.len() && 0 < j && f@[j] == '/' && d == #[trigger] f@.take(j + 1) {
                let j = choose|j: int|
                    k <= j < f.len() && 0 < j && f@[j] == '/' && d == #[trigger] f@.take(j + 1);
                if j == k && env.lists_dir(d) {
                    assert(key_views(keys@).to_set().contains(d));
                }
            }
        }
    }
    assert forall|d: Seq<char>|
        key_views(keys@).contains(d) <==> (start.contains(d) || (env.lists_dir(d) && ancestor_dir(
            d,
            f@,
        ))) by {
        if ancestor_dir(d, f@) {
            let j = choose|j: int| 0 < j < f@.len() && f@[j] == '/' && d == #[trigger] f@.take(j + 1);
            assert(k <= j);
        }
    }
}

/// The total size of the files below `d`, and of the accepted ones.
fn sizes_below(
    env: &WalkEnvIndex,
    patterns: &PathsPatterns,
    walk: &FsWalk,
    sizes: &[u64],
    accepted: &Vec<bool>,
    d: &[char],
) -> (r: (u64, u64))
    requires
        sizes.len() == walk.files.len(),
        accepted.len() == walk.files.len(),
        forall|i: int|
            0 <= i < walk.files.len() ==> accepted@[i] == env.index_accepts(
                patterns.rules(),
                (#[trigger] walk.files@[i]).str@,
            ),
        size_below(walk.files@, sizes@, d@, walk.files.len() as int) <= u64::MAX,
    ensures
        r.0 == size_below(walk.files@, sizes@, d@, walk.files.len() as int),
        r.1 == matched_size_below(
            *env,
            patterns.rules(),
            walk.files@,
            sizes@,
            d@,
            walk.files.len() as int,
        ),
{
    let mut all_size: u64 = 0;
    let mut matched: u64 = 0;
    let mut i: usize = 0;
    while i < walk.files.len()
        invariant
            i <= walk.files.len(),
            sizes.len() == walk.files.len(),
            accepted.len() == walk.files.len(),
            forall|k: int|
                0 <= k < walk.files.len() ==> accepted@[k] == env.index_accepts(
                    patterns.rules(),
                    (#[trigger] walk.files@[k]).str@,
                ),
            size_below(walk.files@, sizes@, d@, walk.files.len() as int) <= u64::MAX,
            all_size == size_below(walk.files@, sizes@, d@, i as int),
            matched == matched_size_below(
                *env,
                patterns.rules(),
                walk.files@,
                sizes@,
                d@,
                i as int,
            ),
        decreases walk.files.len() - i,
    {
        proof {
            lemma_size_below_monotonic(walk.files@, sizes@, d@, i + 1, walk.files.len() as int);
            law_matched_within_real(*env, patterns.rules(), walk.files@, sizes@, d@, i + 1);
        }
        let f = chars_of(walk.files[i].str.as_str());
        if starts_with(&f, d) {
            all_size = all_size + sizes[i];
            if accepted[i] {
                matched = matched + sizes[i];
            }
        }
        i = i + 1;
    }
    (all_size, matched)
}

/// Whether the total size of the files below `d` fits in a `u64`.
fn dir_total_fits(walk: &FsWalk, sizes: &[u64], d: &[char]) -> (b: bool)
    requires
        sizes.len() == walk.files.len(),
    ensures
        b == (size_below(walk.files@, sizes@, d@, walk.files.len() as int) <= u64::MAX),
{
    let mut sum: u64 = 0;
    let mut i: usize = 0;
    while i < walk.files.len()
        invariant
            i <= walk.files.len(),
            sizes.len() == walk.files.len(),
            sum == size_below(walk.files@, sizes@, d@, i as int),
        decreases walk.files.len() - i,
    {
        let f = chars_of(walk.files[i].str.as_str());
        if starts_with(&f, d) {
            match sum.checked_add(sizes[i]) {
                Some(t) => {
                    sum = t;
                },
                None => {
                    proof {
                        lemma_size_below_monotonic(
                            walk.files@,
                            sizes@,
                            d@,
                            i + 1,
                            walk.files.len() as int,
                        );
                    }
                    return false;
                },
            }
        }
        i = i + 1;
    }
    true
}

/// What `QueryPath::plan` gives: the accepted files in walk order with
/// their sizes, and the selected directories (`selected_dir`) in text
/// order with the size of all files below each and of the accepted ones;
/// the disk facts `is_binary` and `modified_at` left unset.
pub open spec fn plan_result(
    env: WalkEnvIndex,
    rules: Seq<RuleSpec>,
    walk: FsWalk,
    keep_parent: bool,
    sizes: Seq<u64>,
    p: QueryPlan,
) -> bool {
    let idx = accepted_indices(env, rules, walk.files@, walk.files.len() as int);
    &&& p.files.len() == idx.len()
    &&& forall|k: int|
        0 <= k < p.files.len() ==> {
            &&& 0 <= idx[k] < walk.files.len()
            &&& (#[trigger] p.files@[k]).path@ == walk.files@[idx[k]].str@
            &&& p.files@[k].size == sizes[idx[k]]
            &&& !p.files@[k].is_binary
            &&& p.files@[k].modified_at is None
        }
    &&& strictly_sorted(p.dirs@.map_values(|x: DirItem| x.path@))
    &&& forall|d: Seq<char>|
        p.dirs@.map_values(|x: DirItem| x.path@).contains(d) <==> selected_dir(
            env,
            rules,
            walk,
            keep_parent,
            d,
        )
    &&& forall|k: int|
        0 <= k < p.dirs.len() ==> {
            &&& (#[trigger] p.dirs@[k]).real_size == size_below(
                walk.files@,
                sizes,
                p.dirs@[k].path@,
                walk.files.len() as int,
            )
            &&& p.dirs@[k].matched_size == matched_size_below(
                env,
                rules,
                walk.files@,
                sizes,
                p.dirs@[k].path@,
                walk.files.len() as int,
            )
            &&& p.dirs@[k].modified_at is None
        }
}

impl QueryPath {
/// The directories of the result (`selected_dir`), in text order,
/// `accepted[i]` telling whether `walk.files[i]` is accepted.
fn selected_keys(
    &self,
    env: &WalkEnvIndex,
    patterns: &PathsPatterns,
    walk: &FsWalk,
    accepted: &Vec<bool>,
) -> (keys: Vec<Vec<char>>)
    requires
accepted.len() == walk.files.len(),
forall|k: int|
    0 <= k < walk.files.len() ==> accepted@[k] == env.index_accepts(
        patterns.rules(),
        (#[trigger] walk.files@[k]).str@,
    ),
    ensures
strictly_sorted(key_views(keys@)),
forall|d: Seq<char>|
    #![trigger key_views(keys@).contains(d)]
    key_views(keys@).contains(d) <==> selected_dir(
        *env,
        patterns.rules(),
        *walk,
        self.options.keep_parent,
        d,
    ),
{
    let ghost rules = patterns.rules();
    let mut keys = accepted_walk_dirs(env, patterns, walk);
    if !self.options.keep_parent {
return keys;
    }
    let mut j: usize = 0;
    while j < walk.files.len()
invariant
    j <= walk.files.len(),
    accepted.len() == walk.files.len(),
    rules == patterns.rules(),
    forall|k: int|
        0 <= k < walk.files.len() ==> accepted@[k] == env.index_accepts(
            rules,
            (#[trigger] walk.files@[k]).str@,
        ),
    strictly_sorted(key_views(keys@)),
    forall|d: Seq<char>|
        #![trigger key_views(keys@).contains(d)]
        key_views(keys@).contains(d) <==> (accepted_walk_dir(*env, rules, *walk, d) || (
        env.lists_dir(d) && below_accepted_file(*env, rules, *walk, d, j as int))),
decreases walk.files.len() - j,
    {
let ghost before = key_views(keys@);
if accepted[j] {
    let f = chars_of(walk.files[j].str.as_str());
    add_ancestors(env, &mut keys, &f);
}
assert forall|d: Seq<char>|
    #![trigger key_views(keys@).contains(d)]
    key_views(keys@).contains(d) <==> (accepted_walk_dir(*env, rules, *walk, d) || (
    env.lists_dir(d) && below_accepted_file(*env, rules, *walk, d, j + 1))) by {
    lemma_below_file_step(*env, rules, *walk, d, j as int);
    assert(before.contains(d) == (accepted_walk_dir(*env, rules, *walk, d) || (
    env.lists_dir(d) && below_accepted_file(*env, rules, *walk, d, j as int))));
}
j = j + 1;
    }
    let mut k: usize = 0;
    while k < walk.dirs.len()
invariant
    k <= walk.dirs.len(),
    rules == patterns.rules(),
    self.options.keep_parent,
    strictly_sorted(key_views(keys@)),
    forall|d: Seq<char>|
        #![trigger key_views(keys@).contains(d)]
        key_views(keys@).contains(d) <==> (accepted_walk_dir(*env, rules, *walk, d) || (
        env.lists_dir(d) && (below_accepted_file(
            *env,
            rules,
            *walk,
            d,
            walk.files.len() as int,
        ) || below_accepted_dir(*env, rules, *walk, d, k as int)))),
decreases walk.dirs.len() - k,
    {
let ghost before = key_views(keys@);
let text = walk.dirs[k].str.as_str();
if env.accepts(patterns, text) {
    let f = chars_of(text);
    add_ancestors(env, &mut keys, &f);
}
assert forall|d: Seq<char>|
    #![trigger key_views(keys@).contains(d)]
    key_views(keys@).contains(d) <==> (accepted_walk_dir(*env, rules, *walk, d) || (
    env.lists_dir(d) && (below_accepted_file(
        *env,
        rules,
        *walk,
        d,
        walk.files.len() as int,
    ) || below_accepted_dir(*env, rules, *walk, d, k + 1)))) by {
    lemma_below_dir_step(*env, rules, *walk, d, k as int);
    assert(before.contains(d) == (accepted_walk_dir(*env, rules, *walk, d) || (
    env.lists_dir(d) && (below_accepted_file(
        *env,
        rules,
        *walk,
        d,
        walk.files.len() as int,
    ) || below_accepted_dir(*env, rules, *walk, d, k as int)))));
}
k = k + 1;
    }
    keys
}

/// Whether every directory that the query selects from the walk has a
/// total size (`sizes[i]` being the size of `walk.files[i]`) that fits
/// in a `u64`, as `plan` needs.
pub fn sizes_fit(&self, walk: &FsWalk, env: &WalkEnvIndex, patterns: &PathsPatterns, sizes: &[u64]) -> (b: bool)
    requires
sizes.len() == walk.files.len(),
    ensures
b == dir_sizes_fit(*env, patterns.rules(), *walk, self.options.keep_parent, sizes@),
{
    let ghost rules = patterns.rules();
    let mut accepted: Vec<bool> = Vec::new();
    let mut i: usize = 0;
    while i < walk.files.len()
invariant
    i <= walk.files.len(),
    accepted.len() == i,
    forall|k: int|
        0 <= k < i ==> accepted@[k] == env.index_accepts(
            patterns.rules(),
            (#[trigger] walk.files@[k]).str@,
        ),
decreases walk.files.len() - i,
    {
accepted.push(env.accepts(patterns, walk.files[i].str.as_str()));
i = i + 1;
    }
    let keys = self.selected_keys(env, patterns, walk, &accepted);
    let mut m: usize = 0;
    while m < keys.len()
invariant
    m <= keys.len(),
    sizes.len() == walk.files.len(),
    rules == patterns.rules(),
    forall|d: Seq<char>|
        #![trigger key_views(keys@).contains(d)]
        key_views(keys@).contains(d) <==> selected_dir(
            *env,
            rules,
            *walk,
            self.options.keep_parent,
            d,
        ),
    forall|k: int|
        0 <= k < m ==> size_below(
            walk.files@,
            sizes@,
            #[trigger] key_views(keys@)[k],
            walk.files.len() as int,
        ) <= u64::MAX,
decreases keys.len() - m,
    {
assert(key_views(keys@)[m as int] == keys@[m as int]@);
if !dir_total_fits(walk, sizes, &keys[m]) {
    assert(key_views(keys@).contains(keys@[m as int]@));
    return false;
}
m = m + 1;
    }
    assert forall|d: Seq<char>|
selected_dir(*env, rules, *walk, self.options.keep_parent, d) implies #[trigger] size_below(
walk.files@,
sizes@,
d,
walk.files.len() as int,
    ) <= u64::MAX by {
assert(key_views(keys@).contains(d));
let k = choose|k: int| 0 <= k < key_views(keys@).len() && key_views(keys@)[k] == d;
    }
    true
}

/// `plan`, when every selected directory's total fits in a `u64`
/// (`sizes_fit`); `None` otherwise.
pub fn plan_checked(&self, walk: &FsWalk, env: &WalkEnvIndex, patterns: &PathsPatterns, sizes: &[u64]) -> (p: Option<QueryPlan>)
    requires
sizes.len() == walk.files.len(),
    ensures
p is Some <==> dir_sizes_fit(*env, patterns.rules(), *walk, self.options.keep_parent, sizes@),
p matches Some(q) ==> plan_result(*env, patterns.rules(), *walk, self.options.keep_parent, sizes@, q),
{
    if self.sizes_fit(walk, env, patterns, sizes) {
Some(self.plan(walk, env, patterns, sizes))
    } else {
None
    }
}

/// Evaluates the query over a walk, `env` being its index and `sizes[i]`
/// the size of `walk.files[i]`: the accepted files in walk order, and
/// the selected directories (`selected_dir`) in text order, each with
/// the size of all files below it and of the accepted ones. What only
/// the disk knows (`is_binary`, `modified_at`) is left unset.
pub fn plan(&self, walk: &FsWalk, env: &WalkEnvIndex, patterns: &PathsPatterns, sizes: &[u64]) -> (p: QueryPlan)
    requires
sizes.len() == walk.files.len(),
dir_sizes_fit(*env, patterns.rules(), *walk, self.options.keep_parent, sizes@),
    ensures
plan_result(*env, patterns.rules(), *walk, self.options.keep_parent, sizes@, p),
{
    let ghost rules = patterns.rules();
    // 1. The accepted files.
    let mut files: Vec<FileItem> = Vec::new();
    let mut accepted: Vec<bool> = Vec::new();
    let mut i: usize = 0;
    while i < walk.files.len()
invariant
    i <= walk.files.len(),
    sizes.len() == walk.files.len(),
    rules == patterns.rules(),
    accepted.len() == i,
    forall|k: int|
        0 <= k < i ==> accepted@[k] == env.index_accepts(
            rules,
            (#[trigger] walk.files@[k]).str@,
        ),
    files.len() == accepted_indices(*env, rules, walk.files@, i as int).len(),
    forall|k: int|
        0 <= k < files.len() ==> {
    let idx = accepted_indices(*env, rules, walk.files@, i as int);
            &&& 0 <= idx[k] < i
            &&& (#[trigger] files@[k]).path@ == walk.files@[idx[k]].str@
            &&& files@[k].size == sizes@[idx[k]]
            &&& !files@[k].is_binary
            &&& files@[k].modified_at is None
        },
decreases walk.files.len() - i,
    {
let node = &walk.files[i];
let ok = env.accepts(patterns, node.str.as_str());
accepted.push(ok);
let ghost before = files@;
if ok {
    files.push(
        FileItem {
            path: node.str.clone(),
            size: sizes[i],
            is_binary: false,
            modified_at: None,
        },
    );
}
proof {
    let idx = accepted_indices(*env, rules, walk.files@, i + 1);
    let prev = accepted_indices(*env, rules, walk.files@, i as int);
    assert forall|k: int| 0 <= k < files.len() implies {
        &&& 0 <= idx[k] < i + 1
        &&& (#[trigger] files@[k]).path@ == walk.files@[idx[k]].str@
        &&& files@[k].size == sizes@[idx[k]]
        &&& !files@[k].is_binary
        &&& files@[k].modified_at is None
    } by {
        if k < before.len() {
            assert(files@[k] == before[k]);
            assert(idx[k] == prev[k]);
        }
    }
}
i = i + 1;
    }
    // 2. The selected directories.
    let keys = self.selected_keys(env, patterns, walk, &accepted);
    // 3. Their sizes.
    let mut dirs: Vec<DirItem> = Vec::new();
    let mut m: usize = 0;
    while m < keys.len()
invariant
    m <= keys.len(),
    sizes.len() == walk.files.len(),
    accepted.len() == walk.files.len(),
    rules == patterns.rules(),
    forall|k: int|
        0 <= k < walk.files.len() ==> accepted@[k] == env.index_accepts(
            rules,
            (#[trigger] walk.files@[k]).str@,
        ),
    dir_sizes_fit(*env, rules, *walk, self.options.keep_parent, sizes@),
    forall|d: Seq<char>|
        #![trigger key_views(keys@).contains(d)]
        key_views(keys@).contains(d) <==> selected_dir(
            *env,
            rules,
            *walk,
            self.options.keep_parent,
            d,
        ),
    dirs@.map_values(|x: DirItem| x.path@) == key_views(keys@).take(m as int),
    forall|k: int|
        0 <= k < dirs.len() ==> {
            &&& (#[trigger] dirs@[k]).real_size == size_below(
                walk.files@,
                sizes@,
                dirs@[k].path@,
                walk.files.len() as int,
            )
            &&& dirs@[k].matched_size == matched_size_below(
                *env,
                rules,
                walk.files@,
                sizes@,
                dirs@[k].path@,
                walk.files.len() as int,
            )
            &&& dirs@[k].modified_at is None
        },
decreases keys.len() - m,
    {
assert(key_views(keys@).contains(keys@[m as int]@)) by {
    assert(key_views(keys@)[m as int] == keys@[m as int]@);
}
let (real_size, matched_size) = sizes_below(env, patterns, walk, sizes, &accepted, &keys[m]);
let ghost before = dirs@;
dirs.push(
    DirItem { path: string_of(&keys[m]), real_size, matched_size, modified_at: None },
);
assert(dirs@.map_values(|x: DirItem| x.path@) =~= before.map_values(|x: DirItem| x.path@).push(
    keys@[m as int]@,
));
assert(key_views(keys@).take(m + 1) =~= key_views(keys@).take(m as int).push(
    keys@[m as int]@,
));
assert forall|k: int| 0 <= k < dirs.len() implies {
    &&& (#[trigger] dirs@[k]).real_size == size_below(
        walk.files@,
        sizes@,
        dirs@[k].path@,
        walk.files.len() as int,
    )
    &&& dirs@[k].matched_size == matched_size_below(
        *env,
        rules,
        walk.files@,
        sizes@,
        dirs@[k].path@,
        walk.files.len() as int,
    )
    &&& dirs@[k].modified_at is None
} by {
    if k < before.len() {
        assert(dirs@[k] == before[k]);
    }
}
m = m + 1;
    }
    assert(key_views(keys@).take(keys.len() as int) =~= key_views(keys@));
    QueryPlan { files, dirs }
}
}

impl QueryPath {
    /// The report of a finished query: where it ran from, how its targets
    /// are reached, its patterns, how much the walk met, when it ran, and
    /// what it selected.
    pub fn report(
        &self,
        entry: &PathsEntry,
        walk: &FsWalk,
        files: Vec<FileItem>,
        dirs: Vec<DirItem>,
        started_at_ms: u64,
        finished_at_ms: u64,
        duration_ms: u64,
    ) -> (r: QueryResults)
        ensures
            r.execution_dir@ == entry.execution_dir.str@,
            string_views(r.scanned_paths@) == entry.targets@.map_values(
                |t: AnchoredPath| t.relative_path@,
            ),
            string_views(r.patterns@) == string_views(self.patterns@),
            r.scanned_files == walk.files.len(),
            r.scanned_dirs == walk.dirs.len(),
            r.started_at_ms == started_at_ms,
            r.finished_at_ms == finished_at_ms,
            r.duration_ms == duration_ms,
            r.files@ == files@,
            r.dirs@ == dirs@,
    {
        let mut scanned_paths: Vec<String> = Vec::new();
        let mut i: usize = 0;
        while i < entry.targets.len()
            invariant
                i <= entry.targets.len(),
                string_views(scanned_paths@) == entry.targets@.map_values(
                    |t: AnchoredPath| t.relative_path@,
                ).take(i as int),
            decreases entry.targets.len() - i,
        {
            let ghost before = scanned_paths@;
            scanned_paths.push(entry.targets[i].relative_path.clone());
            assert(string_views(scanned_paths@) =~= string_views(before).push(
                entry.targets@[i as int].relative_path@,
            ));
            assert(entry.targets@.map_values(|t: AnchoredPath| t.relative_path@).take(i + 1)
                =~= entry.targets@.map_values(|t: AnchoredPath| t.relative_path@).take(
                i as int,
            ).push(entry.targets@[i as int].relative_path@));
            i = i + 1;
        }
        assert(entry.targets@.map_values(|t: AnchoredPath| t.relative_path@).take(
            entry.targets.len() as int,
        ) =~= entry.targets@.map_values(|t: AnchoredPath| t.relative_path@));
        let mut patterns: Vec<String> = Vec::new();
        let mut j: usize = 0;
        while j < self.patterns.len()
            invariant
                j <= self.patterns.len(),
                string_views(patterns@) == string_views(self.patterns@).take(j as int),
            decreases self.patterns.len() - j,
        {
            let ghost before = patterns@;
            patterns.push(self.patterns[j].clone());
            assert(string_views(patterns@) =~= string_views(before).push(self.patterns@[j as int]@));
            assert(string_views(self.patterns@).take(j + 1) =~= string_views(self.patterns@).take(
                j as int,
            ).push(self.patterns@[j as int]@));
            j = j + 1;
        }
        assert(string_views(self.patterns@).take(self.patterns.len() as int) =~= string_views(
            self.patterns@,
        ));
        QueryResults {
            execution_dir: entry.execution_dir.str.clone(),
            scanned_paths,
            patterns,
            scanned_files: walk.files.len(),
            scanned_dirs: walk.dirs.len(),
            started_at_ms,
            finished_at_ms,
            duration_ms,
            files,
            dirs,
        }
    }
}

// ---------------------------------------------------------------------------
// Laws of the query
// ---------------------------------------------------------------------------

/// Without patterns every file of the walk is selected, in walk order.
pub proof fn law_no_pattern_selects_every_file(env: WalkEnvIndex, files: Seq<PathNode>, n: int)
    requires
        0 <= n,
    ensures
        accepted_indices(env, Seq::<RuleSpec>::empty(), files, n) == Seq::new(n as nat, |i: int| i),
    decreases n,
{
    if n > 0 {
        law_no_pattern_selects_every_file(env, files, n - 1);
        assert(env.index_accepts(Seq::<RuleSpec>::empty(), files[n - 1].str@));
        assert(Seq::new((n - 1) as nat, |i: int| i).push(n - 1) =~= Seq::new(n as nat, |i: int| i));
    }
}

/// Keeping parents only adds directories: whatever is selected without it
/// is selected with it.
pub proof fn law_keep_parent_only_adds(env: WalkEnvIndex, rules: Seq<RuleSpec>, walk: FsWalk, d: Seq<char>)
    ensures
        selected_dir(env, rules, walk, false, d) ==> selected_dir(env, rules, walk, true, d),
{
}

/// With parents kept, every indexed directory above an accepted file is
/// selected.
pub proof fn law_parents_of_matches_kept(
    env: WalkEnvIndex,
    rules: Seq<RuleSpec>,
    walk: FsWalk,
    i: int,
    d: Seq<char>,
)
    requires
        0 <= i < walk.files.len(),
        env.index_accepts(rules, walk.files@[i].str@),
        ancestor_dir(d, walk.files@[i].str@),
        env.lists_dir(d),
    ensures
        selected_dir(env, rules, walk, true, d),
{
    assert(below_accepted_file(env, rules, walk, d, walk.files.len() as int));
}

/// With parents kept, every indexed directory above an accepted directory
/// is selected: no accepted directory is left without its parents.
pub proof fn law_parents_of_matched_dirs_kept(
    env: WalkEnvIndex,
    rules: Seq<RuleSpec>,
    walk: FsWalk,
    i: int,
    d: Seq<char>,
)
    requires
        0 <= i < walk.dirs.len(),
        env.index_accepts(rules, walk.dirs@[i].str@),
        ancestor_dir(d, walk.dirs@[i].str@),
        env.lists_dir(d),
    ensures
        selected_dir(env, rules, walk, true, d),
{
    assert(below_accepted_dir(env, rules, walk, d, walk.dirs.len() as int));
}

/// Without kept parents, a selected directory is one of the walk's
/// directories that the patterns accept.
pub proof fn law_selected_dirs_without_parents(env: WalkEnvIndex, rules: Seq<RuleSpec>, walk: FsWalk, d: Seq<char>)
    ensures
        selected_dir(env, rules, walk, false, d) <==> (node_texts(walk.dirs@).contains(d)
            && env.index_accepts(rules, d)),
{
    if node_texts(walk.dirs@).contains(d) {
        let i = choose|i: int| 0 <= i < node_texts(walk.dirs@).len() && node_texts(walk.dirs@)[i] == d;
        assert(walk.dirs@[i].str@ == d);
    }
    if selected_dir(env, rules, walk, false, d) {
        let i = choose|i: int|
            0 <= i < walk.dirs.len() && (#[trigger] walk.dirs@[i]).str@ == d && env.index_accepts(
                rules,
                d,
            );
        assert(node_texts(walk.dirs@)[i] == d);
    }
}
} // verus!
