//! The raw result of walking the scan targets: the files and directories
//! found, in text order without duplicates, with counters.
//!
//! Reading the disk is not done here: the walk reports one `WalkRecord`
//! per entry, and `FsWalk::scan` decides what becomes of each.
use vstd::prelude::*;
use crate::order::{insert_sorted, lex_lt, strictly_sorted};
use crate::paths_entry::{normalize_path, normalized, PathNode};
use crate::text::{
    has_prefix, has_suffix,
    chars_of, push_all, string_of, strip_leading, strip_leading_at, strip_trailing_char,
    strip_trailing_char_chars, slice_chars,
};

verus! {

/// Counters of the raw walk (before any pattern is applied).
#[derive(Debug, Clone, Copy, PartialEq, Eq, Structural)]
pub struct FsWalkStat {
    pub count_files: usize,
    pub count_dirs: usize,
    pub count_empty_dirs: usize,
    pub count_empty_files: usize,
}

impl Default for FsWalkStat {
    fn default() -> (s: Self)
        ensures
            s.count_files == 0,
            s.count_dirs == 0,
            s.count_empty_dirs == 0,
            s.count_empty_files == 0,
    {
        FsWalkStat { count_files: 0, count_dirs: 0, count_empty_dirs: 0, count_empty_files: 0 }
    }
}

/// One entry met by the directory walk.
#[derive(Debug, Clone)]
pub struct WalkRecord {
    /// Depth below the walked target (0 is the target itself).
    pub depth: usize,
    /// The entry is a symbolic link.
    pub is_symlink: bool,
    /// The entry is a directory.
    pub is_dir: bool,
    /// The directory has no entry, or the file has no byte.
    pub is_empty: bool,
    /// The entry's path inside the working directory, or `None` when it
    /// lies outside it.
    pub inside: Option<String>,
}

/// The walk's result.
#[derive(Debug, Clone)]
pub struct FsWalk {
    pub files: Vec<PathNode>,
    pub dirs: Vec<PathNode>,
    pub stat: FsWalkStat,
}

/// The entry counts: not the target itself, not a link, and inside the
/// working directory.
pub open spec fn admitted(r: WalkRecord) -> bool {
    r.depth > 0 && !r.is_symlink && r.inside is Some
}

/// The text recorded for an admitted entry: `./<path>` for a file and
/// `./<path>/` for a directory, `<path>` being the normalised relative path
/// without leading `./` groups (and, for a directory, trailing slashes).
pub open spec fn record_text(r: WalkRecord) -> Seq<char> {
    let clean = strip_leading(normalized(r.inside.unwrap()@), seq!['.', '/']);
    if r.is_dir {
        seq!['.', '/'] + strip_trailing_char(clean, '/') + seq!['/']
    } else {
        seq!['.', '/'] + clean
    }
}

/// The nodes made of the admitted entries of kind `dir`, in walk order.
pub open spec fn walk_nodes(recs: Seq<WalkRecord>, dir: bool) -> Seq<(Seq<char>, Seq<char>)>
    decreases recs.len(),
{
    if recs.len() == 0 {
        seq![]
    } else {
        let r = recs.last();
        let earlier = walk_nodes(recs.drop_last(), dir);
        if admitted(r) && r.is_dir == dir {
            earlier.push((record_text(r), normalized(record_text(r))))
        } else {
            earlier
        }
    }
}

/// How many admitted entries are of kind `dir` (and empty, if
/// `empty_only`).
pub open spec fn walk_count(recs: Seq<WalkRecord>, dir: bool, empty_only: bool) -> nat
    decreases recs.len(),
{
    if recs.len() == 0 {
        0
    } else {
        let r = recs.last();
        walk_count(recs.drop_last(), dir, empty_only) + if admitted(r) && r.is_dir == dir && (
        !empty_only || r.is_empty) {
            1nat
        } else {
            0nat
        }
    }
}

/// The normalised texts of nodes.
pub open spec fn node_texts(v: Seq<PathNode>) -> Seq<Seq<char>> {
    v.map_values(|n: PathNode| n.str@)
}

/// The views of nodes.
pub open spec fn node_views(v: Seq<PathNode>) -> Seq<(Seq<char>, Seq<char>)> {
    v.map_values(|n: PathNode| n@)
}

/// `nodes` holds, in strictly increasing text order, one node for each
/// normalised text among `cands`, each of them one of `cands`.
pub open spec fn sorted_nodes_of(nodes: Seq<PathNode>, cands: Seq<(Seq<char>, Seq<char>)>) -> bool {
    &&& strictly_sorted(node_texts(nodes))
    &&& forall|i: int| 0 <= i < nodes.len() ==> cands.contains(#[trigger] nodes[i]@)
    &&& forall|j: int| 0 <= j < cands.len() ==> text_listed(nodes, (#[trigger] cands[j]).1)
}

/// Some node has the normalised text `t`.
pub open spec fn text_listed(nodes: Seq<PathNode>, t: Seq<char>) -> bool {
    exists|i: int| 0 <= i < nodes.len() && (#[trigger] nodes[i]).str@ == t
}

impl FsWalk {
    /// The walk is in text order without duplicates, as `scan` makes it.
    pub open spec fn well_formed(&self) -> bool {
        strictly_sorted(node_texts(self.files@)) && strictly_sorted(node_texts(self.dirs@))
    }

    /// The text of an admitted entry.
    fn entry_text(inside: &str, is_dir: bool) -> (t: Vec<char>)
        ensures
            t@ == (if is_dir {
                seq!['.', '/'] + strip_trailing_char(
                    strip_leading(normalized(inside@), seq!['.', '/']),
                    '/',
                ) + seq!['/']
            } else {
                seq!['.', '/'] + strip_leading(normalized(inside@), seq!['.', '/'])
            }),
    {
        let norm = chars_of(normalize_path(inside).as_str());
        let dot: Vec<char> = vec!['.', '/'];
        assert(dot@ =~= seq!['.', '/']);
        let start = strip_leading_at(&norm, &dot);
        let clean = slice_chars(&norm, start, norm.len());
        assert(clean@ =~= strip_leading(normalized(inside@), seq!['.', '/']));
        let mut t: Vec<char> = Vec::new();
        t.push('.');
        t.push('/');
        if is_dir {
            let trimmed = strip_trailing_char_chars(&clean, '/');
            push_all(&mut t, &trimmed);
            t.push('/');
        } else {
            push_all(&mut t, &clean);
        }
        assert(t@ =~= (if is_dir {
            seq!['.', '/'] + strip_trailing_char(clean@, '/') + seq!['/']
        } else {
            seq!['.', '/'] + clean@
        }));
        t
    }

    /// Adds `node` to `nodes` (kept in text order, `keys` holding their
    /// texts) unless a node with its text is there.
    fn add_node(
        nodes: &mut Vec<PathNode>,
        keys: &mut Vec<Vec<char>>,
        node: PathNode,
        Ghost(cands): Ghost<Seq<(Seq<char>, Seq<char>)>>,
    )
        requires
            old(keys)@.map_values(|x: Vec<char>| x@) == node_texts(old(nodes)@),
            sorted_nodes_of(old(nodes)@, cands),
        ensures
            final(keys)@.map_values(|x: Vec<char>| x@) == node_texts(final(nodes)@),
            sorted_nodes_of(final(nodes)@, cands.push(node@)),
    {
        let ghost old_nodes = nodes@;
        let ghost new_cands = cands.push(node@);
        let key = chars_of(node.str.as_str());
        assert(keys@.len() == nodes@.len()) by {
            assert(keys@.map_values(|x: Vec<char>| x@).len() == node_texts(nodes@).len());
        }
        let (pos, inserted) = insert_sorted(keys, key);
        if inserted {
            nodes.insert(pos, node);
            assert(node_texts(nodes@) =~= node_texts(old_nodes).insert(pos as int, node.str@));
        }
        assert(keys@.map_values(|x: Vec<char>| x@) =~= node_texts(nodes@));
        assert forall|i: int| 0 <= i < nodes.len() implies new_cands.contains(
            #[trigger] nodes@[i]@,
        ) by {
            if inserted && i == pos {
                assert(new_cands[cands.len() as int] == node@);
            } else {
                let k = if inserted && i > pos {
                    i - 1
                } else {
                    i
                };
                assert(nodes@[i] == old_nodes[k]);
                assert(cands.contains(old_nodes[k]@));
                let m = choose|m: int| 0 <= m < cands.len() && cands[m] == old_nodes[k]@;
                assert(new_cands[m] == old_nodes[k]@);
            }
        }
        assert forall|j: int| 0 <= j < new_cands.len() implies text_listed(
            nodes@,
            (#[trigger] new_cands[j]).1,
        ) by {
            if j == cands.len() {
                assert(new_cands[j] == node@);
                if inserted {
                    assert(nodes@[pos as int].str@ == new_cands[j].1);
                } else {
                    assert(nodes@[pos as int].str@ == node_texts(old_nodes)[pos as int]);
                    assert(nodes@[pos as int].str@ == new_cands[j].1);
                }
            } else {
                assert(new_cands[j] == cands[j]);
                assert(text_listed(old_nodes, cands[j].1));
                let i = choose|i: int|
                    0 <= i < old_nodes.len() && (#[trigger] old_nodes[i]).str@ == cands[j].1;
                if inserted && i >= pos {
                    assert(nodes@[i + 1] == old_nodes[i]);
                    assert(nodes@[i + 1].str@ == new_cands[j].1);
                } else {
                    assert(nodes@[i] == old_nodes[i]);
                    assert(nodes@[i].str@ == new_cands[j].1);
                }
            }
        }
        assert(sorted_nodes_of(nodes@, new_cands));
    }

    /// Builds the walk from its entries: the target itself, links and
    /// entries outside the working directory are skipped; the others are
    /// counted and recorded (`record_text`), files and directories apart,
    /// each list in text order with one node per text.
    pub fn scan(records: Vec<WalkRecord>) -> (w: FsWalk)
        ensures
            sorted_nodes_of(w.files@, walk_nodes(records@, false)),
            sorted_nodes_of(w.dirs@, walk_nodes(records@, true)),
            w.well_formed(),
            w.stat.count_files == walk_count(records@, false, false),
            w.stat.count_dirs == walk_count(records@, true, false),
            w.stat.count_empty_files == walk_count(records@, false, true),
            w.stat.count_empty_dirs == walk_count(records@, true, true),
    {
        let mut files: Vec<PathNode> = Vec::new();
        let mut dirs: Vec<PathNode> = Vec::new();
        let mut file_keys: Vec<Vec<char>> = Vec::new();
        let mut dir_keys: Vec<Vec<char>> = Vec::new();
        let mut count_files: usize = 0;
        let mut count_dirs: usize = 0;
        let mut count_empty_dirs: usize = 0;
        let mut count_empty_files: usize = 0;
        let mut i: usize = 0;
        while i < records.len()
            invariant
                i <= records.len(),
                file_keys@.map_values(|x: Vec<char>| x@) == node_texts(files@),
                dir_keys@.map_values(|x: Vec<char>| x@) == node_texts(dirs@),
                sorted_nodes_of(files@, walk_nodes(records@.take(i as int), false)),
                sorted_nodes_of(dirs@, walk_nodes(records@.take(i as int), true)),
                count_files == walk_count(records@.take(i as int), false, false),
                count_dirs == walk_count(records@.take(i as int), true, false),
                count_empty_files == walk_count(records@.take(i as int), false, true),
                count_empty_dirs == walk_count(records@.take(i as int), true, true),
                count_files <= i,
                count_dirs <= i,
                count_empty_files <= i,
                count_empty_dirs <= i,
            decreases records.len() - i,
        {
            let r = &records[i];
            let ghost t = records@.take(i + 1);
            assert(t.drop_last() =~= records@.take(i as int));
            assert(t.last() == *r);
            if r.depth > 0 && !r.is_symlink {
                match &r.inside {
                    Some(inside) => {
                        let text = Self::entry_text(inside.as_str(), r.is_dir);
                        assert(text@ == record_text(*r));
                        let node = PathNode::new(string_of(&text));
                        if r.is_dir {
                            count_dirs = count_dirs + 1;
                            if r.is_empty {
                                count_empty_dirs = count_empty_dirs + 1;
                            }
                            Self::add_node(
                                &mut dirs,
                                &mut dir_keys,
                                node,
                                Ghost(walk_nodes(records@.take(i as int), true)),
                            );
                        } else {
                            count_files = count_files + 1;
                            if r.is_empty {
                                count_empty_files = count_empty_files + 1;
                            }
                            Self::add_node(
                                &mut files,
                                &mut file_keys,
                                node,
                                Ghost(walk_nodes(records@.take(i as int), false)),
                            );
                        }
                    },
                    None => {},
                }
            }
            i = i + 1;
        }
        assert(records@.take(records.len() as int) =~= records@);
        FsWalk {
            files,
            dirs,
            stat: FsWalkStat { count_files, count_dirs, count_empty_dirs, count_empty_files },
        }
    }
}


// ---------------------------------------------------------------------------
// Laws
// ---------------------------------------------------------------------------

/// One node per admitted entry of the kind.
proof fn lemma_nodes_match_count(recs: Seq<WalkRecord>, dir: bool)
    ensures
        walk_nodes(recs, dir).len() == walk_count(recs, dir, false),
    decreases recs.len(),
{
    if recs.len() > 0 {
        lemma_nodes_match_count(recs.drop_last(), dir);
    }
}

/// The empty entries are some of the entries.
proof fn lemma_empty_within_all(recs: Seq<WalkRecord>, dir: bool)
    ensures
        walk_count(recs, dir, true) <= walk_count(recs, dir, false),
    decreases recs.len(),
{
    if recs.len() > 0 {
        lemma_empty_within_all(recs.drop_last(), dir);
    }
}

/// The counters never fall below what is listed: a walk lists each text
/// once while it counts every admitted entry, and the empty entries are
/// counted among all entries.
pub proof fn law_listed_within_counted(nodes: Seq<PathNode>, recs: Seq<WalkRecord>, dir: bool)
    requires
        sorted_nodes_of(nodes, walk_nodes(recs, dir)),
    ensures
        nodes.len() <= walk_count(recs, dir, false),
        walk_count(recs, dir, true) <= walk_count(recs, dir, false),
{
    let cands = walk_nodes(recs, dir);
    let v = node_views(nodes);
    assert(v.no_duplicates()) by {
        assert forall|i: int, j: int|
            0 <= i < v.len() && 0 <= j < v.len() && i != j implies v[i] != v[j] by {
            let t = node_texts(nodes);
            if v[i] == v[j] {
                assert(t[i] == v[i].1);
                assert(t[j] == v[j].1);
                crate::order::lemma_lex_irreflexive(t[i]);
                if i < j {
                    assert(lex_lt(t[i], t[j]));
                } else {
                    assert(lex_lt(t[j], t[i]));
                }
            }
        }
    }
    v.unique_seq_to_set();
    assert(v.to_set().subset_of(cands.to_set())) by {
        assert forall|x| v.to_set().contains(x) implies cands.to_set().contains(x) by {
            let i = choose|i: int| 0 <= i < v.len() && v[i] == x;
            assert(v[i] == nodes[i]@);
            assert(cands.contains(nodes[i]@));
        }
    }
    vstd::seq_lib::seq_to_set_is_finite(cands);
    vstd::set_lib::lemma_len_subset(v.to_set(), cands.to_set());
    cands.lemma_cardinality_of_set();
    lemma_nodes_match_count(recs, dir);
    lemma_empty_within_all(recs, dir);
}

/// The text recorded for an entry begins with `./`, and for a directory
/// ends with `/`.
pub proof fn law_record_text_shape(r: WalkRecord)
    ensures
        has_prefix(record_text(r), seq!['.', '/']),
        r.is_dir ==> has_suffix(record_text(r), seq!['/']),
{
    let t = record_text(r);
    assert(t.subrange(0, 2) =~= seq!['.', '/']);
    if r.is_dir {
        assert(t.subrange(t.len() - 1, t.len() as int) =~= seq!['/']);
    }
}

/// The counters count records: `count_dirs` (`count_files`) is the number
/// of admitted directory (file) records, and `count_empty_dirs`
/// (`count_empty_files`) the number of those that are empty.
pub proof fn law_counts_are_record_counts(recs: Seq<WalkRecord>)
    ensures
        walk_count(recs, true, false) == recs.filter(|r: WalkRecord| admitted(r) && r.is_dir).len(),
        walk_count(recs, false, false) == recs.filter(|r: WalkRecord| admitted(r) && !r.is_dir).len(),
        walk_count(recs, true, true) == recs.filter(
            |r: WalkRecord| admitted(r) && r.is_dir && r.is_empty,
        ).len(),
        walk_count(recs, false, true) == recs.filter(
            |r: WalkRecord| admitted(r) && !r.is_dir && r.is_empty,
        ).len(),
    decreases recs.len(),
{
    reveal(Seq::filter);
    if recs.len() > 0 {
        law_counts_are_record_counts(recs.drop_last());
    }
}
} // verus!
