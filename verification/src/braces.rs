//! Alternatives in braces: `pre{a|b}post` stands for `prea post` and
//! `pre b post`. The innermost group closed first is expanded first, and
//! each variant is expanded again until no group is left.
use vstd::prelude::*;
use crate::text::{
    chars_of, string_of, string_views,
    char_vec_views, copy_chars, count_char, find_char, first_index_of, has_char, last_index_of,
    lemma_count_concat, lemma_count_zero, lemma_first_index_of, lemma_last_index_of, push_all,
    rfind_char, slice_chars, split_on,
};

verus! {

/// Total number of `c` over all pieces.
pub open spec fn total_count(pieces: Seq<Seq<char>>, c: char) -> nat
    decreases pieces.len(),
{
    if pieces.len() == 0 {
        0
    } else {
        total_count(pieces.drop_last(), c) + count_char(pieces.last(), c)
    }
}

/// The expansion of every alternative of `s`.
pub open spec fn expand_braces(s: Seq<char>) -> Seq<Seq<char>>
    decreases count_char(s, '}'), 0nat, 0nat,
{
    let end = first_index_of(s, '}');
    if end < 0 || end >= s.len() {
        seq![s]
    } else {
        let start = last_index_of(s.take(end), '{');
        if start < 0 || start >= end {
            seq![s]
        } else {
            proof {
                lemma_group_counts(s, start, end);
            }
            expand_options(
                s.take(start),
                split_on(s.subrange(start + 1, end), '|'),
                s.skip(end + 1),
            )
        }
    }
}

/// The expansions of `prefix + o + suffix` for every option `o`, in order.
pub open spec fn expand_options(prefix: Seq<char>, opts: Seq<Seq<char>>, suffix: Seq<char>) -> Seq<
    Seq<char>,
>
    decreases count_char(prefix, '}') + count_char(suffix, '}') + total_count(opts, '}'), 1nat,
        opts.len(),
{
    if opts.len() == 0 {
        seq![]
    } else {
        proof {
            lemma_count_concat(prefix, opts.last(), '}');
            lemma_count_concat(prefix + opts.last(), suffix, '}');
        }
        expand_options(prefix, opts.drop_last(), suffix) + expand_braces(
            prefix + opts.last() + suffix,
        )
    }
}

/// Every piece of a split of `m` lacks what `m` lacks.
pub proof fn lemma_split_pieces_lack(m: Seq<char>, c: char, x: char)
    requires
        !has_char(m, x),
    ensures
        forall|i: int| 0 <= i < split_on(m, c).len() ==> !has_char(#[trigger] split_on(m, c)[i], x),
    decreases m.len(),
{
    let i = first_index_of(m, c);
    lemma_first_index_of(m, c);
    if i < 0 || i >= m.len() {
    } else {
        let rest = m.skip(i + 1);
        assert(!has_char(rest, x)) by {
            assert forall|j: int| 0 <= j < rest.len() implies rest[j] != x by {
                assert(rest[j] == m[i + 1 + j]);
            }
        }
        lemma_split_pieces_lack(rest, c, x);
        assert forall|k: int| 0 <= k < split_on(m, c).len() implies !has_char(
            #[trigger] split_on(m, c)[k],
            x,
        ) by {
            if k == 0 {
                let p = m.take(i);
                assert(split_on(m, c)[0] == p);
                assert forall|j: int| 0 <= j < p.len() implies p[j] != x by {
                    assert(p[j] == m[j]);
                }
            } else {
                assert(split_on(m, c)[k] == split_on(rest, c)[k - 1]);
            }
        }
    }
}

/// Pieces that lack `c` count no `c`.
pub proof fn lemma_total_count_zero(pieces: Seq<Seq<char>>, c: char)
    requires
        forall|i: int| 0 <= i < pieces.len() ==> !has_char(#[trigger] pieces[i], c),
    ensures
        total_count(pieces, c) == 0,
    decreases pieces.len(),
{
    if pieces.len() > 0 {
        lemma_total_count_zero(pieces.drop_last(), c);
        let l = pieces.last();
        assert(!has_char(pieces[pieces.len() - 1], c));
        lemma_count_zero(l, c);
    }
}

/// The group `s[start..=end]` found by `expand_braces`: the text before it
/// and inside it holds no `}`, and the text after it holds one `}` less
/// than `s`.
pub proof fn lemma_group_counts(s: Seq<char>, start: int, end: int)
    requires
        end == first_index_of(s, '}'),
        0 <= start < end < s.len(),
    ensures
        count_char(s.take(start), '}') == 0,
        !has_char(s.subrange(start + 1, end), '}'),
        total_count(split_on(s.subrange(start + 1, end), '|'), '}') == 0,
        count_char(s.skip(end + 1), '}') + 1 == count_char(s, '}'),
{
    lemma_first_index_of(s, '}');
    let pre = s.take(start);
    assert forall|j: int| 0 <= j < pre.len() implies pre[j] != '}' by {
        assert(pre[j] == s[j]);
    }
    lemma_count_zero(pre, '}');
    let mid = s.subrange(start + 1, end);
    assert forall|j: int| 0 <= j < mid.len() implies mid[j] != '}' by {
        assert(mid[j] == s[start + 1 + j]);
    }
    lemma_split_pieces_lack(mid, '|', '}');
    lemma_total_count_zero(split_on(mid, '|'), '}');
    let head = s.take(end);
    assert forall|j: int| 0 <= j < head.len() implies head[j] != '}' by {
        assert(head[j] == s[j]);
    }
    lemma_count_zero(head, '}');
    let one = seq![s[end]];
    assert(count_char(one, '}') == 1) by {
        reveal_with_fuel(count_char, 2);
        assert(one.drop_last() =~= Seq::<char>::empty());
    }
    lemma_count_concat(head, one, '}');
    lemma_count_concat(head + one, s.skip(end + 1), '}');
    assert(head + one + s.skip(end + 1) =~= s);
}

/// The pieces of `s` between the occurrences of `c`.
pub fn split_chars(s: &[char], c: char) -> (r: Vec<Vec<char>>)
    ensures
        char_vec_views(r@) == split_on(s@, c),
{
    let mut r: Vec<Vec<char>> = Vec::new();
    let mut start: usize = 0;
    assert(s@.skip(0) =~= s@);
    assert(char_vec_views(r@) =~= Seq::<Seq<char>>::empty());
    loop
        invariant
            start <= s.len(),
            char_vec_views(r@) + split_on(s@.skip(start as int), c) == split_on(s@, c),
        decreases s.len() - start,
    {
        let rest = slice_chars(s, start, s.len());
        assert(rest@ =~= s@.skip(start as int));
        match find_char(&rest, c) {
            None => {
                let ghost before = r@;
                r.push(rest);
                assert(char_vec_views(r@) =~= char_vec_views(before) + seq![s@.skip(start as int)]);
                return r;
            },
            Some(j) => {
                proof {
                    lemma_first_index_of(rest@, c);
                }
                let piece = slice_chars(&rest, 0, j);
                let ghost before = r@;
                r.push(piece);
                let ghost tail = s@.skip(start as int);
                assert(tail.skip(j + 1) =~= s@.skip(start + j + 1));
                assert(split_on(tail, c) == seq![tail.take(j as int)] + split_on(
                    tail.skip(j + 1),
                    c,
                ));
                assert(char_vec_views(r@) =~= char_vec_views(before) + seq![tail.take(j as int)]);
                start = start + j + 1;
            },
        }
    }
}

/// All expansions of `s`, in the order of `expand_braces`.
pub fn expand_chars(s: &[char]) -> (r: Vec<Vec<char>>)
    ensures
        char_vec_views(r@) == expand_braces(s@),
    decreases count_char(s@, '}'),
{
    let end = match find_char(s, '}') {
        None => {
            let mut r: Vec<Vec<char>> = Vec::new();
            r.push(copy_chars(s));
            assert(char_vec_views(r@) =~= seq![s@]);
            return r;
        },
        Some(e) => e,
    };
    proof {
        lemma_first_index_of(s@, '}');
    }
    assert(end < s.len());
    let head = slice_chars(s, 0, end);
    let start = match rfind_char(&head, '{') {
        None => {
            let mut r: Vec<Vec<char>> = Vec::new();
            r.push(copy_chars(s));
            assert(char_vec_views(r@) =~= seq![s@]);
            return r;
        },
        Some(st) => st,
    };
    proof {
        lemma_last_index_of(head@, '{');
        assert(head@ =~= s@.take(end as int));
        lemma_group_counts(s@, start as int, end as int);
    }
    let prefix = slice_chars(s, 0, start);
    let suffix = slice_chars(s, end + 1, s.len());
    let inner = slice_chars(s, start + 1, end);
    let opts = split_chars(&inner, '|');
    let ghost opts_v = char_vec_views(opts@);
    assert(prefix@ =~= s@.take(start as int));
    assert(suffix@ =~= s@.skip(end + 1));
    assert(expand_braces(s@) == expand_options(prefix@, opts_v, suffix@));
    proof {
        lemma_split_pieces_lack(inner@, '|', '}');
    }
    let mut result: Vec<Vec<char>> = Vec::new();
    let mut k: usize = 0;
    while k < opts.len()
        invariant
            k <= opts.len(),
            opts_v == char_vec_views(opts@),
            opts_v == split_on(inner@, '|'),
            forall|i: int| 0 <= i < opts_v.len() ==> !has_char(#[trigger] opts_v[i], '}'),
            count_char(prefix@, '}') == 0,
            count_char(suffix@, '}') + 1 == count_char(s@, '}'),
            char_vec_views(result@) == expand_options(prefix@, opts_v.take(k as int), suffix@),
        decreases opts.len() - k,
    {
        let mut merged = copy_chars(&prefix);
        push_all(&mut merged, &opts[k]);
        push_all(&mut merged, &suffix);
        proof {
            assert(opts_v[k as int] == opts@[k as int]@);
            assert(!has_char(opts_v[k as int], '}'));
            lemma_count_zero(opts_v[k as int], '}');
            lemma_count_concat(prefix@, opts_v[k as int], '}');
            lemma_count_concat(prefix@ + opts_v[k as int], suffix@, '}');
        }
        let sub = expand_chars(&merged);
        let ghost before = result@;
        let mut i: usize = 0;
        while i < sub.len()
            invariant
                i <= sub.len(),
                char_vec_views(result@) == char_vec_views(before) + char_vec_views(sub@).take(
                    i as int,
                ),
            decreases sub.len() - i,
        {
            let item = copy_chars(&sub[i]);
            let ghost mid = result@;
            result.push(item);
            assert(char_vec_views(result@) =~= char_vec_views(mid) + seq![sub@[i as int]@]);
            assert(char_vec_views(sub@).take(i + 1) =~= char_vec_views(sub@).take(i as int).push(
                sub@[i as int]@,
            ));
            i = i + 1;
        }
        assert(char_vec_views(sub@).take(sub.len() as int) =~= char_vec_views(sub@));
        let ghost t = opts_v.take(k + 1);
        assert(t.drop_last() =~= opts_v.take(k as int));
        assert(t.last() == opts_v[k as int]);
        assert(merged@ =~= prefix@ + opts_v[k as int] + suffix@);
        k = k + 1;
    }
    assert(opts_v.take(opts.len() as int) =~= opts_v);
    result
}


/// The texts of `v`, in order.
pub fn strings_of(v: &Vec<Vec<char>>) -> (r: Vec<String>)
    ensures
        string_views(r@) == char_vec_views(v@),
{
    let mut r: Vec<String> = Vec::new();
    let mut i: usize = 0;
    while i < v.len()
        invariant
            i <= v.len(),
            string_views(r@) == char_vec_views(v@).take(i as int),
        decreases v.len() - i,
    {
        let ghost before = r@;
        r.push(string_of(&v[i]));
        assert(string_views(r@) =~= string_views(before).push(v@[i as int]@));
        assert(char_vec_views(v@).take(i + 1) =~= char_vec_views(v@).take(i as int).push(
            v@[i as int]@,
        ));
        i = i + 1;
    }
    assert(char_vec_views(v@).take(v.len() as int) =~= char_vec_views(v@));
    r
}

/// All expansions of `input`, as strings.
pub fn expand_text(input: &str) -> (r: Vec<String>)
    ensures
        string_views(r@) == expand_braces(input@),
{
    let cs = chars_of(input);
    let v = expand_chars(&cs);
    strings_of(&v)
}

/// Splitting always yields at least one piece.
pub proof fn lemma_split_nonempty(s: Seq<char>, c: char)
    ensures
        split_on(s, c).len() >= 1,
    decreases s.len(),
{
    let i = first_index_of(s, c);
    lemma_first_index_of(s, c);
    if !(i < 0 || i >= s.len()) {
        lemma_split_nonempty(s.skip(i + 1), c);
    }
}

/// Brace expansion always yields at least one text.
pub proof fn law_expansion_nonempty(s: Seq<char>)
    ensures
        expand_braces(s).len() >= 1,
    decreases count_char(s, '}'), 0nat, 0nat,
{
    let end = first_index_of(s, '}');
    if !(end < 0 || end >= s.len()) {
        let start = last_index_of(s.take(end), '{');
        if !(start < 0 || start >= end) {
            lemma_group_counts(s, start, end);
            let opts = split_on(s.subrange(start + 1, end), '|');
            lemma_split_nonempty(s.subrange(start + 1, end), '|');
            lemma_options_nonempty(s.take(start), opts, s.skip(end + 1));
        }
    }
}

proof fn lemma_options_nonempty(prefix: Seq<char>, opts: Seq<Seq<char>>, suffix: Seq<char>)
    requires
        opts.len() >= 1,
    ensures
        expand_options(prefix, opts, suffix).len() >= 1,
    decreases count_char(prefix, '}') + count_char(suffix, '}') + total_count(opts, '}'), 1nat,
        opts.len(),
{
    lemma_count_concat(prefix, opts.last(), '}');
    lemma_count_concat(prefix + opts.last(), suffix, '}');
    law_expansion_nonempty(prefix + opts.last() + suffix);
}

/// Brace expansion is complete: every text it yields has no group left to
/// expand, so expanding it again gives just that text.
pub proof fn law_expansion_complete(s: Seq<char>)
    ensures
        forall|i: int|
            0 <= i < expand_braces(s).len() ==> expand_braces(#[trigger] expand_braces(s)[i])
                == seq![expand_braces(s)[i]],
    decreases count_char(s, '}'), 0nat, 0nat,
{
    let end = first_index_of(s, '}');
    let start = last_index_of(s.take(end), '{');
    if end < 0 || end >= s.len() || start < 0 || start >= end {
        assert(expand_braces(s) == seq![s]);
        assert forall|i: int|
            0 <= i < expand_braces(s).len() implies expand_braces(
            #[trigger] expand_braces(s)[i],
        ) == seq![expand_braces(s)[i]] by {
            assert(expand_braces(s)[i] == s);
        }
    } else {
        lemma_group_counts(s, start, end);
        let prefix = s.take(start);
        let opts = split_on(s.subrange(start + 1, end), '|');
        let suffix = s.skip(end + 1);
        lemma_options_complete(prefix, opts, suffix);
        assert(expand_braces(s) == expand_options(prefix, opts, suffix));
    }
}

proof fn lemma_options_complete(prefix: Seq<char>, opts: Seq<Seq<char>>, suffix: Seq<char>)
    ensures
        forall|i: int|
            0 <= i < expand_options(prefix, opts, suffix).len() ==> expand_braces(
                #[trigger] expand_options(prefix, opts, suffix)[i],
            ) == seq![expand_options(prefix, opts, suffix)[i]],
    decreases count_char(prefix, '}') + count_char(suffix, '}') + total_count(opts, '}'), 1nat,
        opts.len(),
{
    if opts.len() > 0 {
        lemma_count_concat(prefix, opts.last(), '}');
        lemma_count_concat(prefix + opts.last(), suffix, '}');
        lemma_options_complete(prefix, opts.drop_last(), suffix);
        law_expansion_complete(prefix + opts.last() + suffix);
        let a = expand_options(prefix, opts.drop_last(), suffix);
        let b = expand_braces(prefix + opts.last() + suffix);
        assert forall|i: int|
            0 <= i < expand_options(prefix, opts, suffix).len() implies expand_braces(
            #[trigger] expand_options(prefix, opts, suffix)[i],
        ) == seq![expand_options(prefix, opts, suffix)[i]] by {
            if i < a.len() {
                assert(expand_options(prefix, opts, suffix)[i] == a[i]);
            } else {
                assert(expand_options(prefix, opts, suffix)[i] == b[i - a.len()]);
            }
        }
    }
}

/// A text without `}` is its own single expansion.
pub proof fn law_no_group_no_expansion(s: Seq<char>)
    requires
        !has_char(s, '}'),
    ensures
        expand_braces(s) == seq![s],
{
    lemma_first_index_of(s, '}');
}

/// A text without `c` followed by another one holds no `c`.
proof fn lemma_concat_lacks(a: Seq<char>, b: Seq<char>, c: char)
    requires
        !has_char(a, c),
        !has_char(b, c),
    ensures
        !has_char(a + b, c),
{
    assert forall|j: int| 0 <= j < (a + b).len() implies (a + b)[j] != c by {
        if j < a.len() {
            assert((a + b)[j] == a[j]);
        } else {
            assert((a + b)[j] == b[j - a.len()]);
        }
    }
}

/// Options without braces, between a prefix and a suffix without `}`,
/// expand to themselves.
proof fn lemma_options_plain(prefix: Seq<char>, opts: Seq<Seq<char>>, suffix: Seq<char>)
    requires
        !has_char(prefix, '}'),
        !has_char(suffix, '}'),
        forall|i: int| 0 <= i < opts.len() ==> !has_char(#[trigger] opts[i], '}'),
    ensures
        expand_options(prefix, opts, suffix) == opts.map_values(|o: Seq<char>| prefix + o + suffix),
    decreases opts.len(),
{
    if opts.len() > 0 {
        lemma_count_zero(prefix, '}');
        lemma_count_zero(suffix, '}');
        lemma_count_zero(opts.last(), '}');
        lemma_count_concat(prefix, opts.last(), '}');
        lemma_count_concat(prefix + opts.last(), suffix, '}');
        lemma_options_plain(prefix, opts.drop_last(), suffix);
        assert(!has_char(opts[opts.len() - 1], '}'));
        lemma_concat_lacks(prefix, opts.last(), '}');
        lemma_concat_lacks(prefix + opts.last(), suffix, '}');
        law_no_group_no_expansion(prefix + opts.last() + suffix);
        assert(opts.drop_last().map_values(|o: Seq<char>| prefix + o + suffix).push(
            prefix + opts.last() + suffix,
        ) =~= opts.map_values(|o: Seq<char>| prefix + o + suffix));
    }
}

/// A text with one group `{o1|o2|..}` and no other brace (but for `{`
/// after the group) expands to one text per option, in order, the option
/// standing where the group stood.
pub proof fn law_single_group(pre: Seq<char>, inner: Seq<char>, post: Seq<char>)
    requires
        !has_char(pre, '{'),
        !has_char(pre, '}'),
        !has_char(inner, '{'),
        !has_char(inner, '}'),
        !has_char(post, '}'),
    ensures
        expand_braces(pre + seq!['{'] + inner + seq!['}'] + post) == split_on(inner, '|').map_values(
            |o: Seq<char>| pre + o + post,
        ),
{
    let s = pre + seq!['{'] + inner + seq!['}'] + post;
    let start = pre.len() as int;
    let end = pre.len() + 1 + inner.len() as int;
    assert(s[end] == '}');
    assert(s[start] == '{');
    lemma_first_index_of(s, '}');
    let r = first_index_of(s, '}');
    assert forall|j: int| 0 <= j < end implies s[j] != '}' by {
        if j < start {
            assert(s[j] == pre[j]);
        } else if j > start {
            assert(s[j] == inner[j - start - 1]);
        }
    }
    assert(r == end) by {
        if r < 0 || r > end {
            assert(s[end] != '}');
        } else if r < end {
            assert(s[r] != '}');
        }
    }
    let head = s.take(end);
    lemma_last_index_of(head, '{');
    let l = last_index_of(head, '{');
    assert(head[start] == '{');
    assert forall|j: int| start < j < end implies head[j] != '{' by {
        assert(head[j] == inner[j - start - 1]);
    }
    assert(l == start) by {
        if l < start {
            assert(head[start] != '{');
        } else if l > start {
            assert(head[l] != '{');
        }
    }
    assert(s.take(start) =~= pre);
    assert(s.subrange(start + 1, end) =~= inner);
    assert(s.skip(end + 1) =~= post);
    lemma_split_pieces_lack(inner, '|', '}');
    lemma_options_plain(pre, split_on(inner, '|'), post);
}
} // verus!
