//! Lexicographic order on character sequences (the order of `str`, since
//! UTF-8 keeps the order of code points) and sorted, duplicate-free
//! sequences kept in that order.
use vstd::prelude::*;
use crate::text::has_prefix;

verus! {

/// `a` comes strictly before `b`, character by character.
pub open spec fn lex_lt(a: Seq<char>, b: Seq<char>) -> bool
    decreases a.len(),
{
    if a.len() == 0 {
        b.len() > 0
    } else if b.len() == 0 {
        false
    } else if a[0] < b[0] {
        true
    } else if a[0] > b[0] {
        false
    } else {
        lex_lt(a.skip(1), b.skip(1))
    }
}

/// Every element comes strictly before the later ones.
pub open spec fn strictly_sorted(s: Seq<Seq<char>>) -> bool {
    forall|i: int, j: int| 0 <= i < j < s.len() ==> lex_lt(#[trigger] s[i], #[trigger] s[j])
}

/// Nothing comes strictly before itself.
pub proof fn lemma_lex_irreflexive(a: Seq<char>)
    ensures
        !lex_lt(a, a),
    decreases a.len(),
{
    if a.len() > 0 {
        lemma_lex_irreflexive(a.skip(1));
    }
}

/// The order is transitive.
pub proof fn lemma_lex_transitive(a: Seq<char>, b: Seq<char>, c: Seq<char>)
    requires
        lex_lt(a, b),
        lex_lt(b, c),
    ensures
        lex_lt(a, c),
    decreases a.len(),
{
    if a.len() > 0 && b.len() > 0 && c.len() > 0 {
        if a[0] == b[0] && b[0] == c[0] {
            lemma_lex_transitive(a.skip(1), b.skip(1), c.skip(1));
        }
    }
}

/// Any two sequences are equal or ordered one way.
pub proof fn lemma_lex_total(a: Seq<char>, b: Seq<char>)
    ensures
        a == b || lex_lt(a, b) || lex_lt(b, a),
    decreases a.len(),
{
    if a.len() > 0 && b.len() > 0 && a[0] == b[0] {
        lemma_lex_total(a.skip(1), b.skip(1));
        if a.skip(1) == b.skip(1) {
            assert(a[0] == b[0]);
            assert(a =~= seq![a[0]] + a.skip(1));
            assert(b =~= seq![b[0]] + b.skip(1));
        }
    } else if a.len() == 0 && b.len() == 0 {
        assert(a =~= b);
    }
}

/// Of two ordered sequences, the later never comes first.
pub proof fn lemma_lex_asymmetric(a: Seq<char>, b: Seq<char>)
    requires
        lex_lt(a, b),
    ensures
        !lex_lt(b, a),
{
    if lex_lt(b, a) {
        lemma_lex_transitive(a, b, a);
        lemma_lex_irreflexive(a);
    }
}

/// A prefix never comes after the sequence it begins.
pub proof fn lemma_prefix_not_after(p: Seq<char>, f: Seq<char>)
    requires
        has_prefix(f, p),
    ensures
        !lex_lt(f, p),
    decreases p.len(),
{
    if p.len() > 0 {
        assert(f[0] == f.subrange(0, p.len() as int)[0]);
        assert(f.skip(1).subrange(0, p.skip(1).len() as int) =~= f.subrange(
            0,
            p.len() as int,
        ).skip(1));
        lemma_prefix_not_after(p.skip(1), f.skip(1));
    }
}

/// Whatever lies between a prefix `p` and a sequence `f` that it begins
/// also begins with `p`.
pub proof fn lemma_between_shares_prefix(p: Seq<char>, g: Seq<char>, f: Seq<char>)
    requires
        has_prefix(f, p),
        !lex_lt(g, p),
        !lex_lt(f, g),
    ensures
        has_prefix(g, p),
    decreases p.len(),
{
    if p.len() > 0 {
        assert(f[0] == p[0]) by {
            assert(f.subrange(0, p.len() as int)[0] == f[0]);
        }
        let fs = f.skip(1);
        let ps = p.skip(1);
        assert(fs.subrange(0, ps.len() as int) =~= f.subrange(0, p.len() as int).skip(1));
        if g.len() == 0 {
        } else {
            if g[0] < p[0] {
            } else if g[0] > p[0] {
                assert(lex_lt(f, g));
            } else {
                assert(g[0] == p[0]);
                lemma_between_shares_prefix(ps, g.skip(1), fs);
                assert(g.subrange(0, p.len() as int) =~= seq![g[0]] + g.skip(1).subrange(
                    0,
                    ps.len() as int,
                ));
                assert(p =~= seq![p[0]] + ps);
            }
        }
    } else {
        assert(g.subrange(0, 0) =~= p);
    }
}

/// Three-way comparison in the order `lex_lt`: negative, zero or positive.
pub fn lex_compare(a: &[char], b: &[char]) -> (r: i8)
    ensures
        r < 0 <==> lex_lt(a@, b@),
        r == 0 <==> a@ == b@,
        r > 0 <==> lex_lt(b@, a@),
{
    let mut i: usize = 0;
    assert(a@.skip(0) =~= a@);
    assert(b@.skip(0) =~= b@);
    while i < a.len() && i < b.len() && a[i] == b[i]
        invariant
            i <= a.len(),
            i <= b.len(),
            a@.take(i as int) == b@.take(i as int),
            lex_lt(a@, b@) == lex_lt(a@.skip(i as int), b@.skip(i as int)),
            lex_lt(b@, a@) == lex_lt(b@.skip(i as int), a@.skip(i as int)),
        decreases a.len() - i,
    {
        assert(a@.skip(i as int).skip(1) =~= a@.skip(i + 1));
        assert(b@.skip(i as int).skip(1) =~= b@.skip(i + 1));
        assert(a@.take(i + 1) =~= a@.take(i as int).push(a@[i as int]));
        assert(b@.take(i + 1) =~= b@.take(i as int).push(b@[i as int]));
        i = i + 1;
    }
    proof {
        lemma_lex_irreflexive(a@);
    }
    if i == a.len() && i == b.len() {
        assert(a@ =~= a@.take(i as int));
        assert(b@ =~= b@.take(i as int));
        0
    } else if i == a.len() {
        assert(a@ =~= a@.take(i as int));
        assert(a@.len() != b@.len());
        -1
    } else if i == b.len() {
        assert(b@ =~= b@.take(i as int));
        assert(a@.len() != b@.len());
        1
    } else if a[i] < b[i] {
        assert(a@[i as int] != b@[i as int]);
        -1
    } else {
        assert(a@[i as int] != b@[i as int]);
        1
    }
}

/// The number of elements of the strictly sorted `keys` that come strictly
/// before `k`; `keys[..n]` come before `k`, the rest do not.
pub fn lower_bound(keys: &Vec<Vec<char>>, k: &[char]) -> (n: usize)
    requires
        strictly_sorted(keys@.map_values(|x: Vec<char>| x@)),
    ensures
        n <= keys.len(),
        forall|i: int| 0 <= i < n ==> lex_lt(#[trigger] keys@[i]@, k@),
        forall|i: int| n <= i < keys.len() ==> !lex_lt(#[trigger] keys@[i]@, k@),
{
    let ghost kv = keys@.map_values(|x: Vec<char>| x@);
    let mut lo: usize = 0;
    let mut hi: usize = keys.len();
    while lo < hi
        invariant
            lo <= hi <= keys.len(),
            kv == keys@.map_values(|x: Vec<char>| x@),
            strictly_sorted(kv),
            forall|i: int| 0 <= i < lo ==> lex_lt(#[trigger] keys@[i]@, k@),
            forall|i: int| hi <= i < keys.len() ==> !lex_lt(#[trigger] keys@[i]@, k@),
        decreases hi - lo,
    {
        let mid = lo + (hi - lo) / 2;
        if lex_compare(&keys[mid], k) < 0 {
            assert forall|i: int| 0 <= i < mid + 1 implies lex_lt(#[trigger] keys@[i]@, k@) by {
                if i < mid {
                    assert(kv[i] == keys@[i]@ && kv[mid as int] == keys@[mid as int]@);
                    lemma_lex_transitive(keys@[i]@, keys@[mid as int]@, k@);
                }
            }
            lo = mid + 1;
        } else {
            assert forall|i: int| mid <= i < keys.len() implies !lex_lt(#[trigger] keys@[i]@, k@) by {
                if i > mid {
                    assert(kv[i] == keys@[i]@ && kv[mid as int] == keys@[mid as int]@);
                    if lex_lt(keys@[i]@, k@) {
                        lemma_lex_transitive(keys@[mid as int]@, keys@[i]@, k@);
                    }
                }
            }
            hi = mid;
        }
    }
    lo
}

/// Inserts `k` into the strictly sorted `keys` unless it is there already;
/// returns where it stands and whether it was inserted.
pub fn insert_sorted(keys: &mut Vec<Vec<char>>, k: Vec<char>) -> (r: (usize, bool))
    requires
        strictly_sorted(old(keys)@.map_values(|x: Vec<char>| x@)),
    ensures
        strictly_sorted(final(keys)@.map_values(|x: Vec<char>| x@)),
        r.0 <= old(keys).len(),
        r.1 ==> final(keys)@ == old(keys)@.insert(r.0 as int, k),
        !r.1 ==> final(keys)@ == old(keys)@ && r.0 < old(keys).len() && old(keys)@[r.0 as int]@ == k@,
        final(keys)@.map_values(|x: Vec<char>| x@).to_set() == old(keys)@.map_values(
            |x: Vec<char>| x@,
        ).to_set().insert(k@),
{
    let ghost old_v = keys@.map_values(|x: Vec<char>| x@);
    let n = lower_bound(keys, &k);
    if n < keys.len() && lex_compare(&keys[n], &k) == 0 {
        assert(old_v[n as int] == k@);
        assert(old_v.to_set().insert(k@) =~= old_v.to_set());
        return (n, false);
    }
    let ghost kv = k@;
    keys.insert(n, k);
    let ghost new_v = keys@.map_values(|x: Vec<char>| x@);
    assert(new_v =~= old_v.insert(n as int, kv));
    assert forall|i: int, j: int| 0 <= i < j < new_v.len() implies lex_lt(
        #[trigger] new_v[i],
        #[trigger] new_v[j],
    ) by {
        if n < old_v.len() {
            assert(old_v[n as int] == old(keys)@[n as int]@);
            lemma_lex_total(old_v[n as int], kv);
        }
        if i < n && j == n {
            assert(old(keys)@[i]@ == old_v[i]);
        } else if i == n && j > n {
            assert(old(keys)@[j - 1]@ == old_v[j - 1]);
            lemma_lex_total(old_v[j - 1], kv);
            if j - 1 > n {
                assert(lex_lt(old_v[n as int], old_v[j - 1]));
                lemma_lex_transitive(kv, old_v[n as int], old_v[j - 1]);
            }
        } else if i < n && j > n {
            assert(lex_lt(old_v[i], old_v[j - 1]));
        } else if i > n {
            assert(lex_lt(old_v[i - 1], old_v[j - 1]));
        } else {
            assert(lex_lt(old_v[i], old_v[j]));
        }
    }
    assert forall|x: Seq<char>| new_v.to_set().contains(x) <==> old_v.to_set().insert(
        kv,
    ).contains(x) by {
        if new_v.to_set().contains(x) {
            let i = choose|i: int| 0 <= i < new_v.len() && new_v[i] == x;
            if i < n {
                assert(old_v[i] == x);
            } else if i > n {
                assert(old_v[i - 1] == x);
            }
        }
        if old_v.to_set().contains(x) {
            let i = choose|i: int| 0 <= i < old_v.len() && old_v[i] == x;
            if i < n {
                assert(new_v[i] == x);
            } else {
                assert(new_v[i + 1] == x);
            }
        }
        if x == kv {
            assert(new_v[n as int] == x);
        }
    }
    assert(new_v.to_set() =~= old_v.to_set().insert(kv));
    (n, true)
}

} // verus!
