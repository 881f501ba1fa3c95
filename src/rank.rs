//! The most frequent and the longest words.
use vstd::prelude::*;

use vstd::utf8::encode_utf8;

use crate::outside::{chars_of, views};
use crate::tally::{pairs_view, words_distinct};

verus! {

/// `r` holds `min(k, |t|)` pairs of `t` with distinct words, by count from
/// highest to lowest, and every pair of `t` left out has a count no higher
/// than the last one kept. Among equal counts the order is open.
pub open spec fn is_top_by_count(r: Seq<(Seq<char>, nat)>, t: Seq<(Seq<char>, nat)>, k: nat) -> bool {
    &&& r.len() == if k < t.len() {
        k
    } else {
        t.len()
    }
    &&& forall|a: int| 0 <= a < r.len() ==> t.contains(#[trigger] r[a])
    &&& words_distinct(r)
    &&& forall|a: int, b: int| 0 <= a < b < r.len() ==> #[trigger] r[a].1 >= #[trigger] r[b].1
    &&& forall|x: int|
        0 <= x < t.len() && r.len() > 0 && (forall|a: int| 0 <= a < r.len() ==> r[a].0 != #[trigger] t[x].0)
            ==> t[x].1 <= r.last().1
}

/// `ge` orders indices totally, ties allowed.
pub open spec fn total_preorder(ge: spec_fn(usize, usize) -> bool) -> bool {
    &&& forall|x: usize, y: usize| #[trigger] ge(x, y) || ge(y, x)
    &&& forall|x: usize, y: usize, z: usize| #[trigger] ge(x, y) && #[trigger] ge(y, z) ==> ge(x, z)
}

/// `o` lists the first `min(k, i)` of the indices below `i` in the order
/// `ge`, each once: every index left out comes after the last one kept.
pub open spec fn ranked(ge: spec_fn(usize, usize) -> bool, o: Seq<usize>, i: int, k: int) -> bool {
    &&& o.len() == if k < i {
        k
    } else {
        i
    }
    &&& forall|a: int| 0 <= a < o.len() ==> #[trigger] o[a] < i
    &&& forall|a: int, b: int| 0 <= a < b < o.len() ==> #[trigger] o[a] != #[trigger] o[b]
    &&& forall|a: int, b: int| 0 <= a < b < o.len() ==> ge(#[trigger] o[a], #[trigger] o[b])
    &&& o.len() == i ==> forall|x: usize| x < i ==> #[trigger] o.contains(x)
    &&& o.len() > 0 ==> forall|x: usize| x < i && !#[trigger] o.contains(x) ==> ge(o.last(), x)
}

/// The ranking after index `i` is placed at `p`, dropping the last when full.
pub open spec fn place(b: Seq<usize>, p: int, i: usize, k: int) -> Seq<usize> {
    if p < k {
        (if b.len() == k {
            b.drop_last()
        } else {
            b
        }).insert(p, i)
    } else {
        b
    }
}

proof fn lemma_place(ge: spec_fn(usize, usize) -> bool, b: Seq<usize>, p: int, i: usize, k: int)
    requires
        total_preorder(ge),
        k >= 0,
        ranked(ge, b, i as int, k),
        0 <= p <= b.len(),
        forall|a: int| 0 <= a < p ==> ge(#[trigger] b[a], i),
        p < b.len() ==> !ge(b[p], i),
    ensures
        ranked(ge, place(b, p, i, k), i + 1, k),
{
    let o = place(b, p, i, k);
    if p < k {
        let s = if b.len() == k {
            b.drop_last()
        } else {
            b
        };
        s.insert_ensures(p, i);
        assert(forall|a: int| 0 <= a < s.len() ==> s[a] == b[a]);
        assert forall|a: int| 0 <= a < s.len() implies o.contains(#[trigger] s[a]) by {
            if a < p {
                assert(o[a] == s[a]);
            } else {
                assert(o[a + 1] == s[a]);
            }
        }
        assert(o[p] == i);
        assert(o.contains(i));
        assert forall|a: int| 0 <= a < o.len() implies #[trigger] o[a] < i + 1 by {
            if a > p {
                assert(o[a] == s[a - 1]);
            }
        }
        assert forall|a: int, c: int| 0 <= a < c < o.len() implies #[trigger] o[a] != #[trigger] o[c] by {
            if a > p {
                assert(o[a] == s[a - 1]);
            }
            if c > p {
                assert(o[c] == s[c - 1]);
            }
        }
        assert forall|a: int, c: int| 0 <= a < c < o.len() implies ge(#[trigger] o[a], #[trigger] o[c]) by {
            if a < p && c == p {
            } else if a == p && c > p {
                assert(o[c] == s[c - 1]);
                assert(ge(i, b[p]));
                if c - 1 > p {
                    assert(ge(b[p], b[c - 1]));
                }
            } else if a < p && c > p {
                assert(o[c] == s[c - 1]);
            } else if a > p {
                assert(o[a] == s[a - 1]);
                assert(o[c] == s[c - 1]);
            }
        }
        if o.len() == i + 1 {
            assert(b.len() == i);
            assert forall|x: usize| x < i + 1 implies #[trigger] o.contains(x) by {
                if x < i {
                    assert(b.contains(x));
                    let a = choose|a: int| 0 <= a < b.len() && b[a] == x;
                    assert(o.contains(s[a]));
                }
            }
        }
        if b.len() == k {
            let last = b[k - 1];
            assert(ge(o.last(), last)) by {
                if p == k - 1 {
                    assert(o.last() == i);
                    assert(ge(i, b[p]));
                } else {
                    assert(o.last() == s[k - 2]);
                }
            }
            assert forall|x: usize| x < i + 1 && !#[trigger] o.contains(x) implies ge(o.last(), x) by {
                if x != last {
                    if b.contains(x) {
                        let a = choose|a: int| 0 <= a < b.len() && b[a] == x;
                        assert(o.contains(s[a]));
                    }
                    assert(ge(last, x));
                }
            }
        }
    } else {
        assert(b.len() == k);
        if k > 0 {
            assert(ge(b[k - 1], i));
        }
    }
}

/// Indices of the `min(k, n)` pairs of highest count, highest first; among
/// equal counts the earlier pair comes first.
fn top_indices(t: &Vec<(String, usize)>, k: usize) -> (out: Vec<usize>)
    ensures
        ranked(|x: usize, y: usize| t@[x as int].1 >= t@[y as int].1, out@, t@.len() as int, k as int),
{
    let ghost ge = |x: usize, y: usize| t@[x as int].1 >= t@[y as int].1;
    let n = t.len();
    let mut out: Vec<usize> = Vec::new();
    let mut i: usize = 0;
    while i < n
        invariant
            n == t@.len(),
            i <= n,
            ge == (|x: usize, y: usize| t@[x as int].1 >= t@[y as int].1),
            ranked(ge, out@, i as int, k as int),
        decreases n - i,
    {
        let m = out.len();
        let mut p: usize = 0;
        while p < m && t[out[p]].1 >= t[i].1
            invariant
                p <= m,
                m == out@.len(),
                i < n,
                n == t@.len(),
                ranked(ge, out@, i as int, k as int),
                ge == (|x: usize, y: usize| t@[x as int].1 >= t@[y as int].1),
                forall|a: int| 0 <= a < p ==> ge(#[trigger] out@[a], i),
            decreases m - p,
        {
            p = p + 1;
        }
        proof {
            lemma_place(ge, out@, p as int, i, k as int);
        }
        let ghost want = place(out@, p as int, i, k as int);
        if p < k {
            if m == k {
                out.pop();
            }
            out.insert(p, i);
        }
        assert(out@ =~= want);
        i = i + 1;
    }
    out
}

/// The `k` pairs of highest count, highest first.
pub fn top_by_count(t: &Vec<(String, usize)>, k: usize) -> (r: Vec<(String, usize)>)
    requires
        words_distinct(pairs_view(t@)),
    ensures
        is_top_by_count(pairs_view(r@), pairs_view(t@), k as nat),
{
    let ghost tv = pairs_view(t@);
    let n = t.len();
    let idx = top_indices(t, k);
    let mut r: Vec<(String, usize)> = Vec::new();
    let mut j: usize = 0;
    while j < idx.len()
        invariant
            j <= idx@.len(),
            tv == pairs_view(t@),
            ranked(|x: usize, y: usize| t@[x as int].1 >= t@[y as int].1, idx@, t@.len() as int, k as int),
            r@.len() == j,
            forall|a: int| 0 <= a < j ==> #[trigger] pairs_view(r@)[a] == tv[idx@[a] as int],
        decreases idx@.len() - j,
    {
        let x = idx[j];
        let ghost before = r@;
        r.push((t[x].0.clone(), t[x].1));
        proof {
            assert forall|a: int| 0 <= a < j implies #[trigger] pairs_view(r@)[a] == tv[idx@[a] as int] by {
                assert(r@[a] == before[a]);
                assert(pairs_view(before)[a] == tv[idx@[a] as int]);
            }
            assert(pairs_view(r@)[j as int] == tv[x as int]);
        }
        j = j + 1;
    }
    proof {
        let rv = pairs_view(r@);
        assert forall|a: int| 0 <= a < rv.len() implies tv.contains(#[trigger] rv[a]) by {
            assert(tv[idx@[a] as int] == rv[a]);
        }
        assert forall|a: int, b: int| 0 <= a < b < rv.len() implies #[trigger] rv[a].0 != #[trigger] rv[b].0 by {
            assert(idx@[a] != idx@[b]);
        }
        assert forall|a: int, b: int| 0 <= a < b < rv.len() implies #[trigger] rv[a].1 >= #[trigger] rv[b].1 by {
            assert(rv[a] == tv[idx@[a] as int]);
            assert(rv[b] == tv[idx@[b] as int]);
        }
        assert forall|x: int|
            0 <= x < tv.len() && rv.len() > 0 && (forall|a: int| 0 <= a < rv.len() ==> rv[a].0 != #[trigger] tv[x].0)
            implies tv[x].1 <= rv.last().1 by {
            let xu = x as usize;
            assert(xu as int == x);
            if idx@.contains(xu) {
                let a = choose|a: int| 0 <= a < idx@.len() && idx@[a] == xu;
                assert(pairs_view(r@)[a] == tv[idx@[a] as int]);
                assert(rv[a].0 == tv[x].0);
            }
            assert(pairs_view(r@)[rv.len() - 1] == tv[idx@[rv.len() - 1] as int]);
            assert(t@[idx@.last() as int].1 >= t@[xu as int].1);
        }
    }
    r
}

/// Length in bytes of the UTF-8 encoding, as `str::len` gives it.
pub open spec fn byte_len(w: Seq<char>) -> usize {
    encode_utf8(w).len() as usize
}

/// Strict lexicographic order by character code.
pub open spec fn lex_lt(a: Seq<char>, b: Seq<char>) -> bool
    decreases a.len(),
{
    if a.len() == 0 {
        b.len() > 0
    } else if b.len() == 0 {
        false
    } else if a[0] != b[0] {
        a[0] < b[0]
    } else {
        lex_lt(a.drop_first(), b.drop_first())
    }
}

/// `a` comes before `b` among the longest words: longer in bytes, or as long
/// and lexically smaller.
pub open spec fn longer_first(a: Seq<char>, b: Seq<char>) -> bool {
    byte_len(a) > byte_len(b) || (byte_len(a) == byte_len(b) && lex_lt(a, b))
}

/// `r` holds the first `min(k, |d|)` words of `d` in the order
/// `longer_first`; every word of `d` left out comes after the last one kept.
pub open spec fn is_longest(r: Seq<Seq<char>>, d: Seq<Seq<char>>, k: nat) -> bool {
    &&& r.len() == if k < d.len() {
        k
    } else {
        d.len()
    }
    &&& forall|a: int| 0 <= a < r.len() ==> d.contains(#[trigger] r[a])
    &&& forall|a: int, b: int| 0 <= a < b < r.len() ==> longer_first(#[trigger] r[a], #[trigger] r[b])
    &&& forall|w: Seq<char>| #[trigger] d.contains(w) && !r.contains(w) && r.len() > 0 ==> longer_first(r.last(), w)
}

proof fn lemma_lex_order(a: Seq<char>, b: Seq<char>)
    ensures
        !lex_lt(a, a),
        a != b ==> lex_lt(a, b) || lex_lt(b, a),
        !(lex_lt(a, b) && lex_lt(b, a)),
    decreases a.len(),
{
    if a.len() > 0 {
        lemma_lex_order(a.drop_first(), a.drop_first());
    }
    if a.len() > 0 && b.len() > 0 {
        lemma_lex_order(a.drop_first(), b.drop_first());
        if a[0] == b[0] && a.drop_first() == b.drop_first() {
            assert(a =~= seq![a[0]] + a.drop_first());
            assert(b =~= seq![b[0]] + b.drop_first());
        }
    }
    if a.len() == 0 && b.len() == 0 {
        assert(a =~= b);
    }
}

proof fn lemma_lex_trans(a: Seq<char>, b: Seq<char>, c: Seq<char>)
    requires
        lex_lt(a, b),
        lex_lt(b, c),
    ensures
        lex_lt(a, c),
    decreases a.len(),
{
    if a.len() > 0 && b.len() > 0 && c.len() > 0 && a[0] == b[0] && b[0] == c[0] {
        lemma_lex_trans(a.drop_first(), b.drop_first(), c.drop_first());
    }
}

/// Whether `a` comes before `b` in lexical order.
fn lex_less(a: &Vec<char>, b: &Vec<char>) -> (r: bool)
    ensures
        r == lex_lt(a@, b@),
{
    let mut i: usize = 0;
    assert(a@.subrange(0, a@.len() as int) =~= a@);
    assert(b@.subrange(0, b@.len() as int) =~= b@);
    while i < a.len() && i < b.len()
        invariant
            i <= a@.len(),
            i <= b@.len(),
            lex_lt(a@, b@) == lex_lt(a@.subrange(i as int, a@.len() as int), b@.subrange(i as int, b@.len() as int)),
        decreases a@.len() - i,
    {
        let ghost sa = a@.subrange(i as int, a@.len() as int);
        let ghost sb = b@.subrange(i as int, b@.len() as int);
        if a[i] != b[i] {
            return a[i] < b[i];
        }
        proof {
            assert(sa.drop_first() =~= a@.subrange(i + 1, a@.len() as int));
            assert(sb.drop_first() =~= b@.subrange(i + 1, b@.len() as int));
        }
        i = i + 1;
    }
    i < b.len()
}

/// The order of indices that places `d[x]` before `d[y]` when it is longer
/// first; indices past the end come last.
pub open spec fn longer_index(d: Seq<Seq<char>>) -> spec_fn(usize, usize) -> bool {
    |x: usize, y: usize|
        if x < d.len() && y < d.len() {
            x == y || longer_first(d[x as int], d[y as int])
        } else if x < d.len() {
            true
        } else if y < d.len() {
            false
        } else {
            x <= y
        }
}

proof fn lemma_longer_index(d: Seq<Seq<char>>)
    requires
        d.no_duplicates(),
    ensures
        total_preorder(longer_index(d)),
{
    let ge = longer_index(d);
    assert forall|x: usize, y: usize| #[trigger] ge(x, y) || ge(y, x) by {
        if x < d.len() && y < d.len() && x != y {
            lemma_lex_order(d[x as int], d[y as int]);
        }
    }
    assert forall|x: usize, y: usize, z: usize| #[trigger] ge(x, y) && #[trigger] ge(y, z) implies ge(x, z) by {
        if x < d.len() && y < d.len() && z < d.len() && x != y && y != z {
            if lex_lt(d[x as int], d[y as int]) && lex_lt(d[y as int], d[z as int]) {
                lemma_lex_trans(d[x as int], d[y as int], d[z as int]);
            }
        }
    }
}

/// Indices of the first `min(k, n)` words in the order `longer_first`.
fn longest_indices(words: &Vec<String>, k: usize) -> (out: Vec<usize>)
    requires
        views(words@).no_duplicates(),
    ensures
        ranked(longer_index(views(words@)), out@, words@.len() as int, k as int),
{
    let ghost d = views(words@);
    let ghost ge = longer_index(d);
    proof {
        lemma_longer_index(d);
    }
    let n = words.len();
    let mut cs: Vec<Vec<char>> = Vec::new();
    let mut lens: Vec<usize> = Vec::new();
    let mut j: usize = 0;
    while j < n
        invariant
            n == words@.len(),
            d == views(words@),
            j <= n,
            cs@.len() == j,
            lens@.len() == j,
            forall|a: int| 0 <= a < j ==> #[trigger] cs@[a]@ == d[a] && lens@[a] == byte_len(d[a]),
        decreases n - j,
    {
        cs.push(chars_of(words[j].as_str()));
        lens.push(words[j].as_str().len());
        j = j + 1;
    }
    let mut out: Vec<usize> = Vec::new();
    let mut i: usize = 0;
    while i < n
        invariant
            n == words@.len(),
            d == views(words@),
            i <= n,
            cs@.len() == n,
            lens@.len() == n,
            forall|a: int| 0 <= a < n ==> #[trigger] cs@[a]@ == d[a] && lens@[a] == byte_len(d[a]),
            ge == longer_index(d),
            total_preorder(ge),
            ranked(ge, out@, i as int, k as int),
        decreases n - i,
    {
        let m = out.len();
        let mut p: usize = 0;
        while p < m
            invariant
                p <= m,
                m == out@.len(),
                i < n,
                n == words@.len(),
                d == views(words@),
                cs@.len() == n,
                lens@.len() == n,
                forall|a: int| 0 <= a < n ==> #[trigger] cs@[a]@ == d[a] && lens@[a] == byte_len(d[a]),
                ranked(ge, out@, i as int, k as int),
                ge == longer_index(d),
                forall|a: int| 0 <= a < p ==> ge(#[trigger] out@[a], i),
            ensures
                p <= m,
                forall|a: int| 0 <= a < p ==> ge(#[trigger] out@[a], i),
                p < m ==> !ge(out@[p as int], i),
            decreases m - p,
        {
            let x = out[p];
            proof {
                assert(x < i);
                assert(cs@[x as int]@ == d[x as int] && lens@[x as int] == byte_len(d[x as int]));
                assert(cs@[i as int]@ == d[i as int] && lens@[i as int] == byte_len(d[i as int]));
            }
            let goes_before = lens[x] > lens[i] || (lens[x] == lens[i] && lex_less(&cs[x], &cs[i]));
            if !goes_before {
                break;
            }
            p = p + 1;
        }
        proof {
            if p < m {
                assert(out@[p as int] < i);
            }
            lemma_place(ge, out@, p as int, i, k as int);
        }
        let ghost want = place(out@, p as int, i, k as int);
        if p < k {
            if m == k {
                out.pop();
            }
            out.insert(p, i);
        }
        assert(out@ =~= want);
        i = i + 1;
    }
    out
}

/// The first `k` distinct words in the order `longer_first`.
pub fn longest_by_length(words: &Vec<String>, k: usize) -> (r: Vec<String>)
    requires
        views(words@).no_duplicates(),
    ensures
        is_longest(views(r@), views(words@), k as nat),
{
    let ghost d = views(words@);
    let n = words.len();
    let idx = longest_indices(words, k);
    let mut r: Vec<String> = Vec::new();
    let mut j: usize = 0;
    while j < idx.len()
        invariant
            j <= idx@.len(),
            d == views(words@),
            n == words@.len(),
            ranked(longer_index(d), idx@, n as int, k as int),
            r@.len() == j,
            forall|a: int| 0 <= a < j ==> #[trigger] r@[a]@ == d[idx@[a] as int],
        decreases idx@.len() - j,
    {
        let x = idx[j];
        r.push(words[x].clone());
        j = j + 1;
    }
    proof {
        let ge = longer_index(d);
        let rv = views(r@);
        assert forall|a: int| 0 <= a < rv.len() implies d.contains(#[trigger] rv[a]) by {
            assert(d[idx@[a] as int] == rv[a]);
        }
        assert forall|a: int, b: int| 0 <= a < b < rv.len() implies longer_first(#[trigger] rv[a], #[trigger] rv[b]) by {
            assert(ge(idx@[a], idx@[b]));
            assert(idx@[a] != idx@[b]);
            assert(rv[a] == d[idx@[a] as int]);
            assert(rv[b] == d[idx@[b] as int]);
        }
        assert forall|w: Seq<char>| #[trigger] d.contains(w) && !rv.contains(w) && rv.len() > 0 implies longer_first(rv.last(), w) by {
            let x = choose|x: int| 0 <= x < d.len() && d[x] == w;
            let xu = x as usize;
            assert(xu as int == x);
            if idx@.contains(xu) {
                let a = choose|a: int| 0 <= a < idx@.len() && idx@[a] == xu;
                assert(rv[a] == w);
            }
            let l = idx@.last();
            assert(ge(l, xu));
            assert(rv.last() == d[l as int]);
            assert(l != xu);
        }
    }
    r
}

} // verus!
