//! Occurrence counts of words, in order of first occurrence.
use vstd::prelude::*;

use crate::outside::views;

verus! {

/// How many times `w` occurs in `ts`.
pub open spec fn occurrences(ts: Seq<Seq<char>>, w: Seq<char>) -> nat
    decreases ts.len(),
{
    if ts.len() == 0 {
        0
    } else {
        occurrences(ts.drop_last(), w) + if ts.last() == w {
            1nat
        } else {
            0nat
        }
    }
}

/// The distinct words of `ts`, each at its first occurrence.
pub open spec fn distinct_words(ts: Seq<Seq<char>>) -> Seq<Seq<char>>
    decreases ts.len(),
{
    if ts.len() == 0 {
        seq![]
    } else {
        let d = distinct_words(ts.drop_last());
        if d.contains(ts.last()) {
            d
        } else {
            d.push(ts.last())
        }
    }
}

/// Each distinct word of `ts` with its number of occurrences, in order of
/// first occurrence.
pub open spec fn tally_of(ts: Seq<Seq<char>>) -> Seq<(Seq<char>, nat)> {
    distinct_words(ts).map_values(|w: Seq<char>| (w, occurrences(ts, w)))
}

/// The view of a vector of (word, count) pairs.
pub open spec fn pairs_view(v: Seq<(String, usize)>) -> Seq<(Seq<char>, nat)> {
    v.map_values(|p: (String, usize)| (p.0@, p.1 as nat))
}

/// No word stands twice among the pairs.
pub open spec fn words_distinct(t: Seq<(Seq<char>, nat)>) -> bool {
    forall|a: int, b: int| 0 <= a < b < t.len() ==> #[trigger] t[a].0 != #[trigger] t[b].0
}

pub proof fn lemma_occurrences_le(ts: Seq<Seq<char>>, w: Seq<char>)
    ensures
        occurrences(ts, w) <= ts.len(),
    decreases ts.len(),
{
    if ts.len() > 0 {
        lemma_occurrences_le(ts.drop_last(), w);
    }
}

pub proof fn lemma_distinct_words(ts: Seq<Seq<char>>)
    ensures
        distinct_words(ts).no_duplicates(),
        distinct_words(ts).len() <= ts.len(),
        forall|w: Seq<char>| #[trigger] distinct_words(ts).contains(w) <==> ts.contains(w),
    decreases ts.len(),
{
    if ts.len() > 0 {
        let p = ts.drop_last();
        lemma_distinct_words(p);
        assert forall|w: Seq<char>| #[trigger] ts.contains(w) <==> (p.contains(w) || w
            == ts.last()) by {
            if ts.contains(w) {
                let j = choose|j: int| 0 <= j < ts.len() && ts[j] == w;
                if j < ts.len() - 1 {
                    assert(p[j] == w);
                }
            }
            if p.contains(w) {
                let j = choose|j: int| 0 <= j < p.len() && p[j] == w;
                assert(ts[j] == w);
            }
            if w == ts.last() {
                assert(ts[ts.len() - 1] == w);
            }
        }
        let d = distinct_words(p);
        if !d.contains(ts.last()) {
            assert forall|w: Seq<char>| #[trigger] d.push(ts.last()).contains(w) <==> (
            d.contains(w) || w == ts.last()) by {
                if d.push(ts.last()).contains(w) {
                    let j = choose|j: int|
                        0 <= j < d.push(ts.last()).len() && d.push(ts.last())[j] == w;
                    if j < d.len() {
                        assert(d[j] == w);
                    }
                }
                if d.contains(w) {
                    let j = choose|j: int| 0 <= j < d.len() && d[j] == w;
                    assert(d.push(ts.last())[j] == w);
                }
                if w == ts.last() {
                    assert(d.push(ts.last())[d.len() as int] == w);
                }
            }
        }
    }
}

proof fn lemma_tally_words_distinct(ts: Seq<Seq<char>>)
    ensures
        words_distinct(tally_of(ts)),
{
    lemma_distinct_words(ts);
}

/// Where `w` stands among the words of `tally`, if it does.
fn position(tally: &Vec<(String, usize)>, w: &String) -> (r: Option<usize>)
    ensures
        match r {
            Some(j) => j < tally@.len() && tally@[j as int].0@ == w@,
            None => forall|j: int| 0 <= j < tally@.len() ==> tally@[j].0@ != w@,
        },
{
    let mut j: usize = 0;
    while j < tally.len()
        invariant
            j <= tally@.len(),
            forall|a: int| 0 <= a < j ==> tally@[a].0@ != w@,
        decreases tally@.len() - j,
    {
        if tally[j].0 == *w {
            return Some(j);
        }
        j = j + 1;
    }
    None
}

/// Each distinct word with its number of occurrences, in order of first
/// occurrence.
pub fn tally(tokens: &Vec<String>) -> (r: Vec<(String, usize)>)
    ensures
        pairs_view(r@) == tally_of(views(tokens@)),
        words_distinct(pairs_view(r@)),
{
    let ghost ts = views(tokens@);
    let mut r: Vec<(String, usize)> = Vec::new();
    let mut i: usize = 0;
    while i < tokens.len()
        invariant
            i <= tokens@.len(),
            ts == views(tokens@),
            pairs_view(r@) == tally_of(ts.subrange(0, i as int)),
        decreases tokens@.len() - i,
    {
        let ghost p = ts.subrange(0, i as int);
        let ghost q = ts.subrange(0, i + 1);
        let ghost w = tokens@[i as int]@;
        proof {
            assert(q.drop_last() =~= p);
            assert(q.last() == w);
            lemma_distinct_words(p);
            lemma_occurrences_le(p, w);
        }
        let ghost d = distinct_words(p);
        match position(&r, &tokens[i]) {
            Some(j) => {
                proof {
                    assert(tally_of(p).len() == d.len());
                    assert(pairs_view(r@)[j as int] == tally_of(p)[j as int]);
                    assert(pairs_view(r@)[j as int].0 == r@[j as int].0@);
                    assert(d[j as int] == w);
                    assert(d.contains(w));
                }
                let c = r[j].1;
                let s = r[j].0.clone();
                let ghost before = r@;
                r.set(j, (s, c + 1));
                proof {
                    assert(distinct_words(q) == d);
                    assert forall|a: int| 0 <= a < d.len() implies occurrences(q, #[trigger] d[a])
                        == occurrences(p, d[a]) + if a == j {
                        1nat
                    } else {
                        0nat
                    } by {
                        if a != j {
                            assert(d[a] != d[j as int]);
                        }
                    }
                    assert forall|a: int| 0 <= a < d.len() implies pairs_view(r@)[a]
                        == #[trigger] tally_of(q)[a] by {
                        assert(pairs_view(before)[a] == tally_of(p)[a]);
                        if a != j {
                            assert(r@[a] == before[a]);
                        }
                    }
                    assert(pairs_view(r@) =~= tally_of(q));
                }
            },
            None => {
                proof {
                    assert(tally_of(p).len() == d.len());
                    assert forall|a: int| 0 <= a < d.len() implies #[trigger] d[a] != w by {
                        assert(pairs_view(r@)[a] == tally_of(p)[a]);
                        assert(pairs_view(r@)[a].0 == r@[a].0@);
                    }
                    assert(!d.contains(w));
                    assert(distinct_words(q) == d.push(w));
                    assert forall|a: int| 0 <= a < d.len() implies occurrences(q, #[trigger] d[a])
                        == occurrences(p, d[a]) by {}
                    assert(occurrences(p, w) == 0) by {
                        lemma_distinct_words(p);
                        if occurrences(p, w) > 0 {
                            lemma_occurrence_contained(p, w);
                        }
                    }
                }
                let ghost before = r@;
                r.push((tokens[i].clone(), 1));
                proof {
                    assert forall|a: int| 0 <= a < d.len() + 1 implies pairs_view(r@)[a]
                        == #[trigger] tally_of(q)[a] by {
                        if a < d.len() {
                            assert(pairs_view(before)[a] == tally_of(p)[a]);
                            assert(r@[a] == before[a]);
                        }
                    }
                    assert(pairs_view(r@) =~= tally_of(q));
                }
            },
        }
        i = i + 1;
    }
    proof {
        assert(ts.subrange(0, tokens@.len() as int) =~= ts);
        lemma_tally_words_distinct(ts);
    }
    r
}

proof fn lemma_occurrence_contained(ts: Seq<Seq<char>>, w: Seq<char>)
    requires
        occurrences(ts, w) > 0,
    ensures
        ts.contains(w),
    decreases ts.len(),
{
    if ts.last() == w {
        assert(ts[ts.len() - 1] == w);
    } else {
        lemma_occurrence_contained(ts.drop_last(), w);
        let j = choose|j: int| 0 <= j < ts.len() - 1 && ts.drop_last()[j] == w;
        assert(ts[j] == w);
    }
}

} // verus!
