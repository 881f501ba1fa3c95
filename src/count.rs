//! Character, paragraph and sentence counts.
use vstd::prelude::*;

use crate::outside::{chars_of, is_whitespace, white_space};

verus! {

/// Number of characters of `s` that are not whitespace.
pub open spec fn non_space_count(s: Seq<char>) -> nat
    decreases s.len(),
{
    if s.len() == 0 {
        0
    } else {
        non_space_count(s.drop_last()) + if white_space(s.last()) {
            0nat
        } else {
            1nat
        }
    }
}

/// A text is blank when it holds whitespace only (it is empty once trimmed).
pub open spec fn is_blank(s: Seq<char>) -> bool {
    forall|i: int| 0 <= i < s.len() ==> white_space(#[trigger] s[i])
}

/// Number of texts among `ps` that are not blank.
pub open spec fn non_blank_count(ps: Seq<Seq<char>>) -> nat
    decreases ps.len(),
{
    if ps.len() == 0 {
        0
    } else {
        non_blank_count(ps.drop_last()) + if is_blank(ps.last()) {
            0nat
        } else {
            1nat
        }
    }
}

/// Splitting `s` at each blank-line separator `"\n\n"` (leftmost first, never
/// overlapping), the number of pieces that are not blank; `seen` says that the
/// piece in progress already holds a character that is not whitespace.
pub open spec fn paragraph_count_from(s: Seq<char>, seen: bool) -> nat
    decreases s.len(),
{
    if s.len() == 0 {
        if seen {
            1
        } else {
            0
        }
    } else if s.len() >= 2 && s[0] == '\n' && s[1] == '\n' {
        (if seen {
            1nat
        } else {
            0nat
        }) + paragraph_count_from(s.subrange(2, s.len() as int), false)
    } else {
        paragraph_count_from(s.subrange(1, s.len() as int), seen || !white_space(s[0]))
    }
}

/// Number of paragraphs of `s`: the pieces between `"\n\n"` separators that
/// are not blank.
pub open spec fn paragraph_count(s: Seq<char>) -> nat {
    paragraph_count_from(s, false)
}

pub proof fn lemma_non_space_count_le(s: Seq<char>)
    ensures
        non_space_count(s) <= s.len(),
    decreases s.len(),
{
    if s.len() > 0 {
        lemma_non_space_count_le(s.drop_last());
    }
}

/// Number of characters that are not whitespace.
pub fn count_non_space(s: &Vec<char>) -> (r: usize)
    ensures
        r == non_space_count(s@),
        r <= s@.len(),
{
    let mut r: usize = 0;
    let mut i: usize = 0;
    while i < s.len()
        invariant
            i <= s@.len(),
            r == non_space_count(s@.subrange(0, i as int)),
        decreases s@.len() - i,
    {
        proof {
            lemma_non_space_count_le(s@.subrange(0, i as int));
            assert(s@.subrange(0, i + 1).drop_last() =~= s@.subrange(0, i as int));
        }
        if !is_whitespace(s[i]) {
            r = r + 1;
        }
        i = i + 1;
    }
    proof {
        assert(s@.subrange(0, s@.len() as int) =~= s@);
        lemma_non_space_count_le(s@);
    }
    r
}

/// Whether the text holds whitespace only.
pub fn blank(s: &str) -> (r: bool)
    ensures
        r == is_blank(s@),
{
    let cs = chars_of(s);
    let mut i: usize = 0;
    while i < cs.len()
        invariant
            i <= cs@.len(),
            cs@ == s@,
            forall|j: int| 0 <= j < i ==> white_space(#[trigger] cs@[j]),
        decreases cs@.len() - i,
    {
        if !is_whitespace(cs[i]) {
            return false;
        }
        i = i + 1;
    }
    true
}

/// Number of texts that are not blank.
pub fn count_non_blank(ps: &Vec<String>) -> (r: usize)
    ensures
        r == non_blank_count(ps@.map_values(|p: String| p@)),
{
    let ghost vs = ps@.map_values(|p: String| p@);
    let mut r: usize = 0;
    let mut i: usize = 0;
    while i < ps.len()
        invariant
            i <= ps@.len(),
            vs == ps@.map_values(|p: String| p@),
            r == non_blank_count(vs.subrange(0, i as int)),
            r <= i,
        decreases ps@.len() - i,
    {
        proof {
            assert(vs.subrange(0, i + 1).drop_last() =~= vs.subrange(0, i as int));
        }
        if !blank(ps[i].as_str()) {
            r = r + 1;
        }
        i = i + 1;
    }
    proof {
        assert(vs.subrange(0, ps@.len() as int) =~= vs);
    }
    r
}

/// Number of paragraphs: pieces between blank-line separators that are not
/// blank.
pub fn count_paragraphs(s: &Vec<char>) -> (r: usize)
    ensures
        r == paragraph_count(s@),
{
    let n = s.len();
    let mut r: usize = 0;
    let mut seen = false;
    let mut i: usize = 0;
    assert(s@.subrange(0, n as int) =~= s@);
    while i < n
        invariant
            n == s@.len(),
            i <= n,
            r + (if seen {
                1int
            } else {
                0int
            }) <= i,
            r + paragraph_count_from(s@.subrange(i as int, n as int), seen) == paragraph_count(
                s@,
            ),
        decreases n - i,
    {
        let ghost rest = s@.subrange(i as int, n as int);
        if i + 1 < n && s[i] == '\n' && s[i + 1] == '\n' {
            proof {
                assert(rest.subrange(2, rest.len() as int) =~= s@.subrange(i + 2, n as int));
            }
            if seen {
                r = r + 1;
            }
            seen = false;
            i = i + 2;
        } else {
            proof {
                assert(rest.subrange(1, rest.len() as int) =~= s@.subrange(i + 1, n as int));
            }
            if !is_whitespace(s[i]) {
                seen = true;
            }
            i = i + 1;
        }
    }
    proof {
        assert(s@.subrange(n as int, n as int).len() == 0);
    }
    if seen {
        r = r + 1;
    }
    r
}

} // verus!
