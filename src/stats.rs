//! The statistics of one text and the analysis that produces them.
use vstd::prelude::*;

use crate::count::{
    count_non_blank, count_non_space, count_paragraphs, non_blank_count, non_space_count,
    paragraph_count,
};
use crate::outside::{
    alphabetic, chars_of, compile, find_all, is_alphabetic, lower_of, lowercase, regex_accepts,
    regex_matches, regex_pieces, split_all, views,
};
use crate::rank::{is_longest, is_top_by_count, longest_by_length, top_by_count};
use crate::tally::{distinct_words, lemma_distinct_words, pairs_view, tally, tally_of};

verus! {

/// A sentence ends at a run of `.`, `!` or `?` followed by whitespace.
pub const SENTENCE_PATTERN: &'static str = r"[.!?]+[\s\n]+";

/// A word is a run of letters, marks and apostrophes, possibly joined by
/// hyphens into further such runs.
pub const WORD_PATTERN: &'static str = r"\b[\p{L}\p{M}']+(?:-[\p{L}\p{M}']+)*\b";

/// How many entries the rankings keep.
pub const RANK_SIZE: usize = 5;

/// Statistics of one text. The mean word length is `total_letters / words`
/// (0 when there are no words).
#[derive(Clone, Debug)]
pub struct WordStats {
    pub words: usize,
    pub characters: usize,
    pub characters_no_spaces: usize,
    pub sentences: usize,
    pub paragraphs: usize,
    pub unique_words: usize,
    pub total_letters: usize,
    pub reading_time_seconds: usize,
    pub top_words: Vec<(String, usize)>,
    pub longest_words: Vec<String>,
}

/// The words of `text`, lowercased, in order.
pub open spec fn tokens_of(text: Seq<char>) -> Seq<Seq<char>> {
    if regex_accepts(WORD_PATTERN@) {
        regex_matches(WORD_PATTERN@, text).map_values(|m: Seq<char>| lower_of(m))
    } else {
        seq![]
    }
}

/// Number of sentences: the pieces between sentence ends that are not blank.
pub open spec fn sentence_count(text: Seq<char>) -> nat {
    if regex_accepts(SENTENCE_PATTERN@) {
        non_blank_count(regex_pieces(SENTENCE_PATTERN@, text))
    } else {
        0
    }
}

/// Number of alphabetic characters of `w`.
pub open spec fn letter_count(w: Seq<char>) -> nat
    decreases w.len(),
{
    if w.len() == 0 {
        0
    } else {
        letter_count(w.drop_last()) + if alphabetic(w.last()) {
            1nat
        } else {
            0nat
        }
    }
}

/// Number of alphabetic characters over all of `ts`.
pub open spec fn letters_total(ts: Seq<Seq<char>>) -> nat
    decreases ts.len(),
{
    if ts.len() == 0 {
        0
    } else {
        letters_total(ts.drop_last()) + letter_count(ts.last())
    }
}

/// Estimated reading time in seconds at 225 words per minute, truncated.
pub open spec fn reading_time(words: nat) -> nat {
    words * 60 / 225
}

/// `s` holds the statistics of `text`.
pub open spec fn describes(s: WordStats, text: Seq<char>) -> bool {
    let ts = tokens_of(text);
    &&& s.characters == text.len()
    &&& s.characters_no_spaces == non_space_count(text)
    &&& s.paragraphs == paragraph_count(text)
    &&& s.sentences == sentence_count(text)
    &&& s.words == ts.len()
    &&& s.unique_words == distinct_words(ts).len()
    &&& s.total_letters == if letters_total(ts) <= usize::MAX {
        letters_total(ts)
    } else {
        usize::MAX as nat
    }
    &&& s.reading_time_seconds == reading_time(ts.len())
    &&& is_top_by_count(pairs_view(s.top_words@), tally_of(ts), RANK_SIZE as nat)
    &&& is_longest(views(s.longest_words@), distinct_words(ts), RANK_SIZE as nat)
}

/// Estimated reading time in seconds at 225 words per minute, truncated.
pub fn reading_time_seconds(words: usize) -> (r: usize)
    ensures
        r == reading_time(words as nat),
{
    words / 15 * 4 + (words % 15) * 4 / 15
}

/// Number of alphabetic characters of `w`.
pub fn count_letters(w: &str) -> (r: usize)
    ensures
        r == letter_count(w@),
{
    let cs = chars_of(w);
    let mut r: usize = 0;
    let mut i: usize = 0;
    while i < cs.len()
        invariant
            i <= cs@.len(),
            cs@ == w@,
            r == letter_count(cs@.subrange(0, i as int)),
            r <= i,
        decreases cs@.len() - i,
    {
        proof {
            assert(cs@.subrange(0, i + 1).drop_last() =~= cs@.subrange(0, i as int));
        }
        if is_alphabetic(cs[i]) {
            r = r + 1;
        }
        i = i + 1;
    }
    proof {
        assert(cs@.subrange(0, cs@.len() as int) =~= cs@);
    }
    r
}

/// Number of alphabetic characters over all words, or `usize::MAX` where the
/// count does not fit.
pub fn total_letters(words: &Vec<String>) -> (r: usize)
    ensures
        r == if letters_total(views(words@)) <= usize::MAX {
            letters_total(views(words@))
        } else {
            usize::MAX as nat
        },
{
    let ghost ts = views(words@);
    let mut r: usize = 0;
    let mut i: usize = 0;
    while i < words.len()
        invariant
            i <= words@.len(),
            ts == views(words@),
            r == if letters_total(ts.subrange(0, i as int)) <= usize::MAX {
                letters_total(ts.subrange(0, i as int))
            } else {
                usize::MAX as nat
            },
        decreases words@.len() - i,
    {
        proof {
            assert(ts.subrange(0, i + 1).drop_last() =~= ts.subrange(0, i as int));
        }
        let c = count_letters(words[i].as_str());
        r = r.saturating_add(c);
        i = i + 1;
    }
    proof {
        assert(ts.subrange(0, words@.len() as int) =~= ts);
    }
    r
}

/// The words of `text`, lowercased, in order.
pub fn tokens(text: &str) -> (r: Vec<String>)
    ensures
        views(r@) == tokens_of(text@),
{
    let mut r: Vec<String> = Vec::new();
    match compile(WORD_PATTERN) {
        Some(pattern) => {
            let found = find_all(&pattern, text);
            let ghost ms = views(found@);
            let mut i: usize = 0;
            while i < found.len()
                invariant
                    i <= found@.len(),
                    ms == views(found@),
                    ms == regex_matches(WORD_PATTERN@, text@),
                    regex_accepts(WORD_PATTERN@),
                    r@.len() == i,
                    views(r@) == ms.subrange(0, i as int).map_values(|m: Seq<char>| lower_of(m)),
                decreases found@.len() - i,
            {
                let ghost before = r@;
                r.push(lowercase(found[i].as_str()));
                proof {
                    assert(ms[i as int] == found@[i as int]@);
                    assert forall|a: int| 0 <= a < i implies #[trigger] views(r@)[a] == views(before)[a] by {
                        assert(r@[a] == before[a]);
                    }
                    assert(views(r@) =~= ms.subrange(0, i + 1).map_values(|m: Seq<char>| lower_of(m)));
                }
                i = i + 1;
            }
            proof {
                assert(ms.subrange(0, found@.len() as int) =~= ms);
            }
        },
        None => {
            proof {
                assert(views(r@) =~= seq![]);
            }
        },
    }
    r
}

/// Number of sentences of `text`.
pub fn count_sentences(text: &str) -> (r: usize)
    ensures
        r == sentence_count(text@),
{
    match compile(SENTENCE_PATTERN) {
        Some(pattern) => count_non_blank(&split_all(&pattern, text)),
        None => 0,
    }
}

impl WordStats {
    /// Statistics with every count at zero and empty rankings.
    pub fn new() -> (r: WordStats)
        ensures
            r.words == 0,
            r.characters == 0,
            r.characters_no_spaces == 0,
            r.sentences == 0,
            r.paragraphs == 0,
            r.unique_words == 0,
            r.total_letters == 0,
            r.reading_time_seconds == 0,
            r.top_words@.len() == 0,
            r.longest_words@.len() == 0,
    {
        WordStats {
            words: 0,
            characters: 0,
            characters_no_spaces: 0,
            sentences: 0,
            paragraphs: 0,
            unique_words: 0,
            total_letters: 0,
            reading_time_seconds: 0,
            top_words: Vec::new(),
            longest_words: Vec::new(),
        }
    }

    /// Replaces every field by the statistics of `text`.
    pub fn analyze(&mut self, text: &str)
        ensures
            describes(*final(self), text@),
    {
        let cs = chars_of(text);
        self.characters = cs.len();
        self.characters_no_spaces = count_non_space(&cs);
        self.paragraphs = count_paragraphs(&cs);
        self.sentences = count_sentences(text);
        let words = tokens(text);
        let ghost ts = views(words@);
        self.words = words.len();
        self.total_letters = total_letters(&words);
        let counts = tally(&words);
        proof {
            lemma_distinct_words(ts);
            assert(pairs_view(counts@).len() == counts@.len());
        }
        self.unique_words = counts.len();
        self.top_words = top_by_count(&counts, RANK_SIZE);
        let mut distinct: Vec<String> = Vec::new();
        let mut i: usize = 0;
        while i < counts.len()
            invariant
                i <= counts@.len(),
                pairs_view(counts@) == tally_of(ts),
                distinct@.len() == i,
                forall|a: int| 0 <= a < i ==> #[trigger] distinct@[a]@ == distinct_words(ts)[a],
            decreases counts@.len() - i,
        {
            proof {
                assert(pairs_view(counts@)[i as int].0 == counts@[i as int].0@);
                assert(tally_of(ts).len() == distinct_words(ts).len());
                assert(tally_of(ts)[i as int].0 == distinct_words(ts)[i as int]);
            }
            let ghost before = distinct@;
            distinct.push(counts[i].0.clone());
            proof {
                assert forall|a: int| 0 <= a < i implies #[trigger] distinct@[a]@ == distinct_words(ts)[a] by {
                    assert(distinct@[a] == before[a]);
                }
            }
            i = i + 1;
        }
        proof {
            assert(views(distinct@) =~= distinct_words(ts));
        }
        self.longest_words = longest_by_length(&distinct, RANK_SIZE);
        self.reading_time_seconds = reading_time_seconds(self.words);
    }
}

/// The statistics of `text`.
pub fn analyze_text_fast(text: &str) -> (r: WordStats)
    ensures
        describes(r, text@),
{
    let mut stats = WordStats::new();
    stats.analyze(text);
    stats
}

} // verus!
