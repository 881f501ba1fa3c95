//! Properties that hold of every analysis.
use vstd::prelude::*;

use crate::count::{lemma_non_space_count_le, paragraph_count, non_space_count};
use crate::stats::{describes, reading_time, tokens_of, WordStats, RANK_SIZE};
use crate::tally::lemma_distinct_words;

verus! {

/// There are never more distinct words than words, nor more characters that
/// are not whitespace than characters.
pub proof fn lemma_counts_bounded(s: WordStats, text: Seq<char>)
    requires
        describes(s, text),
    ensures
        s.unique_words <= s.words,
        s.characters_no_spaces <= s.characters,
{
    lemma_distinct_words(tokens_of(text));
    lemma_non_space_count_le(text);
}

/// Both rankings hold at most five entries, however many words the text has.
pub proof fn lemma_rankings_bounded(s: WordStats, text: Seq<char>)
    requires
        describes(s, text),
    ensures
        s.top_words@.len() <= 5,
        s.longest_words@.len() <= 5,
{
    assert(RANK_SIZE == 5);
}

/// More words never take less time to read.
pub proof fn lemma_reading_time_monotonic(a: nat, b: nat)
    requires
        a <= b,
    ensures
        reading_time(a) <= reading_time(b),
{
    vstd::arithmetic::div_mod::lemma_div_is_ordered((a * 60) as int, (b * 60) as int, 225);
}

/// The empty text has no characters and no paragraphs.
pub proof fn lemma_empty_text_counts(s: WordStats)
    requires
        describes(s, Seq::<char>::empty()),
    ensures
        s.characters == 0,
        s.characters_no_spaces == 0,
        s.paragraphs == 0,
{
    assert(non_space_count(Seq::<char>::empty()) == 0);
    assert(paragraph_count(Seq::<char>::empty()) == 0);
}

} // verus!
