use wdlib::count::{blank, count_non_space, count_paragraphs};

use wdlib::rank::{longest_by_length, top_by_count};
use wdlib::stats::{count_sentences, reading_time_seconds, tokens, total_letters};
use wdlib::tally::tally;
use wdlib::{analyze_text_fast, WordStats};

fn strings(ws: &[&str]) -> Vec<String> {
    ws.iter().map(|w| w.to_string()).collect()
}

#[test]
fn empty_input_gives_zero_counts() {
    let s = analyze_text_fast("");
    assert_eq!(s.words, 0);
    assert_eq!(s.characters, 0);
    assert_eq!(s.characters_no_spaces, 0);
    assert_eq!(s.sentences, 0);
    assert_eq!(s.paragraphs, 0);
    assert_eq!(s.unique_words, 0);
    assert_eq!(s.total_letters, 0);
    assert_eq!(s.reading_time_seconds, 0);
    assert!(s.top_words.is_empty());
    assert!(s.longest_words.is_empty());
}

#[test]
fn hello_world_example() {
    let s = analyze_text_fast("Hello world. Hello again!");
    assert_eq!(s.words, 4);
    assert_eq!(s.sentences, 2);
    assert_eq!(s.unique_words, 3);
    assert_eq!(s.top_words[0], ("hello".to_string(), 2));
    assert_eq!(s.top_words.len(), 3);
    assert_eq!(s.longest_words, strings(&["again", "hello", "world"]));
    assert_eq!(s.total_letters, 20);
    assert_eq!(s.characters, 25);
    assert_eq!(s.characters_no_spaces, 22);
    assert_eq!(s.paragraphs, 1);
    assert_eq!(s.reading_time_seconds, 1);
}

#[test]
fn hello_world_tokens_are_lowercased() {
    let ts = tokens("Hello world. Hello again!");
    assert_eq!(ts, strings(&["hello", "world", "hello", "again"]));
    let t = tally(&ts);
    assert_eq!(
        t,
        vec![("hello".to_string(), 2), ("world".to_string(), 1), ("again".to_string(), 1)]
    );
}

#[test]
fn no_letters_gives_no_words() {
    let s = analyze_text_fast("123 456");
    assert_eq!(s.words, 0);
    assert_eq!(s.total_letters, 0);
    assert!(s.top_words.is_empty());
    assert!(s.longest_words.is_empty());
    assert_eq!(s.characters, 7);
    assert_eq!(s.characters_no_spaces, 6);
}

#[test]
fn blank_lines_separate_paragraphs() {
    let s = analyze_text_fast("A\n\nB\n\nC");
    assert_eq!(s.paragraphs, 3);
}

#[test]
fn blank_paragraphs_are_not_counted() {
    let cs: Vec<char> = "\n\n  \n\nText\n\n\nMore\n\n".chars().collect();
    assert_eq!(count_paragraphs(&cs), 2);
    let none: Vec<char> = Vec::new();
    assert_eq!(count_paragraphs(&none), 0);
    let single: Vec<char> = "one\nline".chars().collect();
    assert_eq!(count_paragraphs(&single), 1);
}

#[test]
fn unique_words_never_exceed_words() {
    let s = analyze_text_fast("the cat and the dog and the bird");
    assert_eq!(s.words, 8);
    assert_eq!(s.unique_words, 5);
    assert!(s.unique_words <= s.words);
    assert!(s.characters_no_spaces <= s.characters);
}

#[test]
fn rankings_keep_at_most_five() {
    let s = analyze_text_fast("one two three four five six seven eight nine ten eleven");
    assert_eq!(s.unique_words, 11);
    assert_eq!(s.top_words.len(), 5);
    assert_eq!(s.longest_words.len(), 5);
    assert_eq!(s.longest_words, strings(&["eleven", "eight", "seven", "three", "five"]));
}

#[test]
fn reading_time_values() {
    assert_eq!(reading_time_seconds(0), 0);
    assert_eq!(reading_time_seconds(4), 1);
    assert_eq!(reading_time_seconds(15), 4);
    assert_eq!(reading_time_seconds(224), 59);
    assert_eq!(reading_time_seconds(225), 60);
    assert_eq!(reading_time_seconds(450), 120);
}

#[test]
fn reading_time_is_monotonic() {
    let mut prev = 0;
    for w in 0..2000usize {
        let t = reading_time_seconds(w);
        assert!(t >= prev);
        prev = t;
    }
}

#[test]
fn hyphenated_words_stay_whole() {
    let ts = tokens("A state-of-the-art design, isn't it?");
    assert_eq!(ts, strings(&["a", "state-of-the-art", "design", "isn't", "it"]));
    assert_eq!(total_letters(&strings(&["state-of-the-art", "isn't"])), 17);
}

#[test]
fn uppercase_words_are_counted_together() {
    let s = analyze_text_fast("HELLO Hello hello");
    assert_eq!(s.top_words, vec![("hello".to_string(), 3)]);
    assert_eq!(s.unique_words, 1);
}

#[test]
fn equal_counts_keep_first_occurrence_order() {
    let t = tally(&strings(&["b", "a", "a", "b", "c"]));
    let top = top_by_count(&t, 5);
    assert_eq!(
        top,
        vec![("b".to_string(), 2), ("a".to_string(), 2), ("c".to_string(), 1)]
    );
    assert_eq!(top_by_count(&t, 1), vec![("b".to_string(), 2)]);
    assert!(top_by_count(&t, 0).is_empty());
}

#[test]
fn longest_words_by_bytes_then_lexically() {
    let r = longest_by_length(&strings(&["c", "\u{e9}", "ab", "zz"]), 5);
    assert_eq!(r, strings(&["ab", "zz", "\u{e9}", "c"]));
    let r2 = longest_by_length(&strings(&["bb", "aa", "ccc"]), 2);
    assert_eq!(r2, strings(&["ccc", "aa"]));
}

#[test]
fn sentences_split_at_end_marks() {
    assert_eq!(count_sentences("One. Two! Three?"), 3);
    assert_eq!(count_sentences("No end mark"), 1);
    assert_eq!(count_sentences("Wait... what?!  Yes."), 3);
    assert_eq!(count_sentences(""), 0);
    assert_eq!(count_sentences("3.14 is pi"), 1);
}

#[test]
fn whitespace_and_characters() {
    let cs: Vec<char> = "a b\tc\u{3000}d".chars().collect();
    assert_eq!(count_non_space(&cs), 4);
    assert!(blank(" \n\t"));
    assert!(blank(""));
    assert!(!blank(" x "));
    let s = analyze_text_fast("h\u{e9}llo");
    assert_eq!(s.characters, 5);
    assert_eq!(s.total_letters, 5);
}

#[test]
fn new_stats_are_empty() {
    let s = WordStats::new();
    assert_eq!(s.words, 0);
    assert_eq!(s.characters, 0);
    assert!(s.top_words.is_empty());
    assert!(s.longest_words.is_empty());
}

#[test]
fn analyze_replaces_previous_values() {
    let mut s = analyze_text_fast("many many words here");
    s.analyze("one");
    assert_eq!(s.words, 1);
    assert_eq!(s.top_words, vec![("one".to_string(), 1)]);
    assert_eq!(s.longest_words, strings(&["one"]));
}
