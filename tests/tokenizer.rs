use std::collections::HashMap;
use wcloud::tokenizer::{keep_common_case, WORD_PATTERN};
use wcloud::{Tokenizer, WeightedWord, DEFAULT_EXCLUDE_WORDS_TEXT};

fn count_map(frequencies: &[(String, usize)]) -> HashMap<&str, usize> {
    frequencies.iter().map(|(w, c)| (w.as_str(), *c)).collect()
}

fn weight(w: &WeightedWord) -> f32 {
    let base = w.count as f32 / w.max_count as f32;
    if w.repetition == 0 {
        base
    } else {
        base * (w.decay_count as f32 / w.max_count as f32).powf(w.repetition as f32)
    }
}

fn weighted(words: &[WeightedWord]) -> Vec<(&str, f32)> {
    words.iter().map(|w| (w.text.as_str(), weight(w))).collect()
}

#[test]
fn simple_word_frequencies() {
    let words = "A woodchuck would chuck as much wood as a woodchuck could chuck if a woodchuck could chuck wood";

    let tokenizer = Tokenizer::default();
    let frequencies = tokenizer.get_word_frequencies(words);

    let expected: HashMap<&str, usize> = vec![
        ("could", 2), ("much", 1), ("if", 1), ("woodchuck", 3),
        ("as", 2), ("wood", 2), ("would", 1), ("chuck", 3), ("a", 3)
    ].into_iter().collect();

    assert_eq!(count_map(&frequencies.0), expected);
    assert_eq!(frequencies.1, 3);
}

#[test]
fn simple_normalized_word_frequencies() {
    let words = "A a wood chuck could could Could ChuCK";

    let tokenizer = Tokenizer::default()
        .with_repeat(true)
        .with_max_words(12);
    let frequencies = tokenizer.get_normalized_word_frequencies(words);

    let expected = vec![
        ("could", 1.0), ("a", 0.6666667), ("chuck", 0.6666667), ("wood", 0.33333334),
        ("could", 0.33333334), ("a", 0.22222224), ("chuck", 0.22222224), ("wood", 0.11111112),
        ("could", 0.11111112), ("a", 0.07407408), ("chuck", 0.07407408), ("wood", 0.03703704)
    ];

    assert_eq!(weighted(&frequencies), expected);
}

#[test]
fn keeps_most_common_case() {
    let words = "LUKE Luke luke luke Luke LUKE LUKE lUKE Luke LUKE luKe lukE";

    let tokenizer = Tokenizer::default();
    let frequencies = tokenizer.get_word_frequencies(words);

    let expected: HashMap<&str, usize> = vec![
        ("LUKE", 12)
    ].into_iter().collect();

    assert_eq!(count_map(&frequencies.0), expected);
}

#[test]
fn filter_works() {
    let words = "The quick brown fox jumps over the lazy dog. The dog was otherwise very fine.";
    let filter = DEFAULT_EXCLUDE_WORDS_TEXT
        .split("\n")
        .collect::<Vec<_>>();

    let tokenizer = Tokenizer::default()
        .with_filter(filter);
    let frequencies = tokenizer.get_word_frequencies(words);

    println!("original words: {:?} changed: {:?}", words, frequencies.0);

    let expected: HashMap<&str, usize> = vec![
        ("fox", 1), ("brown", 1), ("dog", 2), ("lazy", 1), ("jumps", 1), ("fine", 1), ("quick", 1)
    ].into_iter().collect();

    assert_eq!(count_map(&frequencies.0), expected);
}

#[test]
fn case_tie_keeps_greatest_spelling() {
    let frequencies = Tokenizer::default().get_word_frequencies("Luke luke LUKE");
    assert_eq!(count_map(&frequencies.0), vec![("luke", 3)].into_iter().collect());
}

#[test]
fn empty_text_gives_nothing() {
    let tokenizer = Tokenizer::default().with_repeat(true);
    let frequencies = tokenizer.get_word_frequencies("  ... !!");
    assert!(frequencies.0.is_empty());
    assert_eq!(frequencies.1, 0);
    assert!(tokenizer.get_normalized_word_frequencies("").is_empty());
}

#[test]
fn numbers_are_excluded_unless_asked() {
    let text = "abc 123 45 abc 6x";
    let excluded = Tokenizer::default().get_word_frequencies(text);
    assert_eq!(count_map(&excluded.0), vec![("abc", 2), ("6x", 1)].into_iter().collect());
    let kept = Tokenizer::default().with_exclude_numbers(false).get_word_frequencies(text);
    assert_eq!(count_map(&kept.0), vec![("abc", 2), ("6x", 1), ("123", 1), ("45", 1)].into_iter().collect());
}

#[test]
fn min_word_length_counts_bytes() {
    let tokenizer = Tokenizer::default().with_min_word_length(3);
    let frequencies = tokenizer.get_word_frequencies("ab abc éa abcd");
    assert_eq!(count_map(&frequencies.0), vec![("abc", 1), ("éa", 1), ("abcd", 1)].into_iter().collect());
}

#[test]
fn max_words_caps_tokens_before_filtering() {
    let tokenizer = Tokenizer::default().with_max_words(3).with_filter(vec!["the"]);
    let frequencies = tokenizer.get_word_frequencies("the cat the dog");
    assert_eq!(count_map(&frequencies.0), vec![("cat", 1)].into_iter().collect());
    let unlimited = Tokenizer::default().with_max_words(0).get_word_frequencies("a b c d e");
    assert_eq!(unlimited.0.len(), 5);
}

#[test]
fn filter_is_case_insensitive() {
    let tokenizer = Tokenizer::default().with_filter(vec!["CAT"]);
    let frequencies = tokenizer.get_word_frequencies("Cat cat dog");
    assert_eq!(count_map(&frequencies.0), vec![("dog", 1)].into_iter().collect());
}

#[test]
fn ranking_breaks_ties_by_word() {
    let words = Tokenizer::default().get_normalized_word_frequencies("pear apple fig apple pear fig kiwi");
    let texts: Vec<&str> = words.iter().map(|w| w.text.as_str()).collect();
    assert_eq!(texts, vec!["apple", "fig", "pear", "kiwi"]);
    assert!(words.iter().all(|w| w.repetition == 0 && w.max_count == 2));
}

#[test]
fn repeat_fills_to_max_words() {
    // counts 3, 2, 1: weights 1.0, 0.667, 0.333
    let text = "A A A B B C";
    let words = Tokenizer::default().with_repeat(true).with_max_words(7).get_normalized_word_frequencies(text);
    assert_eq!(words.len(), 9);
    let texts: Vec<&str> = words.iter().map(|w| w.text.as_str()).collect();
    assert_eq!(texts, vec!["A", "B", "C", "A", "B", "C", "A", "B", "C"]);
    let reps: Vec<u32> = words.iter().map(|w| w.repetition).collect();
    assert_eq!(reps, vec![0, 0, 0, 1, 1, 1, 2, 2, 2]);
    assert!(words.iter().all(|w| w.decay_count == 1 && w.max_count == 3));
    let ws = weighted(&words);
    assert!((ws[3].1 - 1.0 / 3.0).abs() < 1e-6);
    assert!((ws[8].1 - 1.0 / 27.0).abs() < 1e-6);
}

#[test]
fn repeat_does_nothing_when_list_is_long_enough() {
    // the cap takes two matches, which already reach max_words
    let words = Tokenizer::default().with_repeat(true).with_max_words(2).get_normalized_word_frequencies("x y z");
    assert_eq!(words.len(), 2);
    assert!(words.iter().all(|w| w.repetition == 0));
}

#[test]
fn custom_regex_splits_differently() {
    let tokenizer = Tokenizer::default().with_regex(regex::Regex::new("[a-z]+").unwrap());
    let frequencies = tokenizer.get_word_frequencies("don't stop");
    assert_eq!(count_map(&frequencies.0), vec![("don", 1), ("t", 1), ("stop", 1)].into_iter().collect());
}

#[test]
fn keep_common_case_folds_each_cluster() {
    let words: Vec<String> = ["Rose", "rose", "ROSE", "rose", "Tulip", "TULIP"].iter().map(|w| w.to_string()).collect();
    let folded = keep_common_case(&words);
    assert_eq!(count_map(&folded), vec![("rose", 4), ("Tulip", 2)].into_iter().collect());
}

#[test]
fn default_tokenizer_uses_word_pattern() {
    let tokenizer = Tokenizer::default();
    assert_eq!(tokenizer.regex.as_ref().unwrap().as_str(), WORD_PATTERN);
    assert_eq!(tokenizer.max_words, 200);
    assert!(tokenizer.exclude_numbers && !tokenizer.repeat && tokenizer.filter.is_empty());
}

#[test]
fn regex_options_are_kept() {
    let re = regex::RegexBuilder::new("a+").case_insensitive(true).build().unwrap();
    let frequencies = Tokenizer::default().with_regex(re).get_word_frequencies("aA b AA");
    assert_eq!(count_map(&frequencies.0), vec![("aA", 2)].into_iter().collect());
}
