use bpe_tokenizer::seed::{
    corpus_pair_weight, count_total_words, count_words, find_word, seed_entries, seed_tokens,
    split_graphemes, WordCount,
};
use bpe_tokenizer::types::WordEntry;

fn strings(words: &[&str]) -> Vec<String> {
    words.iter().map(|w| w.to_string()).collect()
}

fn row(word: &str, count: u64) -> WordCount {
    WordCount { word: word.to_string(), count }
}

fn entry(tokens: &[&str], count: u64) -> WordEntry {
    WordEntry { tokens: strings(tokens), count }
}

#[test]
fn count_total_words_adds_the_phrases_up() {
    let phrases = vec![strings(&["ab", "ab", "ab"]), Vec::new(), strings(&["ab", "cd"])];
    assert_eq!(count_total_words(&phrases), Some(5));
    assert_eq!(count_total_words(&Vec::new()), Some(0));
}

#[test]
fn count_words_counts_over_the_whole_corpus() {
    let phrases = vec![strings(&["ab", "ab", "ab"]), strings(&["ab", "cd"])];
    assert_eq!(count_words(&phrases), vec![row("ab", 4), row("cd", 1)]);
}

#[test]
fn count_words_lists_words_in_order_of_first_occurrence() {
    let phrases = vec![strings(&["b", "a", "b"]), strings(&["c", "a", "c", "c"])];
    assert_eq!(count_words(&phrases), vec![row("b", 2), row("a", 2), row("c", 3)]);
}

#[test]
fn count_words_of_an_empty_corpus() {
    assert_eq!(count_words(&Vec::new()), Vec::<WordCount>::new());
    assert_eq!(count_words(&vec![Vec::new(), Vec::new()]), Vec::<WordCount>::new());
}

#[test]
fn find_word_gives_the_row() {
    let table = vec![row("ab", 4), row("cd", 1)];
    assert_eq!(find_word(&table, &"cd".to_string()), Some(1));
    assert_eq!(find_word(&table, &"dc".to_string()), None);
}

#[test]
fn split_graphemes_gives_one_token_for_each_character() {
    assert_eq!(split_graphemes(&"abc".to_string()), strings(&["a", "b", "c"]));
    assert_eq!(split_graphemes(&String::new()), Vec::<String>::new());
}

#[test]
fn split_graphemes_splits_at_characters_not_bytes() {
    assert_eq!(split_graphemes(&"d\u{e9}j\u{e0}".to_string()), strings(&["d", "\u{e9}", "j", "\u{e0}"]));
    assert_eq!(split_graphemes(&"\u{8d8a}\u{1f600}".to_string()), strings(&["\u{8d8a}", "\u{1f600}"]));
}

#[test]
fn seed_entries_keeps_order_and_counts() {
    let table = vec![row("ab", 4), row("c", 1), row("", 2)];
    assert_eq!(
        seed_entries(&table),
        vec![entry(&["a", "b"], 4), entry(&["c"], 1), entry(&[], 2)]
    );
}

#[test]
fn seed_tokens_numbers_distinct_tokens_in_order_of_first_occurrence() {
    let corpus = vec![entry(&["l", "o", "w"], 5), entry(&["l", "o", "w", "e", "r"], 2), entry(&["n", "e", "w"], 6)];
    assert_eq!(seed_tokens(&corpus), strings(&["l", "o", "w", "e", "r", "n"]));
}

#[test]
fn seed_tokens_has_no_entry_twice() {
    let corpus = vec![entry(&["a", "a", "a"], 1), entry(&["a"], 1)];
    assert_eq!(seed_tokens(&corpus), strings(&["a"]));
    assert_eq!(seed_tokens(&Vec::new()), Vec::<String>::new());
}

#[test]
fn corpus_pair_weight_weights_pairs_by_count() {
    // 5 * 2 + 2 * 4 + 7 * 0 + 3 * 0 = 18.
    let corpus = vec![
        entry(&["l", "o", "w"], 5),
        entry(&["l", "o", "w", "e", "r"], 2),
        entry(&["a"], 7),
        entry(&[], 3),
    ];
    assert_eq!(corpus_pair_weight(&corpus), Some(18));
    assert_eq!(corpus_pair_weight(&Vec::new()), Some(0));
}

#[test]
fn corpus_pair_weight_reports_what_does_not_fit() {
    assert_eq!(corpus_pair_weight(&vec![entry(&["a", "b", "c"], u64::MAX)]), None);
    assert_eq!(
        corpus_pair_weight(&vec![entry(&["a", "b"], u64::MAX), entry(&["a", "b"], 1)]),
        None
    );
    assert_eq!(corpus_pair_weight(&vec![entry(&["a", "b"], u64::MAX)]), Some(u64::MAX));
}
