use bpe_tokenizer::pairs::{count_pairs, find_pair, rank_pairs, PairCount};
use bpe_tokenizer::types::WordEntry;

fn entry(tokens: &[&str], count: u64) -> WordEntry {
    WordEntry { tokens: tokens.iter().map(|t| t.to_string()).collect(), count }
}

fn pair(left: &str, right: &str, count: u64) -> PairCount {
    PairCount { left: left.to_string(), right: right.to_string(), count }
}

#[test]
fn count_pairs_of_two_tokens_counts_the_one_pair() {
    assert_eq!(count_pairs(&vec![entry(&["a", "b"], 1)]), vec![pair("a", "b", 1)]);
}

#[test]
fn count_pairs_of_three_tokens_counts_both_pairs() {
    assert_eq!(
        count_pairs(&vec![entry(&["a", "b", "c"], 1)]),
        vec![pair("a", "b", 1), pair("b", "c", 1)]
    );
}

#[test]
fn count_pairs_skips_entries_without_a_pair() {
    assert_eq!(count_pairs(&vec![entry(&[], 4), entry(&["a"], 9)]), Vec::<PairCount>::new());
    assert_eq!(count_pairs(&Vec::new()), Vec::<PairCount>::new());
}

#[test]
fn count_pairs_weights_each_occurrence_by_the_count_of_its_word() {
    // "ab" occurs four times, "cd" once.
    let corpus = vec![entry(&["a", "b"], 4), entry(&["c", "d"], 1)];
    assert_eq!(count_pairs(&corpus), vec![pair("a", "b", 4), pair("c", "d", 1)]);
}

#[test]
fn count_pairs_adds_up_over_words_and_repeats() {
    let corpus = vec![entry(&["a", "b", "a", "b"], 3), entry(&["b", "a"], 2), entry(&["a", "b"], 10)];
    // ("a","b"): 2 * 3 + 10 = 16; ("b","a"): 3 + 2 = 5.
    assert_eq!(count_pairs(&corpus), vec![pair("a", "b", 16), pair("b", "a", 5)]);
}

#[test]
fn count_pairs_lists_pairs_in_order_of_first_occurrence() {
    let corpus = vec![entry(&["l", "o", "w"], 5), entry(&["l", "o", "w", "e", "r"], 2)];
    assert_eq!(
        count_pairs(&corpus),
        vec![pair("l", "o", 7), pair("o", "w", 7), pair("w", "e", 2), pair("e", "r", 2)]
    );
}

#[test]
fn count_pairs_tells_the_order_within_a_pair() {
    let corpus = vec![entry(&["a", "b"], 1), entry(&["b", "a"], 1)];
    assert_eq!(count_pairs(&corpus), vec![pair("a", "b", 1), pair("b", "a", 1)]);
}

#[test]
fn find_pair_gives_the_row() {
    let table = vec![pair("a", "b", 1), pair("b", "c", 2)];
    assert_eq!(find_pair(&table, &"b".to_string(), &"c".to_string()), Some(1));
    assert_eq!(find_pair(&table, &"c".to_string(), &"b".to_string()), None);
}

#[test]
fn rank_pairs_orders_by_descending_count() {
    let table = vec![pair("a", "b", 2), pair("b", "c", 9), pair("c", "d", 5)];
    assert_eq!(rank_pairs(&table), vec![1, 2, 0]);
}

#[test]
fn rank_pairs_keeps_table_order_among_equal_counts() {
    let table = vec![
        pair("a", "b", 7),
        pair("b", "c", 9),
        pair("c", "d", 7),
        pair("d", "e", 9),
        pair("e", "f", 7),
    ];
    assert_eq!(rank_pairs(&table), vec![1, 3, 0, 2, 4]);
}

#[test]
fn rank_pairs_of_empty_and_single_tables() {
    assert_eq!(rank_pairs(&Vec::new()), Vec::<usize>::new());
    assert_eq!(rank_pairs(&vec![pair("a", "b", 0)]), vec![0]);
}
