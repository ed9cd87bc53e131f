use bpe_tokenizer::seed::{count_words, seed_entries, seed_tokens};
use bpe_tokenizer::train::{next_batch, TrainError, LOW_LIMIT};
use bpe_tokenizer::types::{MergeRule, TokenizerModel, WordEntry};

fn strings(words: &[&str]) -> Vec<String> {
    words.iter().map(|w| w.to_string()).collect()
}

fn entry(tokens: &[&str], count: u64) -> WordEntry {
    WordEntry { tokens: strings(tokens), count }
}

fn rule(left: &str, right: &str) -> MergeRule {
    MergeRule { left: left.to_string(), right: right.to_string(), merged: format!("{left}{right}") }
}

fn repeat(word: &str, times: usize) -> Vec<String> {
    vec![word.to_string(); times]
}

/// "low" five times, "lower" twice, "newest" six times, "widest" three times.
fn sample_corpus() -> Vec<Vec<String>> {
    vec![
        repeat("low", 5),
        repeat("lower", 2),
        [repeat("newest", 6), repeat("widest", 3)].concat(),
    ]
}

/// The model before the first round: the target is the number of distinct
/// characters.
fn seeded(phrases: Vec<Vec<String>>) -> TokenizerModel {
    let mut characters: Vec<char> = phrases.iter().flatten().flat_map(|w| w.chars()).collect();
    characters.sort();
    characters.dedup();
    TokenizerModel::new(phrases, characters.len()).unwrap()
}

#[test]
fn low_limit_is_five() {
    assert_eq!(LOW_LIMIT, 5);
}

#[test]
fn next_batch_shrinks_as_the_target_nears() {
    assert_eq!(next_batch(5000), 500);
    assert_eq!(next_batch(1001), 500);
    assert_eq!(next_batch(1000), 300);
    assert_eq!(next_batch(301), 300);
    assert_eq!(next_batch(300), 100);
    assert_eq!(next_batch(101), 100);
    assert_eq!(next_batch(100), 100);
    assert_eq!(next_batch(2), 2);
    assert_eq!(next_batch(1), 1);
    assert_eq!(next_batch(0), 0);
}

#[test]
fn new_seeds_corpus_and_vocabulary() {
    let model = TokenizerModel::new(sample_corpus(), 10).unwrap();
    assert_eq!(
        model.corpus,
        vec![
            entry(&["l", "o", "w"], 5),
            entry(&["l", "o", "w", "e", "r"], 2),
            entry(&["n", "e", "w", "e", "s", "t"], 6),
            entry(&["w", "i", "d", "e", "s", "t"], 3),
        ]
    );
    assert_eq!(model.vocabulary, strings(&["l", "o", "w", "e", "r", "n", "s", "t", "i", "d"]));
    assert_eq!(model.merge_rules, Vec::<MergeRule>::new());
}

#[test]
fn new_with_target_at_seed_size_runs_no_round() {
    let table = count_words(&sample_corpus());
    let corpus = seed_entries(&table);
    let vocabulary = seed_tokens(&corpus);
    let model = TokenizerModel::new(sample_corpus(), vocabulary.len()).unwrap();
    assert_eq!(model, TokenizerModel { corpus, vocabulary, merge_rules: Vec::new() });
    assert_eq!(model.vocabulary.len(), 10);
}

#[test]
fn new_rejects_a_target_below_the_seed_size() {
    assert_eq!(TokenizerModel::new(sample_corpus(), 9), Err(TrainError::DegenerateTarget));
    assert_eq!(TokenizerModel::new(sample_corpus(), 0), Err(TrainError::DegenerateTarget));
}

#[test]
fn new_rejects_a_target_beyond_the_identifiers() {
    if (usize::MAX as u128) > (u32::MAX as u128) {
        assert_eq!(TokenizerModel::new(sample_corpus(), usize::MAX), Err(TrainError::TargetOutOfRange));
        assert_eq!(
            TokenizerModel::new(sample_corpus(), u32::MAX as usize + 1),
            Err(TrainError::TargetOutOfRange)
        );
    }
}

#[test]
fn new_of_an_empty_corpus() {
    let model = TokenizerModel::new(Vec::new(), 0).unwrap();
    assert!(model.corpus.is_empty() && model.vocabulary.is_empty() && model.merge_rules.is_empty());
    // Nothing can be learned: the first round adds nothing and training stops.
    let model = TokenizerModel::new(Vec::new(), 50).unwrap();
    assert!(model.corpus.is_empty() && model.vocabulary.is_empty() && model.merge_rules.is_empty());
}

#[test]
fn new_learns_one_pair_for_a_target_one_above_the_seed() {
    let model = TokenizerModel::new(sample_corpus(), 11).unwrap();
    assert_eq!(model.merge_rules, vec![rule("e", "s")]);
    assert_eq!(model.vocabulary, strings(&["l", "o", "w", "e", "r", "n", "s", "t", "i", "d", "es"]));
    assert_eq!(
        model.corpus,
        vec![
            entry(&["l", "o", "w"], 5),
            entry(&["l", "o", "w", "e", "r"], 2),
            entry(&["n", "e", "w", "es", "t"], 6),
            entry(&["w", "i", "d", "es", "t"], 3),
        ]
    );
}

#[test]
fn new_learns_a_batch_from_one_frequency_snapshot() {
    // Four entries are wanted, so one round of four pairs runs on the counts of
    // the seeded corpus.
    let model = TokenizerModel::new(sample_corpus(), 14).unwrap();
    assert_eq!(model.merge_rules, vec![rule("e", "s"), rule("s", "t"), rule("w", "e"), rule("l", "o")]);
    assert_eq!(
        model.vocabulary,
        strings(&["l", "o", "w", "e", "r", "n", "s", "t", "i", "d", "es", "st", "we", "lo"])
    );
    assert_eq!(
        model.corpus,
        vec![
            entry(&["lo", "w"], 5),
            entry(&["lo", "we", "r"], 2),
            entry(&["n", "e", "we", "st"], 6),
            entry(&["w", "i", "d", "es", "t"], 3),
        ]
    );
}

#[test]
fn new_stops_when_a_round_cannot_fill_its_batch() {
    // Ten entries are wanted, but only seven pairs occur five times or more.
    let model = TokenizerModel::new(sample_corpus(), 20).unwrap();
    assert_eq!(
        model.merge_rules,
        vec![
            rule("e", "s"),
            rule("s", "t"),
            rule("w", "e"),
            rule("l", "o"),
            rule("o", "w"),
            rule("n", "e"),
            rule("e", "w"),
        ]
    );
    assert_eq!(model.vocabulary.len(), 17);
    assert_eq!(
        model.corpus,
        vec![
            entry(&["lo", "w"], 5),
            entry(&["lo", "we", "r"], 2),
            entry(&["ne", "we", "st"], 6),
            entry(&["w", "i", "d", "es", "t"], 3),
        ]
    );
}

#[test]
fn training_keeps_the_characters_of_every_word() {
    for size in 10..24 {
        let model = TokenizerModel::new(sample_corpus(), size).unwrap();
        let words: Vec<String> = model.corpus.iter().map(|e| e.tokens.concat()).collect();
        assert_eq!(words, strings(&["low", "lower", "newest", "widest"]));
        let counts: Vec<u64> = model.corpus.iter().map(|e| e.count).collect();
        assert_eq!(counts, vec![5, 2, 6, 3]);
    }
}

#[test]
fn training_never_reassigns_an_identifier() {
    let mut before = TokenizerModel::new(sample_corpus(), 10).unwrap().vocabulary;
    for size in 11..24 {
        let after = TokenizerModel::new(sample_corpus(), size).unwrap().vocabulary;
        assert!(after.len() >= before.len());
        assert_eq!(after[..before.len()], before[..]);
        let mut sorted = after.clone();
        sorted.sort();
        sorted.dedup();
        assert_eq!(sorted.len(), after.len());
        before = after;
    }
}

#[test]
fn training_keeps_every_token_in_the_vocabulary() {
    for size in 10..24 {
        let model = TokenizerModel::new(sample_corpus(), size).unwrap();
        for entry in &model.corpus {
            for token in &entry.tokens {
                assert!(model.vocabulary.contains(token));
            }
        }
        for rule in &model.merge_rules {
            assert!(model.vocabulary.contains(&rule.merged));
            assert_eq!(rule.merged, format!("{}{}", rule.left, rule.right));
        }
    }
}

#[test]
fn most_frequent_pairs_selects_the_most_frequent_pair_first() {
    // "ab ab ab" and "ab cd": the pair ("a", "b") occurs four times, ("c", "d") once.
    let phrases = vec![strings(&["ab", "ab", "ab"]), strings(&["ab", "cd"])];
    let mut model = seeded(phrases);
    assert_eq!(model.vocabulary, strings(&["a", "b", "c", "d"]));
    let added = model.most_frequent_pairs(2, 2);
    assert_eq!(added, 1);
    assert_eq!(model.merge_rules, vec![rule("a", "b")]);
    assert_eq!(model.vocabulary, strings(&["a", "b", "c", "d", "ab"]));
    // The corpus is rewritten by `update_corpus` only.
    assert_eq!(model.corpus, vec![entry(&["a", "b"], 4), entry(&["c", "d"], 1)]);
    model.update_corpus();
    assert_eq!(model.corpus, vec![entry(&["ab"], 4), entry(&["c", "d"], 1)]);
}

#[test]
fn most_frequent_pairs_takes_a_pair_at_the_limit() {
    let mut model = seeded(vec![strings(&["ab", "ab", "cd"])]);
    assert_eq!(model.most_frequent_pairs(5, 2), 1);
    let mut model = seeded(vec![strings(&["ab", "ab", "cd"])]);
    assert_eq!(model.most_frequent_pairs(5, 3), 0);
    assert!(model.merge_rules.is_empty());
    let mut model = seeded(vec![strings(&["ab", "ab", "cd"])]);
    assert_eq!(model.most_frequent_pairs(5, 0), 2);
    assert_eq!(model.merge_rules, vec![rule("a", "b"), rule("c", "d")]);
}

#[test]
fn most_frequent_pairs_takes_no_more_than_asked_for() {
    let mut model = seeded(sample_corpus());
    assert_eq!(model.most_frequent_pairs(3, 1), 3);
    assert_eq!(model.merge_rules, vec![rule("e", "s"), rule("s", "t"), rule("w", "e")]);
    let mut model = seeded(sample_corpus());
    assert_eq!(model.most_frequent_pairs(0, 1), 0);
    assert!(model.merge_rules.is_empty());
}

#[test]
fn most_frequent_pairs_can_take_every_pair() {
    let mut model = seeded(sample_corpus());
    assert_eq!(model.most_frequent_pairs(100, 0), 11);
    assert_eq!(model.merge_rules.len(), 11);
    assert_eq!(model.merge_rules[10], rule("e", "r"));
}

#[test]
fn most_frequent_pairs_keeps_the_identifier_of_a_known_token() {
    let mut model = TokenizerModel {
        corpus: vec![entry(&["a", "b"], 5)],
        vocabulary: strings(&["a", "ab", "b"]),
        merge_rules: Vec::new(),
    };
    assert_eq!(model.most_frequent_pairs(1, 2), 1);
    assert_eq!(model.merge_rules, vec![rule("a", "b")]);
    assert_eq!(model.vocabulary, strings(&["a", "ab", "b"]));
}

#[test]
fn most_frequent_pairs_gives_two_pairs_with_one_merged_token_one_entry() {
    let mut model = TokenizerModel {
        corpus: vec![entry(&["a", "bc"], 5), entry(&["ab", "c", "d"], 4)],
        vocabulary: strings(&["a", "bc", "ab", "c", "d"]),
        merge_rules: Vec::new(),
    };
    assert_eq!(model.most_frequent_pairs(2, 1), 2);
    assert_eq!(model.merge_rules, vec![rule("a", "bc"), rule("ab", "c")]);
    assert_eq!(model.vocabulary, strings(&["a", "bc", "ab", "c", "d", "abc"]));
}

#[test]
fn update_corpus_rewrites_every_entry_and_keeps_counts() {
    let mut model = TokenizerModel {
        corpus: vec![entry(&["a", "b", "c"], 3), entry(&["c", "a", "b"], 1), entry(&["b"], 2)],
        vocabulary: strings(&["a", "b", "c", "ab"]),
        merge_rules: vec![rule("a", "b")],
    };
    model.update_corpus();
    assert_eq!(
        model.corpus,
        vec![entry(&["ab", "c"], 3), entry(&["c", "ab"], 1), entry(&["b"], 2)]
    );
    assert_eq!(model.vocabulary, strings(&["a", "b", "c", "ab"]));
    assert_eq!(model.merge_rules, vec![rule("a", "b")]);
}

#[test]
fn increase_vocabulary_reports_a_full_batch() {
    let mut model = seeded(sample_corpus());
    assert!(model.increase_vocabulary(2));
    assert_eq!(model.merge_rules, vec![rule("e", "s"), rule("s", "t")]);
    assert_eq!(model.corpus[2], entry(&["n", "e", "w", "es", "t"], 6));
}

#[test]
fn increase_vocabulary_reports_an_exhausted_floor() {
    // Seven pairs of the sample occur five times or more.
    let mut model = seeded(sample_corpus());
    assert!(!model.increase_vocabulary(8));
    assert_eq!(model.merge_rules.len(), 7);
    let mut model = seeded(sample_corpus());
    assert!(model.increase_vocabulary(7));
}

#[test]
fn increase_vocabulary_uses_the_limit_of_five() {
    let mut model = seeded(vec![repeat("ab", 4)]);
    assert!(!model.increase_vocabulary(1));
    assert!(model.merge_rules.is_empty());
    let mut model = seeded(vec![repeat("ab", 5)]);
    assert!(model.increase_vocabulary(1));
    assert_eq!(model.vocabulary, strings(&["a", "b", "ab"]));
}

/// Every word of two characters over fifteen letters, five times each: 225
/// pairs that all occur five times.
fn two_letter_corpus() -> (Vec<String>, Vec<String>, Vec<Vec<String>>) {
    let letters: Vec<String> = "abcdefghijklmno".chars().map(|c| c.to_string()).collect();
    let mut words = Vec::new();
    for first in &letters {
        for second in &letters {
            words.push(format!("{first}{second}"));
        }
    }
    let phrases = words.iter().map(|w| repeat(w, 5)).collect();
    (letters, words, phrases)
}

#[test]
fn new_runs_rounds_until_the_target_is_accounted_for() {
    let (letters, words, phrases) = two_letter_corpus();
    // 150 entries are wanted: a round of 100 pairs, then a round of 50.
    let model = TokenizerModel::new(phrases, 165).unwrap();
    assert_eq!(model.vocabulary, [letters, words[..150].to_vec()].concat());
    let merged: Vec<String> = model.merge_rules.iter().map(|r| r.merged.clone()).collect();
    assert_eq!(merged, words[..150].to_vec());
    for (i, entry) in model.corpus.iter().enumerate() {
        assert_eq!(entry.tokens.len(), if i < 150 { 1 } else { 2 });
        assert_eq!(entry.tokens.concat(), words[i]);
        assert_eq!(entry.count, 5);
    }
}

#[test]
fn new_stops_after_the_round_that_runs_out_of_pairs() {
    let (letters, words, phrases) = two_letter_corpus();
    // 300 entries are wanted: two rounds of 100 pairs are filled, the third
    // finds 25 pairs only.
    let model = TokenizerModel::new(phrases, 315).unwrap();
    assert_eq!(model.vocabulary, [letters, words.clone()].concat());
    assert_eq!(model.merge_rules.len(), 225);
    assert!(model.corpus.iter().all(|entry| entry.tokens.len() == 1));
}

#[test]
fn new_starts_with_large_batches_for_a_far_target() {
    let (_, _, phrases) = two_letter_corpus();
    // 1100 entries are wanted: the first round asks for 500 pairs, finds 225
    // and training stops.
    let model = TokenizerModel::new(phrases, 1115).unwrap();
    assert_eq!(model.vocabulary.len(), 240);
    assert_eq!(model.merge_rules.len(), 225);
}
