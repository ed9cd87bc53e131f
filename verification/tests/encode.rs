use bpe_tokenizer::encode::{
    chars_of, encode_chars, longest_match_at, starts_with_at, vocabulary_chars, EncodeError,
};
use bpe_tokenizer::types::{find_token, TokenizerModel};

fn strings(words: &[&str]) -> Vec<String> {
    words.iter().map(|w| w.to_string()).collect()
}

fn chars(text: &str) -> Vec<char> {
    text.chars().collect()
}

fn model_with_vocabulary(entries: &[&str]) -> TokenizerModel {
    TokenizerModel { corpus: Vec::new(), vocabulary: strings(entries), merge_rules: Vec::new() }
}

fn repeat(word: &str, times: usize) -> Vec<String> {
    vec![word.to_string(); times]
}

fn sample_corpus() -> Vec<Vec<String>> {
    vec![
        repeat("low", 5),
        repeat("lower", 2),
        [repeat("newest", 6), repeat("widest", 3)].concat(),
    ]
}

#[test]
fn chars_of_gives_characters_not_bytes() {
    assert_eq!(chars_of("d\u{e9}j\u{e0}"), vec!['d', '\u{e9}', 'j', '\u{e0}']);
    assert_eq!(chars_of(""), Vec::<char>::new());
}

#[test]
fn vocabulary_chars_keeps_order() {
    assert_eq!(vocabulary_chars(&strings(&["a", "bc", ""])), vec![chars("a"), chars("bc"), chars("")]);
}

#[test]
fn find_token_gives_the_position() {
    let list = strings(&["a", "b", "ab"]);
    assert_eq!(find_token(&list, &"ab".to_string()), Some(2));
    assert_eq!(find_token(&list, &"ba".to_string()), None);
}

#[test]
fn starts_with_at_compares_from_the_position() {
    let text = chars("lowest");
    assert!(starts_with_at(&text, 0, &chars("low")));
    assert!(starts_with_at(&text, 3, &chars("est")));
    assert!(!starts_with_at(&text, 3, &chars("est!")));
    assert!(!starts_with_at(&text, 1, &chars("low")));
    assert!(starts_with_at(&text, 6, &chars("")));
    assert!(!starts_with_at(&text, 6, &chars("t")));
}

#[test]
fn longest_match_at_prefers_the_longest_entry() {
    let entries = vocabulary_chars(&strings(&["l", "lo", "low", "lowe", "o", ""]));
    assert_eq!(longest_match_at(&entries, &chars("lower"), 0), Some(3));
    assert_eq!(longest_match_at(&entries, &chars("low"), 0), Some(2));
    assert_eq!(longest_match_at(&entries, &chars("low"), 1), Some(4));
    assert_eq!(longest_match_at(&entries, &chars("low"), 2), None);
    assert_eq!(longest_match_at(&entries, &chars("low"), 3), None);
}

#[test]
fn longest_match_at_takes_the_first_of_equal_entries() {
    let entries = vocabulary_chars(&strings(&["b", "a", "a"]));
    assert_eq!(longest_match_at(&entries, &chars("ab"), 0), Some(1));
}

#[test]
fn encode_chars_decomposes_a_word() {
    let entries = vocabulary_chars(&strings(&["l", "o", "w", "e", "s", "t", "lo", "es", "est"]));
    assert_eq!(encode_chars(&entries, &chars("lowest")), Some(vec![6, 2, 8]));
    assert_eq!(encode_chars(&entries, &chars("")), Some(Vec::new()));
    assert_eq!(encode_chars(&entries, &chars("lox")), None);
}

#[test]
fn token_id_is_the_position_in_the_vocabulary() {
    let model = model_with_vocabulary(&["a", "b", "ab"]);
    assert_eq!(model.token_id(&"a".to_string()), Some(0));
    assert_eq!(model.token_id(&"ab".to_string()), Some(2));
    assert_eq!(model.token_id(&"c".to_string()), None);
}

#[test]
fn encode_words_encodes_one_word_after_the_other() {
    let model = model_with_vocabulary(&["a", "b", "c", "ab"]);
    assert_eq!(model.encode_words(&strings(&["abc", "ba", "", "c"])), Ok(vec![3, 2, 1, 0, 2]));
    assert_eq!(model.encode_words(&Vec::new()), Ok(Vec::new()));
}

#[test]
fn encode_words_is_greedy_for_the_longest_entry() {
    // The longest match "ab" is taken although "a" and "bc" would cover the word.
    let model = model_with_vocabulary(&["a", "ab", "bc"]);
    assert_eq!(model.encode_words(&strings(&["abc"])), Err(EncodeError::UnknownToken { word: 0 }));
    let model = model_with_vocabulary(&["a", "ab", "bc", "c"]);
    assert_eq!(model.encode_words(&strings(&["abc"])), Ok(vec![1, 3]));
}

#[test]
fn encode_words_names_the_first_word_without_a_match() {
    let model = model_with_vocabulary(&["a", "b"]);
    assert_eq!(
        model.encode_words(&strings(&["ab", "ax", "xx"])),
        Err(EncodeError::UnknownToken { word: 1 })
    );
    assert_eq!(model_with_vocabulary(&[]).encode_words(&strings(&["a"])), Err(EncodeError::UnknownToken { word: 0 }));
}

#[test]
fn encode_words_ignores_an_empty_entry() {
    let model = model_with_vocabulary(&["", "a"]);
    assert_eq!(model.encode_words(&strings(&["aa"])), Ok(vec![1, 1]));
    assert_eq!(model.encode_words(&strings(&["ab"])), Err(EncodeError::UnknownToken { word: 0 }));
}

#[test]
fn tokenize_normalizes_and_splits_the_phrase() {
    let model = TokenizerModel::new(sample_corpus(), 14).unwrap();
    // "lo" is 13, "w" 2, "es" 10, "t" 7, "n" 5, "e" 3, "we" 12, "r" 4.
    assert_eq!(model.tokenize("  LOWEST   Newer ".to_string()), Ok(vec![13, 12, 11, 5, 3, 12, 4]));
    assert_eq!(model.tokenize(String::new()), Ok(Vec::new()));
}

#[test]
fn tokenize_composes_before_it_looks_entries_up() {
    let model = model_with_vocabulary(&["caf", "\u{e9}"]);
    assert_eq!(model.tokenize("Cafe\u{301}".to_string()), Ok(vec![0, 1]));
}

#[test]
fn tokenize_reports_a_character_not_seen_in_training() {
    let model = TokenizerModel::new(sample_corpus(), 14).unwrap();
    assert_eq!(
        model.tokenize("low quiz".to_string()),
        Err(EncodeError::UnknownToken { word: 1 })
    );
}

#[test]
fn tokenize_encodes_every_word_of_seen_characters() {
    let model = TokenizerModel::new(sample_corpus(), 20).unwrap();
    for word in ["lowest", "newer", "wide", "we", "slower", "tttt", "dorsile"] {
        let ids = model.tokenize(word.to_string()).unwrap();
        let spelled: String = ids.iter().map(|&id| model.vocabulary[id as usize].as_str()).collect();
        assert_eq!(spelled, word);
    }
}

#[test]
fn tokenize_decomposes_every_training_word_into_vocabulary_entries() {
    for size in 10..24 {
        let model = TokenizerModel::new(sample_corpus(), size).unwrap();
        for word in ["low", "lower", "newest", "widest"] {
            let ids = model.tokenize(word.to_string()).unwrap();
            assert!(ids.iter().all(|&id| (id as usize) < model.vocabulary.len()));
            let spelled: String = ids.iter().map(|&id| model.vocabulary[id as usize].as_str()).collect();
            assert_eq!(spelled, word);
        }
    }
}

#[test]
fn tokenize_of_the_trained_sample() {
    let model = TokenizerModel::new(sample_corpus(), 14).unwrap();
    assert_eq!(model.tokenize("low".to_string()), Ok(vec![13, 2]));
    assert_eq!(model.tokenize("wide".to_string()), Ok(vec![2, 8, 9, 3]));
}
