use bpe_tokenizer::text::{load_corpus_file, normalize, pre_tokenize};

fn strings(words: &[&str]) -> Vec<String> {
    words.iter().map(|w| w.to_string()).collect()
}

#[test]
fn normalize_lowercases() {
    assert_eq!(normalize("Hello WORLD".to_string()), "hello world");
}

#[test]
fn normalize_composes_combining_marks() {
    // 'e' followed by U+0301 COMBINING ACUTE ACCENT composes to U+00E9.
    assert_eq!(normalize("cafe\u{301}".to_string()), "caf\u{e9}");
}

#[test]
fn normalize_composes_then_lowercases() {
    // 'A' followed by U+030A COMBINING RING ABOVE composes to U+00C5, whose
    // lowercase is U+00E5.
    assert_eq!(normalize("A\u{30a}".to_string()), "\u{e5}");
}

#[test]
fn normalize_keeps_empty_phrase() {
    assert_eq!(normalize(String::new()), "");
}

#[test]
fn pre_tokenize_splits_at_runs_of_white_space() {
    assert_eq!(pre_tokenize("  you   are dirt ".to_string()), strings(&["you", "are", "dirt"]));
}

#[test]
fn pre_tokenize_of_single_word() {
    assert_eq!(pre_tokenize("dirt".to_string()), strings(&["dirt"]));
}

#[test]
fn pre_tokenize_of_empty_and_blank_phrases() {
    assert_eq!(pre_tokenize(String::new()), Vec::<String>::new());
    assert_eq!(pre_tokenize(" \t\n ".to_string()), Vec::<String>::new());
}

#[test]
fn pre_tokenize_knows_unicode_white_space() {
    // U+00A0 NO-BREAK SPACE and U+3000 IDEOGRAPHIC SPACE are white space.
    assert_eq!(pre_tokenize("a\u{a0}b\u{3000}c\td\ne".to_string()), strings(&["a", "b", "c", "d", "e"]));
}

#[test]
fn pre_tokenize_agrees_with_split_whitespace() {
    let phrase = "The  quick\tbrown\r\nfox \u{2003} jumps";
    let expected: Vec<String> = phrase.split_whitespace().map(|w| w.to_string()).collect();
    assert_eq!(pre_tokenize(phrase.to_string()), expected);
}

#[test]
fn load_corpus_file_prepares_each_line() {
    let lines = strings(&["Ab AB  ab", "", "ab Cd"]);
    let phrases = load_corpus_file(lines);
    assert_eq!(
        phrases,
        vec![strings(&["ab", "ab", "ab"]), Vec::<String>::new(), strings(&["ab", "cd"])]
    );
}
