use bpe_tokenizer::types::{MergeRule, TokenizerModel};

fn strings(words: &[&str]) -> Vec<String> {
    words.iter().map(|w| w.to_string()).collect()
}

fn rule(left: &str, right: &str) -> MergeRule {
    MergeRule { left: left.to_string(), right: right.to_string(), merged: format!("{left}{right}") }
}

fn model_with_rules(rules: Vec<MergeRule>) -> TokenizerModel {
    TokenizerModel { corpus: Vec::new(), vocabulary: Vec::new(), merge_rules: rules }
}

#[test]
fn apply_merge_rules_merges_a_matching_pair() {
    let model = model_with_rules(vec![rule("a", "b")]);
    assert_eq!(model.apply_merge_rules(strings(&["a", "b"])), strings(&["ab"]));
}

#[test]
fn apply_merge_rules_passes_unmatched_tokens_through() {
    let model = model_with_rules(vec![rule("a", "b")]);
    assert_eq!(model.apply_merge_rules(strings(&["b", "a", "c"])), strings(&["b", "a", "c"]));
}

#[test]
fn apply_merge_rules_keeps_short_sequences() {
    let model = model_with_rules(vec![rule("a", "b")]);
    assert_eq!(model.apply_merge_rules(Vec::new()), Vec::<String>::new());
    assert_eq!(model.apply_merge_rules(strings(&["a"])), strings(&["a"]));
}

#[test]
fn apply_merge_rules_without_rules_changes_nothing() {
    let model = model_with_rules(Vec::new());
    assert_eq!(model.apply_merge_rules(strings(&["a", "b", "c"])), strings(&["a", "b", "c"]));
}

#[test]
fn apply_merge_rules_does_not_reconsider_a_consumed_position() {
    // "a" is consumed by the rule for ("x", "a"), so the rule for ("a", "b")
    // finds no pair and "b" stays.
    let model = model_with_rules(vec![rule("x", "a"), rule("a", "b")]);
    assert_eq!(model.apply_merge_rules(strings(&["x", "a", "b"])), strings(&["xa", "b"]));
}

#[test]
fn apply_merge_rules_does_not_match_a_merged_token_again() {
    // The merged "ab" is not paired with "c" in the same pass.
    let model = model_with_rules(vec![rule("a", "b"), rule("ab", "c")]);
    assert_eq!(model.apply_merge_rules(strings(&["a", "b", "c"])), strings(&["ab", "c"]));
    // A second pass merges it.
    assert_eq!(model.apply_merge_rules(strings(&["ab", "c"])), strings(&["abc"]));
}

#[test]
fn apply_merge_rules_matches_any_rule_whatever_its_place() {
    let model = model_with_rules(vec![rule("c", "d"), rule("a", "b")]);
    assert_eq!(
        model.apply_merge_rules(strings(&["a", "b", "c", "d", "e"])),
        strings(&["ab", "cd", "e"])
    );
}

#[test]
fn apply_merge_rules_merges_the_last_pair() {
    let model = model_with_rules(vec![rule("b", "c")]);
    assert_eq!(model.apply_merge_rules(strings(&["a", "b", "c"])), strings(&["a", "bc"]));
}

#[test]
fn apply_merge_rules_goes_left_to_right_over_repeats() {
    let model = model_with_rules(vec![rule("a", "a")]);
    assert_eq!(model.apply_merge_rules(strings(&["a", "a", "a"])), strings(&["aa", "a"]));
    assert_eq!(model.apply_merge_rules(strings(&["a", "a", "a", "a"])), strings(&["aa", "aa"]));
}

#[test]
fn apply_merge_rules_takes_the_first_rule_of_a_pair() {
    let first = MergeRule { left: "a".to_string(), right: "b".to_string(), merged: "X".to_string() };
    let second = MergeRule { left: "a".to_string(), right: "b".to_string(), merged: "Y".to_string() };
    let model = model_with_rules(vec![first, second]);
    assert_eq!(model.apply_merge_rules(strings(&["a", "b"])), strings(&["X"]));
}

#[test]
fn apply_merge_rules_keeps_the_characters_of_the_word() {
    let model = model_with_rules(vec![rule("l", "o"), rule("w", "e"), rule("e", "s"), rule("s", "t")]);
    for word in ["lowest", "newest", "west", "lo", "stew", "eeee", "wewewe"] {
        let tokens: Vec<String> = word.chars().map(|c| c.to_string()).collect();
        let merged = model.apply_merge_rules(tokens);
        assert_eq!(merged.concat(), word);
    }
}

#[test]
fn apply_merge_rules_is_idempotent_on_a_fully_merged_sequence() {
    let model = model_with_rules(vec![rule("a", "b"), rule("c", "d")]);
    // No adjacent pair of these tokens has a rule.
    let merged = strings(&["ab", "cd", "b", "a", "d", "c"]);
    assert_eq!(model.apply_merge_rules(merged.clone()), merged);
    assert_eq!(model.apply_merge_rules(model.apply_merge_rules(merged.clone())), merged);
}
