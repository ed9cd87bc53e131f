//! Rewriting a token sequence with the merge rules.

use vstd::prelude::*;
use vstd::string::*;
use crate::types::{covers_rules, covers_tokens, rules_sound, MergeRule, RuleView, Token, TokenizerModel};

verus! {

/// Rule `k` is the first rule for the pair `left`, `right`.
pub open spec fn is_first_match(rules: Seq<RuleView>, left: Token, right: Token, k: int) -> bool {
    &&& 0 <= k < rules.len()
    &&& rules[k].left == left
    &&& rules[k].right == right
    &&& forall|j: int|
        0 <= j < k ==> !((#[trigger] rules[j]).left == left && rules[j].right == right)
}

/// No rule is registered for the pair `left`, `right`.
pub open spec fn no_rule_for(rules: Seq<RuleView>, left: Token, right: Token) -> bool {
    forall|k: int|
        0 <= k < rules.len() ==> !((#[trigger] rules[k]).left == left && rules[k].right == right)
}

/// The token that replaces the adjacent pair `left`, `right`: the merged token
/// of the first rule registered for the pair, if there is one.
pub open spec fn merged_of(rules: Seq<RuleView>, left: Token, right: Token) -> Option<Token> {
    if exists|k: int| is_first_match(rules, left, right, k) {
        Some(rules[choose|k: int| is_first_match(rules, left, right, k)].merged)
    } else {
        None
    }
}

/// One pass of the rules over `tokens`, from left to right: a pair with a rule
/// is replaced by its merged token and the pass goes on behind the pair, so a
/// merged token is not matched again in the same pass; a token whose pair with
/// its successor has no rule stays.
pub open spec fn merge_pass(rules: Seq<RuleView>, tokens: Seq<Token>) -> Seq<Token>
    decreases tokens.len(),
{
    if tokens.len() < 2 {
        tokens
    } else {
        match merged_of(rules, tokens[0], tokens[1]) {
            Some(merged) => seq![merged] + merge_pass(rules, tokens.skip(2)),
            None => seq![tokens[0]] + merge_pass(rules, tokens.skip(1)),
        }
    }
}

/// The first rule for a pair is unique, so it is the rule that `merged_of`
/// speaks of.
pub proof fn lemma_first_match(rules: Seq<RuleView>, left: Token, right: Token, k: int)
    requires
        is_first_match(rules, left, right, k),
    ensures
        merged_of(rules, left, right) == Some(rules[k].merged),
{
    let c = choose|c: int| is_first_match(rules, left, right, c);
    if c < k {
        assert(!(rules[c].left == left && rules[c].right == right));
    }
    if k < c {
        assert(!(rules[k].left == left && rules[k].right == right));
    }
}

/// Where no rule is registered for a pair, `merged_of` is `None`.
pub proof fn lemma_no_match(rules: Seq<RuleView>, left: Token, right: Token)
    requires
        no_rule_for(rules, left, right),
    ensures
        merged_of(rules, left, right) is None,
{
    if exists|k: int| is_first_match(rules, left, right, k) {
        let c = choose|c: int| is_first_match(rules, left, right, c);
        assert(!(rules[c].left == left && rules[c].right == right));
    }
}

/// The position of the first rule for the pair `left`, `right`.
pub fn find_rule(rules: &Vec<MergeRule>, left: &String, right: &String) -> (found: Option<usize>)
    ensures
        match found {
            Some(k) => is_first_match(rules.deep_view(), left@, right@, k as int),
            None => no_rule_for(rules.deep_view(), left@, right@),
        },
{
    let mut k: usize = 0;
    while k < rules.len()
        invariant
            k <= rules.len(),
            forall|j: int|
                0 <= j < k ==> !((#[trigger] rules.deep_view()[j]).left == left@
                    && rules.deep_view()[j].right == right@),
        decreases rules.len() - k,
    {
        if rules[k].left == *left && rules[k].right == *right {
            return Some(k);
        }
        k += 1;
    }
    None
}

/// Unfolds `merge_pass` at position `i` of a longer sequence.
proof fn lemma_merge_pass_step(rules: Seq<RuleView>, tokens: Seq<Token>, i: int)
    requires
        0 <= i,
        i + 2 <= tokens.len(),
    ensures
        merge_pass(rules, tokens.skip(i)) == match merged_of(rules, tokens[i], tokens[i + 1]) {
            Some(merged) => seq![merged] + merge_pass(rules, tokens.skip(i + 2)),
            None => seq![tokens[i]] + merge_pass(rules, tokens.skip(i + 1)),
        },
{
    let rest = tokens.skip(i);
    assert(rest[0] == tokens[i]);
    assert(rest[1] == tokens[i + 1]);
    assert(rest.skip(2) =~= tokens.skip(i + 2));
    assert(rest.skip(1) =~= tokens.skip(i + 1));
}

impl TokenizerModel {
    /// Rewrites `word_tokens` by one pass of the merge rules. Where every rule
    /// merges by concatenation, the result spells the same word.
    pub fn apply_merge_rules(&self, word_tokens: Vec<String>) -> (merged: Vec<String>)
        ensures
            merged.deep_view() == merge_pass(self@.merge_rules, word_tokens.deep_view()),
            rules_sound(self@.merge_rules) ==> merged.deep_view().flatten()
                == word_tokens.deep_view().flatten(),
    {
        let ghost rules = self@.merge_rules;
        let ghost tokens = word_tokens.deep_view();
        let n = word_tokens.len();
        let mut merged: Vec<String> = Vec::new();
        let mut i: usize = 0;
        assert(tokens.skip(0) =~= tokens);
        while n - i >= 2
            invariant
                i <= n,
                n == word_tokens.len(),
                tokens == word_tokens.deep_view(),
                rules == self@.merge_rules,
                merged.deep_view() + merge_pass(rules, tokens.skip(i as int)) == merge_pass(
                    rules,
                    tokens,
                ),
            decreases n - i,
        {
            let ghost before = merged.deep_view();
            proof {
                lemma_merge_pass_step(rules, tokens, i as int);
            }
            match find_rule(&self.merge_rules, &word_tokens[i], &word_tokens[i + 1]) {
                Some(k) => {
                    proof {
                        lemma_first_match(rules, tokens[i as int], tokens[i + 1], k as int);
                    }
                    merged.push(self.merge_rules[k].merged.clone());
                    assert(merged.deep_view() =~= before + seq![rules[k as int].merged]);
                    i += 2;
                },
                None => {
                    proof {
                        lemma_no_match(rules, tokens[i as int], tokens[i + 1]);
                    }
                    merged.push(word_tokens[i].clone());
                    assert(merged.deep_view() =~= before + seq![tokens[i as int]]);
                    i += 1;
                },
            }
        }
        if i < n {
            let ghost before = merged.deep_view();
            merged.push(word_tokens[i].clone());
            assert(tokens.skip(i as int) =~= seq![tokens[i as int]]);
            assert(merged.deep_view() =~= before + seq![tokens[i as int]]);
        } else {
            assert(merged.deep_view() + tokens.skip(i as int) =~= merged.deep_view());
        }
        proof {
            if rules_sound(rules) {
                lemma_merge_pass_keeps_word(rules, tokens);
            }
        }
        merged
    }
}

/// A pass of sound rules keeps the word: the tokens after the pass concatenate
/// to what the tokens before it concatenate to.
pub proof fn lemma_merge_pass_keeps_word(rules: Seq<RuleView>, tokens: Seq<Token>)
    requires
        rules_sound(rules),
    ensures
        merge_pass(rules, tokens).flatten() == tokens.flatten(),
    decreases tokens.len(),
{
    if tokens.len() >= 2 {
        let a = tokens[0];
        let b = tokens[1];
        assert(tokens.drop_first() =~= tokens.skip(1));
        assert(tokens.skip(1).drop_first() =~= tokens.skip(2));
        assert(tokens.skip(1)[0] == b);
        assert(tokens.flatten() == a + tokens.skip(1).flatten());
        assert(tokens.skip(1).flatten() == b + tokens.skip(2).flatten());
        if exists|k: int| is_first_match(rules, a, b, k) {
            let k = choose|k: int| is_first_match(rules, a, b, k);
            let rest = merge_pass(rules, tokens.skip(2));
            lemma_merge_pass_keeps_word(rules, tokens.skip(2));
            let out = seq![rules[k].merged] + rest;
            assert(out.drop_first() =~= rest);
            assert(out.flatten() == rules[k].merged + rest.flatten());
            assert(tokens.flatten() =~= (a + b) + tokens.skip(2).flatten());
        } else {
            let rest = merge_pass(rules, tokens.skip(1));
            lemma_merge_pass_keeps_word(rules, tokens.skip(1));
            let out = seq![a] + rest;
            assert(out.drop_first() =~= rest);
            assert(out.flatten() == a + rest.flatten());
        }
    }
}

/// A pass over tokens among which no adjacent pair has a rule changes nothing.
pub proof fn lemma_merge_pass_fixed(rules: Seq<RuleView>, tokens: Seq<Token>)
    requires
        forall|i: int|
            0 <= i && i + 1 < tokens.len() ==> no_rule_for(rules, tokens[i], #[trigger] tokens[i + 1]),
    ensures
        merge_pass(rules, tokens) == tokens,
    decreases tokens.len(),
{
    if tokens.len() >= 2 {
        let rest = tokens.skip(1);
        assert(no_rule_for(rules, tokens[0], tokens[0int + 1]));
        lemma_no_match(rules, tokens[0], tokens[1]);
        assert forall|i: int| 0 <= i && i + 1 < rest.len() implies no_rule_for(
            rules,
            rest[i],
            #[trigger] rest[i + 1],
        ) by {
            assert(no_rule_for(rules, tokens[i + 1], tokens[(i + 1) + 1]));
        }
        lemma_merge_pass_fixed(rules, rest);
        assert(seq![tokens[0]] + rest =~= tokens);
    }
}

/// A pass never lengthens a token sequence.
pub proof fn lemma_merge_pass_len(rules: Seq<RuleView>, tokens: Seq<Token>)
    ensures
        merge_pass(rules, tokens).len() <= tokens.len(),
    decreases tokens.len(),
{
    if tokens.len() >= 2 {
        lemma_merge_pass_len(rules, tokens.skip(2));
        lemma_merge_pass_len(rules, tokens.skip(1));
    }
}

/// A pass yields only tokens that were there before it or that a rule merges
/// to: where the vocabulary has entries for both, it has one for every token
/// after the pass.
pub proof fn lemma_merge_pass_covered(
    vocabulary: Seq<Token>,
    rules: Seq<RuleView>,
    tokens: Seq<Token>,
)
    requires
        covers_rules(vocabulary, rules),
        covers_tokens(vocabulary, tokens),
    ensures
        covers_tokens(vocabulary, merge_pass(rules, tokens)),
    decreases tokens.len(),
{
    if tokens.len() >= 2 {
        let a = tokens[0];
        let b = tokens[1];
        let out = merge_pass(rules, tokens);
        if exists|k: int| is_first_match(rules, a, b, k) {
            let k = choose|k: int| is_first_match(rules, a, b, k);
            let rest = tokens.skip(2);
            assert forall|j: int| 0 <= j < rest.len() implies vocabulary.contains(
                #[trigger] rest[j],
            ) by {
                assert(rest[j] == tokens[j + 2]);
            }
            lemma_merge_pass_covered(vocabulary, rules, rest);
            assert forall|j: int| 0 <= j < out.len() implies vocabulary.contains(
                #[trigger] out[j],
            ) by {
                if j > 0 {
                    assert(out[j] == merge_pass(rules, rest)[j - 1]);
                } else {
                    assert(out[j] == rules[k].merged);
                }
            }
        } else {
            let rest = tokens.skip(1);
            assert forall|j: int| 0 <= j < rest.len() implies vocabulary.contains(
                #[trigger] rest[j],
            ) by {
                assert(rest[j] == tokens[j + 1]);
            }
            lemma_merge_pass_covered(vocabulary, rules, rest);
            assert forall|j: int| 0 <= j < out.len() implies vocabulary.contains(
                #[trigger] out[j],
            ) by {
                if j > 0 {
                    assert(out[j] == merge_pass(rules, rest)[j - 1]);
                } else {
                    assert(out[j] == tokens[0]);
                }
            }
        }
    }
}

} // verus!
