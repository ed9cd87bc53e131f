//! The training state and its mathematical model.

use vstd::prelude::*;

verus! {

/// A token as the contracts speak of it: a sequence of characters.
pub type Token = Seq<char>;

/// One distinct word of the corpus: its current tokens and how often the word
/// occurs.
#[derive(Debug, Clone, PartialEq, Eq)]
pub struct WordEntry {
    pub tokens: Vec<String>,
    pub count: u64,
}

/// The model of a [`WordEntry`].
pub struct EntryView {
    pub tokens: Seq<Token>,
    pub count: nat,
}

impl DeepView for WordEntry {
    type V = EntryView;

    open spec fn deep_view(&self) -> EntryView {
        EntryView { tokens: self.tokens.deep_view(), count: self.count as nat }
    }
}

/// A learned instruction to replace the adjacent pair `left`, `right` by
/// `merged`.
#[derive(Debug, Clone, PartialEq, Eq)]
pub struct MergeRule {
    pub left: String,
    pub right: String,
    pub merged: String,
}

/// The model of a [`MergeRule`].
pub struct RuleView {
    pub left: Token,
    pub right: Token,
    pub merged: Token,
}

impl DeepView for MergeRule {
    type V = RuleView;

    open spec fn deep_view(&self) -> RuleView {
        RuleView { left: self.left@, right: self.right@, merged: self.merged@ }
    }
}

/// The state of training: the corpus index, the vocabulary and the merge rules.
///
/// The corpus lists each distinct word once, in the order of first occurrence.
/// The identifier of a vocabulary entry is its position in `vocabulary`. The
/// merge rules stand in the order of their discovery.
#[derive(Debug, Clone, PartialEq, Eq)]
pub struct TokenizerModel {
    pub corpus: Vec<WordEntry>,
    pub vocabulary: Vec<String>,
    pub merge_rules: Vec<MergeRule>,
}

/// The model of a [`TokenizerModel`].
pub struct ModelView {
    pub corpus: Seq<EntryView>,
    pub vocabulary: Seq<Token>,
    pub merge_rules: Seq<RuleView>,
}

impl View for TokenizerModel {
    type V = ModelView;

    open spec fn view(&self) -> ModelView {
        ModelView {
            corpus: self.corpus.deep_view(),
            vocabulary: self.vocabulary.deep_view(),
            merge_rules: self.merge_rules.deep_view(),
        }
    }
}

/// The merged token of every rule is its left token followed by its right one.
pub open spec fn rules_sound(rules: Seq<RuleView>) -> bool {
    forall|k: int|
        0 <= k < rules.len() ==> (#[trigger] rules[k]).merged == rules[k].left + rules[k].right
}

/// Every token of `tokens` has an entry in `vocabulary`.
pub open spec fn covers_tokens(vocabulary: Seq<Token>, tokens: Seq<Token>) -> bool {
    forall|j: int| 0 <= j < tokens.len() ==> vocabulary.contains(#[trigger] tokens[j])
}

/// Every token of every word entry has an entry in `vocabulary`.
pub open spec fn covers_corpus(vocabulary: Seq<Token>, corpus: Seq<EntryView>) -> bool {
    forall|i: int|
        0 <= i < corpus.len() ==> covers_tokens(vocabulary, (#[trigger] corpus[i]).tokens)
}

/// The merged token of every rule has an entry in `vocabulary`.
pub open spec fn covers_rules(vocabulary: Seq<Token>, rules: Seq<RuleView>) -> bool {
    forall|k: int| 0 <= k < rules.len() ==> vocabulary.contains((#[trigger] rules[k]).merged)
}

/// The word that an entry stands for: its tokens, concatenated.
pub open spec fn word_of(entry: EntryView) -> Seq<char> {
    entry.tokens.flatten()
}

/// No two entries stand for the same word.
pub open spec fn words_distinct(corpus: Seq<EntryView>) -> bool {
    forall|i: int, j: int|
        0 <= i < j < corpus.len() ==> word_of(#[trigger] corpus[i]) != word_of(
            #[trigger] corpus[j],
        )
}

/// The number of adjacent pairs in a sequence of `len` tokens.
pub open spec fn pair_count(len: nat) -> nat {
    if len >= 2 {
        (len - 1) as nat
    } else {
        0
    }
}

/// The number of adjacent token pairs in the corpus, each counted as often as
/// its word occurs.
pub open spec fn pair_weight(corpus: Seq<EntryView>) -> nat
    decreases corpus.len(),
{
    if corpus.len() == 0 {
        0
    } else {
        pair_weight(corpus.drop_last()) + corpus.last().count * pair_count(
            corpus.last().tokens.len(),
        )
    }
}

/// Well-formedness of a training state.
pub open spec fn model_wf(m: ModelView) -> bool {
    &&& m.vocabulary.no_duplicates()
    &&& m.vocabulary.len() <= u32::MAX
    &&& rules_sound(m.merge_rules)
    &&& covers_rules(m.vocabulary, m.merge_rules)
    &&& covers_corpus(m.vocabulary, m.corpus)
    &&& words_distinct(m.corpus)
    &&& pair_weight(m.corpus) <= u64::MAX
}

/// `vocabulary` with an entry for `token`: unchanged where it has one, else
/// with `token` appended under the next identifier.
pub open spec fn with_token(vocabulary: Seq<Token>, token: Token) -> Seq<Token> {
    if vocabulary.contains(token) {
        vocabulary
    } else {
        vocabulary.push(token)
    }
}

/// `after` holds every entry of `before` under the identifier it had there.
pub open spec fn vocabulary_extends(after: Seq<Token>, before: Seq<Token>) -> bool {
    before.len() <= after.len() && forall|k: int|
        0 <= k < before.len() ==> #[trigger] after[k] == before[k]
}

/// A vocabulary that extends another has an entry for every token that the
/// other has one for.
pub proof fn lemma_extends_contains(after: Seq<Token>, before: Seq<Token>, token: Token)
    requires
        vocabulary_extends(after, before),
        before.contains(token),
    ensures
        after.contains(token),
{
    let k = choose|k: int| 0 <= k < before.len() && before[k] == token;
    assert(after[k] == token);
}

/// `with_token` extends the vocabulary by at most one entry, which is `token`,
/// and keeps it free of duplicates.
pub proof fn lemma_with_token(vocabulary: Seq<Token>, token: Token)
    ensures
        vocabulary_extends(with_token(vocabulary, token), vocabulary),
        with_token(vocabulary, token).contains(token),
        with_token(vocabulary, token).len() <= vocabulary.len() + 1,
        vocabulary.no_duplicates() ==> with_token(vocabulary, token).no_duplicates(),
{
    let after = with_token(vocabulary, token);
    if !vocabulary.contains(token) {
        assert(after[vocabulary.len() as int] == token);
        if vocabulary.no_duplicates() {
            assert forall|i: int, j: int| 0 <= i < after.len() && 0 <= j < after.len() && i
                != j implies after[i] != after[j] by {
                if i < vocabulary.len() {
                    assert(vocabulary[i] != token);
                }
                if j < vocabulary.len() {
                    assert(vocabulary[j] != token);
                }
            }
        }
    }
}

impl TokenizerModel {
    /// Well-formedness: identifiers are unique and fit `u32`, every rule merges
    /// by concatenation, every token in use has a vocabulary entry, no word is
    /// listed twice, and pair frequencies fit `u64`.
    pub open spec fn wf(&self) -> bool {
        model_wf(self@)
    }
}

/// The position of `token` in `list`, if it occurs there.
pub fn find_token(list: &Vec<String>, token: &String) -> (found: Option<usize>)
    ensures
        match found {
            Some(k) => k < list.len() && list.deep_view()[k as int] == token@ && forall|j: int|
                0 <= j < k ==> list.deep_view()[j] != token@,
            None => !list.deep_view().contains(token@),
        },
{
    let mut k: usize = 0;
    while k < list.len()
        invariant
            k <= list.len(),
            forall|j: int| 0 <= j < k ==> list.deep_view()[j] != token@,
        decreases list.len() - k,
    {
        if list[k] == *token {
            return Some(k);
        }
        k += 1;
    }
    None
}

} // verus!
