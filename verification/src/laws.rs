//! What holds of every training run and of every encoding.

use vstd::prelude::*;
use crate::encode::{
    decode, encode_word, lemma_encode_word_decodes, lemma_known_characters_encode,
};
use crate::pairs::PairView;
use crate::seed::{
    corpus_fits, graphemes, lemma_seed_corpus_words, lemma_seed_wf, lemma_word_table_lists,
    seed_corpus, seed_model, word_slot, word_table,
};
use crate::train::{
    learn_pairs, lemma_learn_pairs, lemma_round, lemma_train, round, selected_pairs, train,
};
use crate::types::{
    covers_tokens, lemma_extends_contains, lemma_with_token, model_wf, vocabulary_extends,
    word_of, ModelView,
};

verus! {

/// Training never loses or reorders a character: after any number of rounds,
/// entry `i` of the corpus index still concatenates to the word of row `i` of
/// the word table, and still carries its count.
pub proof fn lemma_training_keeps_words(phrases: Seq<Seq<Seq<char>>>, remaining: nat, i: int)
    requires
        corpus_fits(phrases),
        seed_model(phrases).vocabulary.len() + remaining <= u32::MAX,
        0 <= i < word_table(phrases).len(),
    ensures
        train(seed_model(phrases), remaining).corpus.len() == word_table(phrases).len(),
        word_of(train(seed_model(phrases), remaining).corpus[i]) == word_table(phrases)[i].word,
{
    lemma_seed_wf(phrases);
    lemma_seed_corpus_words(phrases);
    lemma_train(seed_model(phrases), remaining);
}

/// Identifiers are unique and never reassigned: after any number of rounds the
/// vocabulary has no entry twice, and every entry of the first vocabulary
/// stands where it stood.
pub proof fn lemma_training_keeps_identifiers(phrases: Seq<Seq<Seq<char>>>, remaining: nat)
    requires
        corpus_fits(phrases),
        seed_model(phrases).vocabulary.len() + remaining <= u32::MAX,
    ensures
        train(seed_model(phrases), remaining).vocabulary.no_duplicates(),
        vocabulary_extends(
            train(seed_model(phrases), remaining).vocabulary,
            seed_model(phrases).vocabulary,
        ),
{
    lemma_seed_wf(phrases);
    lemma_train(seed_model(phrases), remaining);
}

proof fn lemma_fresh_pair_grows_vocabulary(m: ModelView, pairs: Seq<PairView>, k: int)
    requires
        model_wf(m),
        m.vocabulary.len() + pairs.len() <= u32::MAX,
        0 <= k < pairs.len(),
        !m.vocabulary.contains(pairs[k].left + pairs[k].right),
    ensures
        learn_pairs(m, pairs).vocabulary.len() > m.vocabulary.len(),
    decreases pairs.len(),
{
    let before = learn_pairs(m, pairs.drop_last());
    lemma_learn_pairs(m, pairs.drop_last());
    lemma_with_token(before.vocabulary, pairs.last().left + pairs.last().right);
    if k < pairs.len() - 1 {
        lemma_fresh_pair_grows_vocabulary(m, pairs.drop_last(), k);
    } else {
        let merged = pairs[k].left + pairs[k].right;
        if before.vocabulary.len() == m.vocabulary.len() {
            assert(before.vocabulary =~= m.vocabulary);
        }
    }
}

/// A round lengthens the vocabulary where it learns a pair whose merged token
/// had no entry.
pub proof fn lemma_round_grows_vocabulary(m: ModelView, amount: nat, low_limit: nat, k: int)
    requires
        model_wf(m),
        m.vocabulary.len() + amount <= u32::MAX,
        0 <= k < selected_pairs(m.corpus, amount, low_limit).len(),
        !m.vocabulary.contains(
            selected_pairs(m.corpus, amount, low_limit)[k].left + selected_pairs(
                m.corpus,
                amount,
                low_limit,
            )[k].right,
        ),
    ensures
        round(m, amount, low_limit).vocabulary.len() > m.vocabulary.len(),
{
    lemma_round(m, amount, low_limit);
    lemma_fresh_pair_grows_vocabulary(m, selected_pairs(m.corpus, amount, low_limit), k);
}

/// After any number of rounds every token of every word entry has a vocabulary
/// entry.
pub proof fn lemma_training_keeps_tokens_known(
    phrases: Seq<Seq<Seq<char>>>,
    remaining: nat,
    i: int,
    j: int,
)
    requires
        corpus_fits(phrases),
        seed_model(phrases).vocabulary.len() + remaining <= u32::MAX,
        0 <= i < train(seed_model(phrases), remaining).corpus.len(),
        0 <= j < train(seed_model(phrases), remaining).corpus[i].tokens.len(),
    ensures
        train(seed_model(phrases), remaining).vocabulary.contains(
            train(seed_model(phrases), remaining).corpus[i].tokens[j],
        ),
{
    lemma_seed_wf(phrases);
    lemma_train(seed_model(phrases), remaining);
    let trained = train(seed_model(phrases), remaining);
    assert(covers_tokens(trained.vocabulary, trained.corpus[i].tokens));
}

/// Training for nothing more does nothing: with no vocabulary entry left to
/// add, no round runs and the state stays as it is.
pub proof fn lemma_training_at_target(m: ModelView)
    ensures
        train(m, 0) == m,
{
}

/// A word of the training corpus can be encoded with the trained vocabulary,
/// and the entries that its identifiers name spell the word.
pub proof fn lemma_training_word_encodes(
    phrases: Seq<Seq<Seq<char>>>,
    remaining: nat,
    i: int,
    j: int,
)
    requires
        corpus_fits(phrases),
        seed_model(phrases).vocabulary.len() + remaining <= u32::MAX,
        0 <= i < phrases.len(),
        0 <= j < phrases[i].len(),
    ensures
        encode_word(train(seed_model(phrases), remaining).vocabulary, phrases[i][j]) is Some,
        decode(
            train(seed_model(phrases), remaining).vocabulary,
            encode_word(train(seed_model(phrases), remaining).vocabulary, phrases[i][j])->0,
        ) == phrases[i][j],
        forall|k: int|
            0 <= k < encode_word(
                train(seed_model(phrases), remaining).vocabulary,
                phrases[i][j],
            )->0.len() ==> 0 <= (#[trigger] encode_word(
                train(seed_model(phrases), remaining).vocabulary,
                phrases[i][j],
            )->0[k]) < train(seed_model(phrases), remaining).vocabulary.len(),
{
    let word = phrases[i][j];
    let seed = seed_model(phrases);
    let trained = train(seed, remaining);
    lemma_seed_wf(phrases);
    lemma_train(seed, remaining);
    lemma_word_table_lists(phrases, i, j);
    let row = choose|row: int| word_slot(word_table(phrases), word, row);
    assert(seed_corpus(phrases)[row].tokens == graphemes(word));
    assert(covers_tokens(seed.vocabulary, seed.corpus[row].tokens));
    assert forall|k: int| 0 <= k < word.len() implies trained.vocabulary.contains(
        seq![#[trigger] word[k]],
    ) by {
        assert(graphemes(word)[k] == seq![word[k]]);
        lemma_extends_contains(trained.vocabulary, seed.vocabulary, seq![word[k]]);
    }
    lemma_known_characters_encode(trained.vocabulary, word);
    lemma_encode_word_decodes(trained.vocabulary, word);
}

} // verus!
