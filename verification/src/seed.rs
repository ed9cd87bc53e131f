//! Seeding: the word counts of a corpus, its first corpus index with one token
//! for each character, and its first vocabulary.

use vstd::prelude::*;
use vstd::string::*;
use crate::pairs::lemma_pair_weight_prefix;
use crate::text::push_char;
use crate::types::{
    covers_corpus, covers_tokens, find_token, lemma_extends_contains, lemma_with_token, model_wf,
    pair_count, pair_weight, vocabulary_extends, with_token, word_of, EntryView, ModelView, Token,
    WordEntry,
};

verus! {

/// A distinct word and the number of its occurrences.
#[derive(Debug, Clone, PartialEq, Eq)]
pub struct WordCount {
    pub word: String,
    pub count: u64,
}

/// The model of a [`WordCount`].
pub struct WordView {
    pub word: Seq<char>,
    pub count: nat,
}

impl DeepView for WordCount {
    type V = WordView;

    open spec fn deep_view(&self) -> WordView {
        WordView { word: self.word@, count: self.count as nat }
    }
}

/// Row `k` of `table` is the row of `word`.
pub open spec fn word_slot(table: Seq<WordView>, word: Seq<char>, k: int) -> bool {
    0 <= k < table.len() && table[k].word == word
}

/// No word has two rows.
pub open spec fn rows_distinct(table: Seq<WordView>) -> bool {
    forall|i: int, j: int|
        0 <= i < j < table.len() ==> (#[trigger] table[i]).word != (#[trigger] table[j]).word
}

/// `table` after one more occurrence of `word`: the count of its row grows by
/// one; a word without a row gets one at the end.
pub open spec fn record_word(table: Seq<WordView>, word: Seq<char>) -> Seq<WordView> {
    if exists|k: int| word_slot(table, word, k) {
        let k = choose|k: int| word_slot(table, word, k);
        table.update(k, WordView { word, count: table[k].count + 1 })
    } else {
        table.push(WordView { word, count: 1 })
    }
}

/// `table` after the first `n` words of `phrase`.
pub open spec fn tally_phrase(table: Seq<WordView>, phrase: Seq<Seq<char>>, n: nat) -> Seq<
    WordView,
>
    decreases n,
{
    if n == 0 {
        table
    } else {
        record_word(tally_phrase(table, phrase, (n - 1) as nat), phrase[n - 1])
    }
}

/// The word table of the first `n` phrases.
pub open spec fn tally_phrases(phrases: Seq<Seq<Seq<char>>>, n: nat) -> Seq<WordView>
    decreases n,
{
    if n == 0 {
        Seq::empty()
    } else {
        tally_phrase(tally_phrases(phrases, (n - 1) as nat), phrases[n - 1], phrases[n - 1].len())
    }
}

/// The word table of a corpus: one row for each distinct word, in the order of
/// first occurrence, with the number of its occurrences.
pub open spec fn word_table(phrases: Seq<Seq<Seq<char>>>) -> Seq<WordView> {
    tally_phrases(phrases, phrases.len())
}

/// The number of words in a corpus, repeats included.
pub open spec fn total_words(phrases: Seq<Seq<Seq<char>>>) -> nat
    decreases phrases.len(),
{
    if phrases.len() == 0 {
        0
    } else {
        total_words(phrases.drop_last()) + phrases.last().len()
    }
}

/// A word as tokens of one character each.
pub open spec fn graphemes(word: Seq<char>) -> Seq<Token> {
    Seq::new(word.len(), |k: int| seq![word[k]])
}

/// The corpus index before any merge: for each row of the word table an entry
/// with the word's characters as tokens and the word's count.
pub open spec fn seed_corpus(phrases: Seq<Seq<Seq<char>>>) -> Seq<EntryView> {
    word_table(phrases).map_values(
        |row: WordView| EntryView { tokens: graphemes(row.word), count: row.count },
    )
}

/// `vocabulary` with entries for the first `n` tokens of `tokens`.
pub open spec fn with_tokens(vocabulary: Seq<Token>, tokens: Seq<Token>, n: nat) -> Seq<Token>
    decreases n,
{
    if n == 0 {
        vocabulary
    } else {
        with_token(with_tokens(vocabulary, tokens, (n - 1) as nat), tokens[n - 1])
    }
}

/// The vocabulary of the first `n` entries of `corpus`: their distinct tokens in
/// the order of first occurrence.
pub open spec fn vocabulary_of(corpus: Seq<EntryView>, n: nat) -> Seq<Token>
    decreases n,
{
    if n == 0 {
        Seq::empty()
    } else {
        with_tokens(
            vocabulary_of(corpus, (n - 1) as nat),
            corpus[n - 1].tokens,
            corpus[n - 1].tokens.len(),
        )
    }
}

/// The first vocabulary of a corpus index: its distinct tokens, numbered in the
/// order of first occurrence.
pub open spec fn seed_vocabulary(corpus: Seq<EntryView>) -> Seq<Token> {
    vocabulary_of(corpus, corpus.len())
}

/// The training state before the first round.
pub open spec fn seed_model(phrases: Seq<Seq<Seq<char>>>) -> ModelView {
    ModelView {
        corpus: seed_corpus(phrases),
        vocabulary: seed_vocabulary(seed_corpus(phrases)),
        merge_rules: Seq::empty(),
    }
}

/// The counts of a corpus fit the machine: its number of words and the weight
/// of its pairs are at most `u64::MAX`.
pub open spec fn corpus_fits(phrases: Seq<Seq<Seq<char>>>) -> bool {
    total_words(phrases) <= u64::MAX && pair_weight(seed_corpus(phrases)) <= u64::MAX
}

/// Recording a word that has row `k` adds one to that row.
pub proof fn lemma_record_word_at(table: Seq<WordView>, word: Seq<char>, k: int)
    requires
        rows_distinct(table),
        word_slot(table, word, k),
    ensures
        record_word(table, word) == table.update(
            k,
            WordView { word, count: table[k].count + 1 },
        ),
        rows_distinct(record_word(table, word)),
{
    let c = choose|c: int| word_slot(table, word, c);
    if c < k {
        assert(table[c].word != table[k].word);
    }
    if k < c {
        assert(table[k].word != table[c].word);
    }
    let after = record_word(table, word);
    assert forall|i: int, j: int| 0 <= i < j < after.len() implies (#[trigger] after[i]).word != (
    #[trigger] after[j]).word by {
        assert(after[i].word == table[i].word);
        assert(after[j].word == table[j].word);
    }
}

/// Recording a word that has no row appends a row.
pub proof fn lemma_record_word_new(table: Seq<WordView>, word: Seq<char>)
    requires
        rows_distinct(table),
        forall|k: int| !word_slot(table, word, k),
    ensures
        record_word(table, word) == table.push(WordView { word, count: 1 }),
        rows_distinct(record_word(table, word)),
{
    let after = record_word(table, word);
    assert forall|i: int, j: int| 0 <= i < j < after.len() implies (#[trigger] after[i]).word != (
    #[trigger] after[j]).word by {
        if j == table.len() {
            assert(!word_slot(table, word, i));
            assert(after[i] == table[i]);
        } else {
            assert(after[i] == table[i]);
            assert(after[j] == table[j]);
        }
    }
}

/// Among the first `n` words of `phrase`, the number of those that are `word`.
pub open spec fn occurrences_in(phrase: Seq<Seq<char>>, word: Seq<char>, n: nat) -> nat
    decreases n,
{
    if n == 0 {
        0
    } else {
        occurrences_in(phrase, word, (n - 1) as nat) + if phrase[n - 1] == word {
            1nat
        } else {
            0nat
        }
    }
}

/// The number of occurrences of `word` in the first `n` phrases.
pub open spec fn word_frequency(phrases: Seq<Seq<Seq<char>>>, word: Seq<char>, n: nat) -> nat
    decreases n,
{
    if n == 0 {
        0
    } else {
        word_frequency(phrases, word, (n - 1) as nat) + occurrences_in(
            phrases[n - 1],
            word,
            phrases[n - 1].len(),
        )
    }
}

/// The count that `table` holds for `word`: that of its row, or zero where it
/// has none.
pub open spec fn count_of(table: Seq<WordView>, word: Seq<char>) -> nat {
    if exists|k: int| word_slot(table, word, k) {
        table[choose|k: int| word_slot(table, word, k)].count
    } else {
        0
    }
}

proof fn lemma_count_of_at(table: Seq<WordView>, word: Seq<char>, k: int)
    requires
        rows_distinct(table),
        word_slot(table, word, k),
    ensures
        count_of(table, word) == table[k].count,
{
    let c = choose|c: int| word_slot(table, word, c);
    if c < k {
        assert(table[c].word != table[k].word);
    }
    if k < c {
        assert(table[k].word != table[c].word);
    }
}

proof fn lemma_record_word_count(table: Seq<WordView>, word: Seq<char>, other: Seq<char>)
    requires
        rows_distinct(table),
    ensures
        rows_distinct(record_word(table, word)),
        count_of(record_word(table, word), other) == count_of(table, other) + if other == word {
            1nat
        } else {
            0nat
        },
{
    let after = record_word(table, word);
    if exists|k: int| word_slot(table, word, k) {
        let k = choose|k: int| word_slot(table, word, k);
        lemma_record_word_at(table, word, k);
        if exists|q: int| word_slot(table, other, q) {
            let q = choose|q: int| word_slot(table, other, q);
            assert(word_slot(after, other, q));
            lemma_count_of_at(table, other, q);
            lemma_count_of_at(after, other, q);
            if other == word {
                lemma_count_of_at(table, other, k);
            }
        } else {
            if exists|q: int| word_slot(after, other, q) {
                let q = choose|q: int| word_slot(after, other, q);
                assert(word_slot(table, other, q));
            }
        }
    } else {
        lemma_record_word_new(table, word);
        if exists|q: int| word_slot(table, other, q) {
            let q = choose|q: int| word_slot(table, other, q);
            assert(word_slot(after, other, q));
            lemma_count_of_at(table, other, q);
            lemma_count_of_at(after, other, q);
        } else if other == word {
            assert(word_slot(after, other, table.len() as int));
            lemma_count_of_at(after, other, table.len() as int);
        } else {
            if exists|q: int| word_slot(after, other, q) {
                let q = choose|q: int| word_slot(after, other, q);
                assert(word_slot(table, other, q));
            }
        }
    }
}

proof fn lemma_tally_phrase_count(
    table: Seq<WordView>,
    phrase: Seq<Seq<char>>,
    n: nat,
    word: Seq<char>,
)
    requires
        rows_distinct(table),
    ensures
        rows_distinct(tally_phrase(table, phrase, n)),
        count_of(tally_phrase(table, phrase, n), word) == count_of(table, word) + occurrences_in(
            phrase,
            word,
            n,
        ),
    decreases n,
{
    if n > 0 {
        lemma_tally_phrase_count(table, phrase, (n - 1) as nat, word);
        lemma_record_word_count(tally_phrase(table, phrase, (n - 1) as nat), phrase[n - 1], word);
    }
}

proof fn lemma_tally_phrases_count(phrases: Seq<Seq<Seq<char>>>, n: nat, word: Seq<char>)
    ensures
        rows_distinct(tally_phrases(phrases, n)),
        count_of(tally_phrases(phrases, n), word) == word_frequency(phrases, word, n),
    decreases n,
{
    if n > 0 {
        lemma_tally_phrases_count(phrases, (n - 1) as nat, word);
        lemma_tally_phrase_count(
            tally_phrases(phrases, (n - 1) as nat),
            phrases[n - 1],
            phrases[n - 1].len(),
            word,
        );
    }
}

/// What the word table says: no word has two rows, the count of every row is
/// the number of occurrences of its word in the corpus, and a word without a
/// row does not occur.
pub proof fn lemma_word_table_counts(phrases: Seq<Seq<Seq<char>>>)
    ensures
        rows_distinct(word_table(phrases)),
        forall|k: int|
            0 <= k < word_table(phrases).len() ==> (#[trigger] word_table(phrases)[k]).count
                == word_frequency(phrases, word_table(phrases)[k].word, phrases.len()),
        forall|word: Seq<char>|
            (forall|k: int| !word_slot(word_table(phrases), word, k)) ==> #[trigger] word_frequency(
                phrases,
                word,
                phrases.len(),
            ) == 0,
{
    let table = word_table(phrases);
    lemma_tally_phrases_count(phrases, phrases.len(), Seq::empty());
    assert forall|k: int| 0 <= k < table.len() implies (#[trigger] table[k]).count
        == word_frequency(phrases, table[k].word, phrases.len()) by {
        lemma_tally_phrases_count(phrases, phrases.len(), table[k].word);
        assert(word_slot(table, table[k].word, k));
        lemma_count_of_at(table, table[k].word, k);
    }
    assert forall|word: Seq<char>|
        (forall|k: int| !word_slot(table, word, k)) implies #[trigger] word_frequency(
        phrases,
        word,
        phrases.len(),
    ) == 0 by {
        lemma_tally_phrases_count(phrases, phrases.len(), word);
    }
}

proof fn lemma_record_word_keeps(table: Seq<WordView>, word: Seq<char>, other: Seq<char>, k: int)
    requires
        word_slot(table, other, k),
    ensures
        word_slot(record_word(table, word), other, k),
{
}

proof fn lemma_tally_phrase_keeps(
    table: Seq<WordView>,
    phrase: Seq<Seq<char>>,
    n: nat,
    other: Seq<char>,
    k: int,
)
    requires
        word_slot(table, other, k),
    ensures
        word_slot(tally_phrase(table, phrase, n), other, k),
    decreases n,
{
    if n > 0 {
        lemma_tally_phrase_keeps(table, phrase, (n - 1) as nat, other, k);
        lemma_record_word_keeps(
            tally_phrase(table, phrase, (n - 1) as nat),
            phrase[n - 1],
            other,
            k,
        );
    }
}

proof fn lemma_tally_phrase_lists(table: Seq<WordView>, phrase: Seq<Seq<char>>, n: nat, j: int)
    requires
        0 <= j < n,
    ensures
        exists|k: int| word_slot(tally_phrase(table, phrase, n), phrase[j], k),
    decreases n,
{
    let before = tally_phrase(table, phrase, (n - 1) as nat);
    let after = tally_phrase(table, phrase, n);
    if j == n - 1 {
        if exists|k: int| word_slot(before, phrase[j], k) {
            let k = choose|k: int| word_slot(before, phrase[j], k);
            assert(word_slot(after, phrase[j], k));
        } else {
            assert(word_slot(after, phrase[j], before.len() as int));
        }
    } else {
        lemma_tally_phrase_lists(table, phrase, (n - 1) as nat, j);
        let k = choose|k: int| word_slot(before, phrase[j], k);
        lemma_record_word_keeps(before, phrase[n - 1], phrase[j], k);
    }
}

proof fn lemma_tally_phrases_lists(phrases: Seq<Seq<Seq<char>>>, n: nat, i: int, j: int)
    requires
        0 <= i < n <= phrases.len(),
        0 <= j < phrases[i].len(),
    ensures
        exists|k: int| word_slot(tally_phrases(phrases, n), phrases[i][j], k),
    decreases n,
{
    let before = tally_phrases(phrases, (n - 1) as nat);
    let after = tally_phrases(phrases, n);
    let last = phrases[n - 1];
    let word = phrases[i][j];
    assert(after == tally_phrase(before, last, last.len()));
    if i == n - 1 {
        lemma_tally_phrase_lists(before, last, last.len(), j);
        let k = choose|k: int| word_slot(tally_phrase(before, last, last.len()), last[j], k);
        assert(word_slot(after, word, k));
    } else {
        lemma_tally_phrases_lists(phrases, (n - 1) as nat, i, j);
        let k = choose|k: int| word_slot(before, word, k);
        lemma_tally_phrase_keeps(before, last, last.len(), word, k);
        assert(word_slot(after, word, k));
    }
}

/// Every word of the corpus has a row in the word table.
pub proof fn lemma_word_table_lists(phrases: Seq<Seq<Seq<char>>>, i: int, j: int)
    requires
        0 <= i < phrases.len(),
        0 <= j < phrases[i].len(),
    ensures
        exists|k: int| word_slot(word_table(phrases), phrases[i][j], k),
{
    lemma_tally_phrases_lists(phrases, phrases.len(), i, j);
    let k = choose|k: int| word_slot(tally_phrases(phrases, phrases.len()), phrases[i][j], k);
    assert(word_slot(word_table(phrases), phrases[i][j], k));
}

/// The one-character tokens of a word concatenate to the word.
pub proof fn lemma_graphemes_word(word: Seq<char>)
    ensures
        graphemes(word).flatten() == word,
    decreases word.len(),
{
    if word.len() > 0 {
        let rest = word.drop_first();
        lemma_graphemes_word(rest);
        assert(graphemes(word).drop_first() =~= graphemes(rest));
        assert(graphemes(word).first() == seq![word[0]]);
        assert(seq![word[0]] + rest =~= word);
    }
}

/// `with_tokens` extends the vocabulary, gives each of the `n` tokens an entry
/// and keeps the vocabulary free of duplicates.
pub proof fn lemma_with_tokens(vocabulary: Seq<Token>, tokens: Seq<Token>, n: nat)
    requires
        n <= tokens.len(),
    ensures
        vocabulary_extends(with_tokens(vocabulary, tokens, n), vocabulary),
        forall|j: int| 0 <= j < n ==> with_tokens(vocabulary, tokens, n).contains(#[trigger] tokens[j]),
        vocabulary.no_duplicates() ==> with_tokens(vocabulary, tokens, n).no_duplicates(),
    decreases n,
{
    if n > 0 {
        let before = with_tokens(vocabulary, tokens, (n - 1) as nat);
        let after = with_tokens(vocabulary, tokens, n);
        lemma_with_tokens(vocabulary, tokens, (n - 1) as nat);
        lemma_with_token(before, tokens[n - 1]);
        assert forall|j: int| 0 <= j < n implies after.contains(#[trigger] tokens[j]) by {
            if j < n - 1 {
                lemma_extends_contains(after, before, tokens[j]);
            }
        }
    }
}

proof fn lemma_vocabulary_of(corpus: Seq<EntryView>, n: nat)
    requires
        n <= corpus.len(),
    ensures
        vocabulary_of(corpus, n).no_duplicates(),
        forall|i: int|
            0 <= i < n ==> covers_tokens(vocabulary_of(corpus, n), (#[trigger] corpus[i]).tokens),
    decreases n,
{
    if n > 0 {
        let before = vocabulary_of(corpus, (n - 1) as nat);
        let after = vocabulary_of(corpus, n);
        let last = corpus[n - 1].tokens;
        lemma_vocabulary_of(corpus, (n - 1) as nat);
        lemma_with_tokens(before, last, last.len());
        assert forall|i: int| 0 <= i < n implies covers_tokens(
            after,
            (#[trigger] corpus[i]).tokens,
        ) by {
            let tokens = corpus[i].tokens;
            if i < n - 1 {
                assert(covers_tokens(before, tokens));
                assert forall|j: int| 0 <= j < tokens.len() implies after.contains(
                    #[trigger] tokens[j],
                ) by {
                    lemma_extends_contains(after, before, tokens[j]);
                }
            }
        }
    }
}

proof fn lemma_with_tokens_origin(vocabulary: Seq<Token>, tokens: Seq<Token>, n: nat, k: int)
    requires
        n <= tokens.len(),
        0 <= k < with_tokens(vocabulary, tokens, n).len(),
    ensures
        vocabulary.contains(with_tokens(vocabulary, tokens, n)[k]) || exists|j: int|
            0 <= j < n && tokens[j] == with_tokens(vocabulary, tokens, n)[k],
    decreases n,
{
    if n > 0 {
        let before = with_tokens(vocabulary, tokens, (n - 1) as nat);
        let after = with_tokens(vocabulary, tokens, n);
        if k < before.len() {
            lemma_with_tokens_origin(vocabulary, tokens, (n - 1) as nat, k);
            assert(after[k] == before[k]);
        } else {
            assert(after[k] == tokens[n - 1]);
        }
    } else {
        assert(vocabulary[k] == with_tokens(vocabulary, tokens, n)[k]);
    }
}

proof fn lemma_vocabulary_of_origin(corpus: Seq<EntryView>, n: nat, k: int)
    requires
        n <= corpus.len(),
        0 <= k < vocabulary_of(corpus, n).len(),
    ensures
        exists|i: int, j: int|
            0 <= i < n && 0 <= j < corpus[i].tokens.len() && #[trigger] corpus[i].tokens[j]
                == vocabulary_of(corpus, n)[k],
    decreases n,
{
    if n > 0 {
        let before = vocabulary_of(corpus, (n - 1) as nat);
        let last = corpus[n - 1].tokens;
        let entry = vocabulary_of(corpus, n)[k];
        lemma_with_tokens_origin(before, last, last.len(), k);
        if before.contains(entry) {
            let q = choose|q: int| 0 <= q < before.len() && before[q] == entry;
            lemma_vocabulary_of_origin(corpus, (n - 1) as nat, q);
            let (i, j) = choose|i: int, j: int|
                0 <= i < n - 1 && 0 <= j < corpus[i].tokens.len() && #[trigger] corpus[i].tokens[j]
                    == before[q];
            assert(corpus[i].tokens[j] == entry);
        } else {
            let j = choose|j: int| 0 <= j < last.len() && last[j] == entry;
            assert(corpus[n - 1].tokens[j] == entry);
        }
    }
}

/// What the first vocabulary is: it has no entry twice, it has an entry for
/// every token of the corpus index, and every entry of it is a token of the
/// corpus index.
pub proof fn lemma_seed_vocabulary(corpus: Seq<EntryView>)
    ensures
        seed_vocabulary(corpus).no_duplicates(),
        covers_corpus(seed_vocabulary(corpus), corpus),
        forall|k: int|
            0 <= k < seed_vocabulary(corpus).len() ==> exists|i: int, j: int|
                0 <= i < corpus.len() && 0 <= j < corpus[i].tokens.len()
                    && #[trigger] corpus[i].tokens[j] == #[trigger] seed_vocabulary(corpus)[k],
{
    lemma_vocabulary_of(corpus, corpus.len());
    assert forall|k: int| 0 <= k < seed_vocabulary(corpus).len() implies exists|i: int, j: int|
        0 <= i < corpus.len() && 0 <= j < corpus[i].tokens.len() && #[trigger] corpus[i].tokens[j]
            == #[trigger] seed_vocabulary(corpus)[k] by {
        lemma_vocabulary_of_origin(corpus, corpus.len(), k);
    }
}

/// The entries of the first corpus index stand for the words of the word table,
/// row by row.
pub proof fn lemma_seed_corpus_words(phrases: Seq<Seq<Seq<char>>>)
    ensures
        seed_corpus(phrases).len() == word_table(phrases).len(),
        forall|i: int|
            0 <= i < word_table(phrases).len() ==> word_of(#[trigger] seed_corpus(phrases)[i])
                == word_table(phrases)[i].word && seed_corpus(phrases)[i].count == word_table(
                phrases,
            )[i].count,
{
    assert forall|i: int| 0 <= i < word_table(phrases).len() implies word_of(
        #[trigger] seed_corpus(phrases)[i],
    ) == word_table(phrases)[i].word by {
        lemma_graphemes_word(word_table(phrases)[i].word);
    }
}

/// The state before the first round is well-formed, where the counts of the
/// corpus fit the machine and the identifiers fit `u32`.
pub proof fn lemma_seed_wf(phrases: Seq<Seq<Seq<char>>>)
    requires
        corpus_fits(phrases),
        seed_model(phrases).vocabulary.len() <= u32::MAX,
    ensures
        model_wf(seed_model(phrases)),
{
    lemma_word_table_counts(phrases);
    lemma_seed_corpus_words(phrases);
    lemma_seed_vocabulary(seed_corpus(phrases));
}

/// A prefix of a corpus has at most as many words as the corpus.
pub proof fn lemma_total_words_prefix(phrases: Seq<Seq<Seq<char>>>, i: int)
    requires
        0 <= i <= phrases.len(),
    ensures
        total_words(phrases.take(i)) <= total_words(phrases),
    decreases phrases.len() - i,
{
    if i == phrases.len() {
        assert(phrases.take(i) =~= phrases);
    } else {
        lemma_total_words_prefix(phrases, i + 1);
        assert(phrases.take(i + 1).drop_last() =~= phrases.take(i));
    }
}

/// The number of words in `phrases`, unless it exceeds `u64::MAX`.
pub fn count_total_words(phrases: &Vec<Vec<String>>) -> (total: Option<u64>)
    ensures
        match total {
            Some(n) => n == total_words(phrases.deep_view()),
            None => total_words(phrases.deep_view()) > u64::MAX,
        },
{
    let ghost all = phrases.deep_view();
    let mut total: u64 = 0;
    let mut i: usize = 0;
    assert(all.take(0) =~= Seq::<Seq<Seq<char>>>::empty());
    while i < phrases.len()
        invariant
            i <= phrases.len(),
            all == phrases.deep_view(),
            total == total_words(all.take(i as int)),
        decreases phrases.len() - i,
    {
        proof {
            lemma_total_words_prefix(all, i + 1);
            assert(all.take(i + 1).drop_last() =~= all.take(i as int));
            assert(all.take(i + 1).last().len() == phrases[i as int].len());
        }
        match total.checked_add(phrases[i].len() as u64) {
            Some(sum) => {
                total = sum;
            },
            None => {
                return None;
            },
        }
        i += 1;
    }
    assert(all.take(i as int) =~= all);
    Some(total)
}

/// The first row of `word` in `table`.
pub fn find_word(table: &Vec<WordCount>, word: &String) -> (found: Option<usize>)
    ensures
        match found {
            Some(k) => word_slot(table.deep_view(), word@, k as int) && forall|j: int|
                0 <= j < k ==> !word_slot(table.deep_view(), word@, j),
            None => forall|k: int| !word_slot(table.deep_view(), word@, k),
        },
{
    let mut k: usize = 0;
    while k < table.len()
        invariant
            k <= table.len(),
            forall|j: int| 0 <= j < k ==> !word_slot(table.deep_view(), word@, j),
        decreases table.len() - k,
    {
        if table[k].word == *word {
            return Some(k);
        }
        k += 1;
    }
    None
}

/// Builds the word table of `phrases`.
pub fn count_words(phrases: &Vec<Vec<String>>) -> (table: Vec<WordCount>)
    requires
        total_words(phrases.deep_view()) <= u64::MAX,
    ensures
        table.deep_view() == word_table(phrases.deep_view()),
        rows_distinct(table.deep_view()),
{
    let ghost all = phrases.deep_view();
    let mut table: Vec<WordCount> = Vec::new();
    let mut i: usize = 0;
    assert(all.take(0) =~= Seq::<Seq<Seq<char>>>::empty());
    assert(table.deep_view() =~= Seq::<WordView>::empty());
    while i < phrases.len()
        invariant
            i <= phrases.len(),
            all == phrases.deep_view(),
            total_words(all) <= u64::MAX,
            table.deep_view() == tally_phrases(all, i as nat),
            rows_distinct(table.deep_view()),
            forall|k: int|
                0 <= k < table.len() ==> (#[trigger] table.deep_view()[k]).count <= total_words(
                    all.take(i as int),
                ),
        decreases phrases.len() - i,
    {
        let phrase = &phrases[i];
        let ghost words = phrase.deep_view();
        let ghost base = total_words(all.take(i as int));
        proof {
            lemma_total_words_prefix(all, i + 1);
            assert(all.take(i + 1).drop_last() =~= all.take(i as int));
            assert(all.take(i + 1).last() == all[i as int]);
            assert(all[i as int] == words);
        }
        let mut j: usize = 0;
        while j < phrase.len()
            invariant
                j <= phrase.len(),
                i < phrases.len(),
                all == phrases.deep_view(),
                phrase == &phrases[i as int],
                words == phrase.deep_view(),
                base + phrase.len() <= u64::MAX,
                table.deep_view() == tally_phrase(tally_phrases(all, i as nat), words, j as nat),
                rows_distinct(table.deep_view()),
                forall|k: int|
                    0 <= k < table.len() ==> (#[trigger] table.deep_view()[k]).count <= base + j,
            decreases phrase.len() - j,
        {
            let ghost before = table.deep_view();
            let word = &phrase[j];
            match find_word(&table, word) {
                Some(k) => {
                    proof {
                        lemma_record_word_at(before, word@, k as int);
                    }
                    let count = table[k].count + 1;
                    table[k].count = count;
                    assert(table.deep_view() =~= before.update(
                        k as int,
                        WordView { word: word@, count: before[k as int].count + 1 },
                    ));
                },
                None => {
                    proof {
                        lemma_record_word_new(before, word@);
                    }
                    table.push(WordCount { word: word.clone(), count: 1 });
                    assert(table.deep_view() =~= before.push(WordView { word: word@, count: 1 }));
                },
            }
            j += 1;
        }
        i += 1;
    }
    table
}

/// Splits a word into tokens of one character each.
pub fn split_graphemes(word: &String) -> (tokens: Vec<String>)
    ensures
        tokens.deep_view() == graphemes(word@),
{
    let mut tokens: Vec<String> = Vec::new();
    for c in it: word.as_str().chars()
        invariant
            it.seq() == word@,
            tokens.deep_view() == graphemes(word@).take(it.index() as int),
    {
        let ghost before = tokens.deep_view();
        let mut token = String::new();
        push_char(&mut token, c);
        tokens.push(token);
        assert(token@ =~= seq![c]);
        assert(tokens.deep_view() =~= before.push(token@));
    }
    assert(graphemes(word@).take(word@.len() as int) =~= graphemes(word@));
    tokens
}

/// Builds the first corpus index from a word table.
pub fn seed_entries(table: &Vec<WordCount>) -> (corpus: Vec<WordEntry>)
    ensures
        corpus.deep_view() == table.deep_view().map_values(
            |row: WordView| EntryView { tokens: graphemes(row.word), count: row.count },
        ),
{
    let mut corpus: Vec<WordEntry> = Vec::new();
    let mut i: usize = 0;
    while i < table.len()
        invariant
            i <= table.len(),
            corpus.len() == i,
            forall|k: int|
                0 <= k < i ==> (#[trigger] corpus.deep_view()[k]) == (EntryView {
                    tokens: graphemes(table.deep_view()[k].word),
                    count: table.deep_view()[k].count,
                }),
        decreases table.len() - i,
    {
        let ghost before = corpus.deep_view();
        let tokens = split_graphemes(&table[i].word);
        let entry = WordEntry { tokens, count: table[i].count };
        let ghost added = entry.deep_view();
        corpus.push(entry);
        assert(corpus.deep_view() =~= before.push(added));
        i += 1;
    }
    assert(corpus.deep_view() =~= table.deep_view().map_values(
        |row: WordView| EntryView { tokens: graphemes(row.word), count: row.count },
    ));
    corpus
}

/// The pair weight of `corpus`, unless it exceeds `u64::MAX`.
pub fn corpus_pair_weight(corpus: &Vec<WordEntry>) -> (weight: Option<u64>)
    ensures
        match weight {
            Some(w) => w == pair_weight(corpus.deep_view()),
            None => pair_weight(corpus.deep_view()) > u64::MAX,
        },
{
    let ghost entries = corpus.deep_view();
    let mut total: u64 = 0;
    let mut i: usize = 0;
    assert(entries.take(0) =~= Seq::<EntryView>::empty());
    while i < corpus.len()
        invariant
            i <= corpus.len(),
            entries == corpus.deep_view(),
            total == pair_weight(entries.take(i as int)),
        decreases corpus.len() - i,
    {
        let entry = &corpus[i];
        let pairs: usize = if entry.tokens.len() >= 2 {
            entry.tokens.len() - 1
        } else {
            0
        };
        proof {
            lemma_pair_weight_prefix(entries, i + 1);
            assert(entries.take(i + 1).drop_last() =~= entries.take(i as int));
            assert(entries.take(i + 1).last() == entries[i as int]);
            assert(entries[i as int].tokens.len() == entry.tokens.len());
            assert(pairs == pair_count(entries[i as int].tokens.len()));
        }
        match entry.count.checked_mul(pairs as u64) {
            Some(product) => match total.checked_add(product) {
                Some(sum) => {
                    total = sum;
                },
                None => {
                    return None;
                },
            },
            None => {
                return None;
            },
        }
        i += 1;
    }
    assert(entries.take(i as int) =~= entries);
    Some(total)
}

/// Builds the first vocabulary of a corpus index.
pub fn seed_tokens(corpus: &Vec<WordEntry>) -> (vocabulary: Vec<String>)
    ensures
        vocabulary.deep_view() == seed_vocabulary(corpus.deep_view()),
{
    let ghost entries = corpus.deep_view();
    let mut vocabulary: Vec<String> = Vec::new();
    let mut i: usize = 0;
    assert(vocabulary.deep_view() =~= Seq::<Token>::empty());
    while i < corpus.len()
        invariant
            i <= corpus.len(),
            entries == corpus.deep_view(),
            vocabulary.deep_view() == vocabulary_of(entries, i as nat),
        decreases corpus.len() - i,
    {
        let entry = &corpus[i];
        let ghost tokens = entry.tokens.deep_view();
        assert(entries[i as int].tokens == tokens);
        let mut j: usize = 0;
        while j < entry.tokens.len()
            invariant
                j <= entry.tokens.len(),
                i < corpus.len(),
                entries == corpus.deep_view(),
                entry == &corpus[i as int],
                tokens == entry.tokens.deep_view(),
                vocabulary.deep_view() == with_tokens(vocabulary_of(entries, i as nat), tokens, j as nat),
            decreases entry.tokens.len() - j,
        {
            let ghost before = vocabulary.deep_view();
            let token = &entry.tokens[j];
            if find_token(&vocabulary, token).is_none() {
                vocabulary.push(token.clone());
                assert(vocabulary.deep_view() =~= before.push(token@));
            }
            j += 1;
        }
        i += 1;
    }
    vocabulary
}

} // verus!
