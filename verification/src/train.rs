//! Training: rounds that learn the most frequent pairs as merge rules and
//! rewrite the corpus with them.

use vstd::prelude::*;
use vstd::string::*;
use crate::merge::{
    lemma_merge_pass_covered, lemma_merge_pass_keeps_word, lemma_merge_pass_len, merge_pass,
};
use crate::pairs::{
    count_pairs, is_ranking, lemma_ranked_pairs, pair_table, positions, rank_pairs, ranked_pairs,
    ranking, PairView,
};
use crate::seed::{
    corpus_fits, corpus_pair_weight, count_total_words, count_words, lemma_seed_wf, seed_entries,
    seed_model, seed_tokens,
};
use crate::types::{
    covers_tokens, find_token, lemma_extends_contains, lemma_with_token, model_wf, pair_count,
    pair_weight, vocabulary_extends, with_token, word_of, EntryView, MergeRule, ModelView,
    RuleView, TokenizerModel, WordEntry,
};

verus! {

/// The frequency below which a training round learns no pair.
pub const LOW_LIMIT: u32 = 5;

/// The rows whose count reaches `low_limit`.
pub open spec fn is_frequent(low_limit: nat) -> spec_fn(PairView) -> bool {
    |row: PairView| row.count >= low_limit
}

/// The pairs that a round learns from `corpus`: of the `amount` first rows in
/// the ranking of its pair table, those whose count reaches `low_limit`.
pub open spec fn selected_pairs(corpus: Seq<EntryView>, amount: nat, low_limit: nat) -> Seq<
    PairView,
> {
    let ranked = ranked_pairs(pair_table(corpus));
    let top = if amount < ranked.len() {
        ranked.take(amount as int)
    } else {
        ranked
    };
    top.filter(is_frequent(low_limit))
}

proof fn lemma_frequent_prefix(rows: Seq<PairView>, low_limit: nat)
    requires
        forall|a: int, b: int|
            0 <= a < b < rows.len() ==> (#[trigger] rows[a]).count >= (#[trigger] rows[b]).count,
    ensures
        rows.filter(is_frequent(low_limit)).len() <= rows.len(),
        rows.filter(is_frequent(low_limit)) == rows.take(
            rows.filter(is_frequent(low_limit)).len() as int,
        ),
        forall|k: int|
            0 <= k < rows.filter(is_frequent(low_limit)).len() ==> (#[trigger] rows[k]).count
                >= low_limit,
        rows.filter(is_frequent(low_limit)).len() < rows.len() ==> rows[rows.filter(
            is_frequent(low_limit),
        ).len() as int].count < low_limit,
    decreases rows.len(),
{
    reveal(Seq::filter);
    let wanted = is_frequent(low_limit);
    if rows.len() > 0 {
        let init = rows.drop_last();
        let kept = init.filter(wanted);
        assert forall|a: int, b: int| 0 <= a < b < init.len() implies (#[trigger] init[a]).count >= (
        #[trigger] init[b]).count by {
            assert(init[a] == rows[a] && init[b] == rows[b]);
        }
        lemma_frequent_prefix(init, low_limit);
        if wanted(rows.last()) {
            if kept.len() < init.len() {
                assert(rows[kept.len() as int].count >= rows[rows.len() - 1].count);
                assert(init[kept.len() as int] == rows[kept.len() as int]);
            }
            assert(init.take(init.len() as int) =~= init);
            assert(kept.push(rows.last()) =~= rows.take(rows.len() as int));
        } else {
            assert(init.take(kept.len() as int) =~= rows.take(kept.len() as int));
            if kept.len() < init.len() {
                assert(init[kept.len() as int] == rows[kept.len() as int]);
            }
        }
        assert forall|k: int| 0 <= k < rows.filter(wanted).len() implies (#[trigger] rows[k]).count
            >= low_limit by {
            if k < kept.len() {
                assert(init[k] == rows[k]);
            }
        }
    }
}

/// What a round selects: the longest run of pairs at the head of the ranking,
/// at most `amount` long, whose counts all reach `low_limit`.
pub proof fn lemma_selected_pairs(corpus: Seq<EntryView>, amount: nat, low_limit: nat)
    ensures
        selected_pairs(corpus, amount, low_limit).len() <= amount,
        selected_pairs(corpus, amount, low_limit).len() <= pair_table(corpus).len(),
        selected_pairs(corpus, amount, low_limit) == ranked_pairs(pair_table(corpus)).take(
            selected_pairs(corpus, amount, low_limit).len() as int,
        ),
        forall|k: int|
            0 <= k < selected_pairs(corpus, amount, low_limit).len() ==> (
            #[trigger] selected_pairs(corpus, amount, low_limit)[k]).count >= low_limit,
        selected_pairs(corpus, amount, low_limit).len() < amount && selected_pairs(
            corpus,
            amount,
            low_limit,
        ).len() < pair_table(corpus).len() ==> ranked_pairs(pair_table(corpus))[selected_pairs(
            corpus,
            amount,
            low_limit,
        ).len() as int].count < low_limit,
{
    let table = pair_table(corpus);
    let ranked = ranked_pairs(table);
    let top = if amount < ranked.len() {
        ranked.take(amount as int)
    } else {
        ranked
    };
    let selected = selected_pairs(corpus, amount, low_limit);
    lemma_ranked_pairs(table);
    assert forall|a: int, b: int| 0 <= a < b < top.len() implies (#[trigger] top[a]).count >= (
    #[trigger] top[b]).count by {
        assert(top[a] == ranked[a] && top[b] == ranked[b]);
    }
    lemma_frequent_prefix(top, low_limit);
    assert(top.take(selected.len() as int) =~= ranked.take(selected.len() as int));
    assert forall|k: int| 0 <= k < selected.len() implies (#[trigger] selected[k]).count
        >= low_limit by {
        assert(selected[k] == top[k]);
    }
    if selected.len() < amount && selected.len() < table.len() {
        assert(top[selected.len() as int] == ranked[selected.len() as int]);
    }
}

/// The rule that merges a pair: its merged token is the left token followed by
/// the right one.
pub open spec fn rule_of(pair: PairView) -> RuleView {
    RuleView { left: pair.left, right: pair.right, merged: pair.left + pair.right }
}

/// The state after learning `pair`: its rule stands last, and the vocabulary
/// has an entry for its merged token.
pub open spec fn learn_pair(m: ModelView, pair: PairView) -> ModelView {
    ModelView {
        corpus: m.corpus,
        vocabulary: with_token(m.vocabulary, pair.left + pair.right),
        merge_rules: m.merge_rules.push(rule_of(pair)),
    }
}

/// The state after learning `pairs`, one after the other.
pub open spec fn learn_pairs(m: ModelView, pairs: Seq<PairView>) -> ModelView
    decreases pairs.len(),
{
    if pairs.len() == 0 {
        m
    } else {
        learn_pair(learn_pairs(m, pairs.drop_last()), pairs.last())
    }
}

/// An entry after one pass of `rules` over its tokens.
pub open spec fn rewrite_entry(rules: Seq<RuleView>, entry: EntryView) -> EntryView {
    EntryView { tokens: merge_pass(rules, entry.tokens), count: entry.count }
}

/// The state after one pass of all its rules over every entry of its corpus.
pub open spec fn rewrite(m: ModelView) -> ModelView {
    ModelView {
        corpus: m.corpus.map_values(|entry: EntryView| rewrite_entry(m.merge_rules, entry)),
        vocabulary: m.vocabulary,
        merge_rules: m.merge_rules,
    }
}

/// The state after one round: the selected pairs are learned, then the corpus
/// is rewritten.
pub open spec fn round(m: ModelView, amount: nat, low_limit: nat) -> ModelView {
    rewrite(learn_pairs(m, selected_pairs(m.corpus, amount, low_limit)))
}

/// The round learns as many pairs as were asked for.
pub open spec fn round_fills(m: ModelView, amount: nat, low_limit: nat) -> bool {
    selected_pairs(m.corpus, amount, low_limit).len() >= amount
}

/// The number of pairs that the next round is asked for when `remaining`
/// vocabulary entries are still wanted: large batches while the target is far,
/// all that remains when it is near.
pub open spec fn batch_size(remaining: nat) -> nat {
    if remaining > 1000 {
        500
    } else if remaining > 300 {
        300
    } else if remaining > 100 {
        100
    } else {
        remaining
    }
}

/// The state after training for `remaining` more vocabulary entries: rounds of
/// `batch_size` pairs, until nothing remains or a round learns fewer pairs than
/// it was asked for.
pub open spec fn train(m: ModelView, remaining: nat) -> ModelView
    decreases remaining,
{
    if remaining == 0 {
        m
    } else {
        let amount = batch_size(remaining);
        let next = round(m, amount, LOW_LIMIT as nat);
        if round_fills(m, amount, LOW_LIMIT as nat) {
            train(next, (remaining - amount) as nat)
        } else {
            next
        }
    }
}

/// Why a model could not be trained.
#[derive(Debug, Clone, Copy, PartialEq, Eq)]
pub enum TrainError {
    /// The target vocabulary size exceeds the range of identifiers, `u32`.
    TargetOutOfRange,
    /// The corpus has more words, or more weight in its pairs, than `u64` counts.
    CorpusTooLarge,
    /// The target vocabulary size is smaller than the first vocabulary.
    DegenerateTarget,
}

/// Learning a pair keeps a state well-formed, and every vocabulary entry keeps
/// its identifier.
pub proof fn lemma_learn_pair(m: ModelView, pair: PairView)
    requires
        model_wf(m),
        m.vocabulary.len() < u32::MAX,
    ensures
        model_wf(learn_pair(m, pair)),
        vocabulary_extends(learn_pair(m, pair).vocabulary, m.vocabulary),
        learn_pair(m, pair).vocabulary.len() <= m.vocabulary.len() + 1,
{
    let after = learn_pair(m, pair);
    lemma_with_token(m.vocabulary, pair.left + pair.right);
    assert forall|k: int| 0 <= k < after.merge_rules.len() implies after.vocabulary.contains(
        (#[trigger] after.merge_rules[k]).merged,
    ) by {
        if k < m.merge_rules.len() {
            assert(after.merge_rules[k] == m.merge_rules[k]);
            lemma_extends_contains(after.vocabulary, m.vocabulary, m.merge_rules[k].merged);
        }
    }
    assert forall|i: int| 0 <= i < after.corpus.len() implies covers_tokens(
        after.vocabulary,
        (#[trigger] after.corpus[i]).tokens,
    ) by {
        let tokens = m.corpus[i].tokens;
        assert(covers_tokens(m.vocabulary, tokens));
        assert forall|j: int| 0 <= j < tokens.len() implies after.vocabulary.contains(
            #[trigger] tokens[j],
        ) by {
            lemma_extends_contains(after.vocabulary, m.vocabulary, tokens[j]);
        }
    }
}

/// Learning pairs keeps a state well-formed, leaves its corpus alone, and every
/// vocabulary entry keeps its identifier.
pub proof fn lemma_learn_pairs(m: ModelView, pairs: Seq<PairView>)
    requires
        model_wf(m),
        m.vocabulary.len() + pairs.len() <= u32::MAX,
    ensures
        model_wf(learn_pairs(m, pairs)),
        learn_pairs(m, pairs).corpus == m.corpus,
        learn_pairs(m, pairs).merge_rules.len() == m.merge_rules.len() + pairs.len(),
        vocabulary_extends(learn_pairs(m, pairs).vocabulary, m.vocabulary),
        learn_pairs(m, pairs).vocabulary.len() <= m.vocabulary.len() + pairs.len(),
    decreases pairs.len(),
{
    if pairs.len() > 0 {
        lemma_learn_pairs(m, pairs.drop_last());
        lemma_learn_pair(learn_pairs(m, pairs.drop_last()), pairs.last());
    }
}

/// Rewriting never adds to the pair weight of a corpus.
proof fn lemma_rewrite_weight(rules: Seq<RuleView>, corpus: Seq<EntryView>)
    ensures
        pair_weight(corpus.map_values(|entry: EntryView| rewrite_entry(rules, entry)))
            <= pair_weight(corpus),
    decreases corpus.len(),
{
    let rewritten = corpus.map_values(|entry: EntryView| rewrite_entry(rules, entry));
    if corpus.len() > 0 {
        lemma_rewrite_weight(rules, corpus.drop_last());
        assert(rewritten.drop_last() =~= corpus.drop_last().map_values(
            |entry: EntryView| rewrite_entry(rules, entry),
        ));
        let entry = corpus.last();
        lemma_merge_pass_len(rules, entry.tokens);
        let before = pair_count(entry.tokens.len());
        let after = pair_count(rewritten.last().tokens.len());
        assert(entry.count * after <= entry.count * before) by (nonlinear_arith)
            requires
                after <= before,
        ;
    }
}

/// Rewriting keeps a state well-formed and keeps the word of every entry.
pub proof fn lemma_rewrite(m: ModelView)
    requires
        model_wf(m),
    ensures
        model_wf(rewrite(m)),
        rewrite(m).corpus.len() == m.corpus.len(),
        forall|i: int|
            0 <= i < m.corpus.len() ==> word_of(#[trigger] rewrite(m).corpus[i]) == word_of(
                m.corpus[i],
            ) && rewrite(m).corpus[i].count == m.corpus[i].count,
{
    let after = rewrite(m);
    assert forall|i: int| 0 <= i < m.corpus.len() implies word_of(#[trigger] after.corpus[i])
        == word_of(m.corpus[i]) && covers_tokens(after.vocabulary, after.corpus[i].tokens) by {
        lemma_merge_pass_keeps_word(m.merge_rules, m.corpus[i].tokens);
        lemma_merge_pass_covered(m.vocabulary, m.merge_rules, m.corpus[i].tokens);
    }
    lemma_rewrite_weight(m.merge_rules, m.corpus);
}

/// A round keeps a state well-formed, keeps the word of every entry, and every
/// vocabulary entry keeps its identifier.
pub proof fn lemma_round(m: ModelView, amount: nat, low_limit: nat)
    requires
        model_wf(m),
        m.vocabulary.len() + amount <= u32::MAX,
    ensures
        model_wf(round(m, amount, low_limit)),
        selected_pairs(m.corpus, amount, low_limit).len() <= amount,
        vocabulary_extends(round(m, amount, low_limit).vocabulary, m.vocabulary),
        round(m, amount, low_limit).vocabulary.len() <= m.vocabulary.len() + selected_pairs(
            m.corpus,
            amount,
            low_limit,
        ).len(),
        round(m, amount, low_limit).corpus.len() == m.corpus.len(),
        forall|i: int|
            0 <= i < m.corpus.len() ==> word_of(#[trigger] round(m, amount, low_limit).corpus[i])
                == word_of(m.corpus[i]),
{
    broadcast use vstd::seq_lib::group_filter_ensures;

    let selected = selected_pairs(m.corpus, amount, low_limit);
    lemma_learn_pairs(m, selected);
    lemma_rewrite(learn_pairs(m, selected));
}

/// Training keeps a state well-formed, keeps the word of every entry, and every
/// vocabulary entry keeps its identifier; the vocabulary grows by at most
/// `remaining` entries.
pub proof fn lemma_train(m: ModelView, remaining: nat)
    requires
        model_wf(m),
        m.vocabulary.len() + remaining <= u32::MAX,
    ensures
        model_wf(train(m, remaining)),
        vocabulary_extends(train(m, remaining).vocabulary, m.vocabulary),
        train(m, remaining).vocabulary.len() <= m.vocabulary.len() + remaining,
        train(m, remaining).corpus.len() == m.corpus.len(),
        forall|i: int|
            0 <= i < m.corpus.len() ==> word_of(#[trigger] train(m, remaining).corpus[i])
                == word_of(m.corpus[i]),
    decreases remaining,
{
    if remaining > 0 {
        let amount = batch_size(remaining);
        let next = round(m, amount, LOW_LIMIT as nat);
        lemma_round(m, amount, LOW_LIMIT as nat);
        if round_fills(m, amount, LOW_LIMIT as nat) {
            lemma_train(next, (remaining - amount) as nat);
            let last = train(m, remaining);
            assert forall|i: int| 0 <= i < m.corpus.len() implies word_of(
                #[trigger] last.corpus[i],
            ) == word_of(m.corpus[i]) by {
                assert(word_of(next.corpus[i]) == word_of(m.corpus[i]));
            }
        }
    }
}

/// The number of pairs to ask the next round for.
pub fn next_batch(remaining: usize) -> (amount: usize)
    ensures
        amount == batch_size(remaining as nat),
{
    if remaining > 1000 {
        500
    } else if remaining > 300 {
        300
    } else if remaining > 100 {
        100
    } else {
        remaining
    }
}

impl TokenizerModel {
    /// Seeds a model from `phrases` and trains it towards a vocabulary of `size`
    /// entries.
    ///
    /// The corpus index lists the distinct words in the order of first
    /// occurrence, each as one token for each character; the first vocabulary
    /// numbers the distinct characters in that order. Training then runs rounds
    /// until `size` is accounted for or a round learns fewer pairs than it was
    /// asked for.
    pub fn new(phrases: Vec<Vec<String>>, size: usize) -> (trained: Result<
        TokenizerModel,
        TrainError,
    >)
        ensures
            match trained {
                Ok(model) => {
                    &&& size <= u32::MAX
                    &&& corpus_fits(phrases.deep_view())
                    &&& seed_model(phrases.deep_view()).vocabulary.len() <= size
                    &&& model@ == train(
                        seed_model(phrases.deep_view()),
                        (size - seed_model(phrases.deep_view()).vocabulary.len()) as nat,
                    )
                    &&& model.wf()
                    &&& model@.vocabulary.len() <= size
                },
                Err(TrainError::TargetOutOfRange) => size > u32::MAX,
                Err(TrainError::CorpusTooLarge) => size <= u32::MAX && !corpus_fits(
                    phrases.deep_view(),
                ),
                Err(TrainError::DegenerateTarget) => {
                    &&& size <= u32::MAX
                    &&& corpus_fits(phrases.deep_view())
                    &&& size < seed_model(phrases.deep_view()).vocabulary.len()
                },
            },
    {
        let ghost all = phrases.deep_view();
        if size > u32::MAX as usize {
            return Err(TrainError::TargetOutOfRange);
        }
        if count_total_words(&phrases).is_none() {
            return Err(TrainError::CorpusTooLarge);
        }
        let table = count_words(&phrases);
        let corpus = seed_entries(&table);
        if corpus_pair_weight(&corpus).is_none() {
            return Err(TrainError::CorpusTooLarge);
        }
        let vocabulary = seed_tokens(&corpus);
        if vocabulary.len() > size {
            return Err(TrainError::DegenerateTarget);
        }
        let mut model = TokenizerModel { corpus, vocabulary, merge_rules: Vec::new() };
        let mut remaining: usize = size - model.vocabulary.len();
        let mut stopped = false;
        let ghost target = train(seed_model(all), remaining as nat);
        proof {
            assert(model.merge_rules.deep_view() =~= Seq::<RuleView>::empty());
            assert(model@ == seed_model(all));
            lemma_seed_wf(all);
        }
        while remaining > 0 && !stopped
            invariant
                model.wf(),
                size <= u32::MAX,
                model@.vocabulary.len() + remaining <= size,
                stopped ==> model@ == target,
                !stopped ==> train(model@, remaining as nat) == target,
            decreases remaining,
        {
            let amount = next_batch(remaining);
            let ghost before = model@;
            proof {
                lemma_round(before, amount as nat, LOW_LIMIT as nat);
            }
            let filled = model.increase_vocabulary(amount);
            remaining = remaining - amount;
            if !filled {
                stopped = true;
            }
        }
        Ok(model)
    }

    /// Learns the most frequent adjacent pairs of the corpus: of the `amount`
    /// first pairs in the ranking, each one whose frequency reaches
    /// `low_limit` gets a merge rule and a vocabulary entry for its merged
    /// token. Returns the number of pairs learned.
    pub fn most_frequent_pairs(&mut self, amount: usize, low_limit: u32) -> (added: usize)
        requires
            old(self).wf(),
            old(self)@.vocabulary.len() + amount <= u32::MAX,
        ensures
            final(self)@ == learn_pairs(
                old(self)@,
                selected_pairs(old(self)@.corpus, amount as nat, low_limit as nat),
            ),
            added == selected_pairs(old(self)@.corpus, amount as nat, low_limit as nat).len(),
            added <= amount,
            final(self).wf(),
            vocabulary_extends(final(self)@.vocabulary, old(self)@.vocabulary),
    {
        broadcast use vstd::seq_lib::group_filter_ensures;

        let ghost start = self@;
        let table = count_pairs(&self.corpus);
        let order = rank_pairs(&table);
        let ghost rows = table.deep_view();
        let ghost ranked = ranked_pairs(rows);
        let limit = if amount < order.len() {
            amount
        } else {
            order.len()
        };
        let ghost top = if amount < ranked.len() {
            ranked.take(amount as int)
        } else {
            ranked
        };
        let ghost wanted = is_frequent(low_limit as nat);
        let mut added: usize = 0;
        let mut t: usize = 0;
        proof {
            assert(top.take(0) =~= Seq::<PairView>::empty());
            reveal(Seq::filter);
            assert(top.take(0).filter(wanted) =~= Seq::<PairView>::empty());
        }
        while t < limit
            invariant
                t <= limit,
                limit <= amount,
                limit == top.len(),
                limit <= order.len(),
                order.len() == table.len(),
                rows == table.deep_view(),
                ranked == ranked_pairs(rows),
                top == ranked.take(limit as int),
                wanted == is_frequent(low_limit as nat),
                positions(order@) == ranking(rows),
                is_ranking(rows, ranking(rows)),
                model_wf(start),
                start.vocabulary.len() + amount <= u32::MAX,
                self@ == learn_pairs(start, top.take(t as int).filter(wanted)),
                added == top.take(t as int).filter(wanted).len(),
                added <= t,
            decreases limit - t,
        {
            let ghost learned = top.take(t as int).filter(wanted);
            let ghost before = self@;
            proof {
                assert(top.take(t + 1) =~= top.take(t as int).push(top[t as int]));
                top.take(t as int).lemma_filter_push(top[t as int], wanted);
                lemma_learn_pairs(start, learned);
                assert(positions(order@)[t as int] == order[t as int]);
                assert(ranking(rows)[t as int] == order[t as int]);
                assert(top[t as int] == rows[order[t as int] as int]);
            }
            let row = &table[order[t]];
            if row.count >= low_limit as u64 {
                let merged = row.left.clone().concat(row.right.as_str());
                let rule = MergeRule {
                    left: row.left.clone(),
                    right: row.right.clone(),
                    merged: merged.clone(),
                };
                let ghost pair = top[t as int];
                let ghost rules_before = self.merge_rules.deep_view();
                let ghost vocabulary_before = self.vocabulary.deep_view();
                assert(rule.deep_view() == rule_of(pair));
                self.merge_rules.push(rule);
                assert(self.merge_rules.deep_view() =~= rules_before.push(rule_of(pair)));
                if find_token(&self.vocabulary, &merged).is_none() {
                    self.vocabulary.push(merged);
                    assert(self.vocabulary.deep_view() =~= vocabulary_before.push(
                        pair.left + pair.right,
                    ));
                }
                proof {
                    let now = learned.push(pair);
                    assert(now.drop_last() =~= learned);
                    assert(now.last() == pair);
                    assert(self@ == learn_pair(before, pair));
                }
                added += 1;
            }
            t += 1;
        }
        proof {
            assert(top.take(limit as int) =~= top);
            lemma_learn_pairs(start, top.filter(wanted));
        }
        added
    }

    /// Rewrites every entry of the corpus by one pass of the merge rules. A
    /// well-formed state stays well-formed, and each entry keeps its word.
    pub fn update_corpus(&mut self)
        ensures
            final(self)@ == rewrite(old(self)@),
            old(self).wf() ==> final(self).wf(),
            old(self).wf() ==> forall|i: int|
                0 <= i < old(self)@.corpus.len() ==> word_of(#[trigger] final(self)@.corpus[i])
                    == word_of(old(self)@.corpus[i]),
    {
        let ghost start = self@;
        let mut rewritten: Vec<WordEntry> = Vec::new();
        let mut i: usize = 0;
        while i < self.corpus.len()
            invariant
                i <= self.corpus.len(),
                self@ == start,
                rewritten.len() == i,
                forall|k: int|
                    0 <= k < i ==> #[trigger] rewritten.deep_view()[k] == rewrite_entry(
                        start.merge_rules,
                        start.corpus[k],
                    ),
            decreases self.corpus.len() - i,
        {
            let ghost before = rewritten.deep_view();
            let tokens = self.apply_merge_rules(self.corpus[i].tokens.clone());
            let entry = WordEntry { tokens, count: self.corpus[i].count };
            let ghost added = entry.deep_view();
            assert(added == rewrite_entry(start.merge_rules, start.corpus[i as int]));
            rewritten.push(entry);
            assert(rewritten.deep_view() =~= before.push(added));
            i += 1;
        }
        self.corpus = rewritten;
        proof {
            assert(self@.corpus =~= rewrite(start).corpus);
            if model_wf(start) {
                lemma_rewrite(start);
            }
        }
    }

    /// One training round: learns up to `amount` pairs whose frequency reaches
    /// [`LOW_LIMIT`], then rewrites the corpus. Returns whether `amount` pairs
    /// were learned.
    pub fn increase_vocabulary(&mut self, amount: usize) -> (filled: bool)
        requires
            old(self).wf(),
            old(self)@.vocabulary.len() + amount <= u32::MAX,
        ensures
            final(self)@ == round(old(self)@, amount as nat, LOW_LIMIT as nat),
            filled == round_fills(old(self)@, amount as nat, LOW_LIMIT as nat),
            final(self).wf(),
            vocabulary_extends(final(self)@.vocabulary, old(self)@.vocabulary),
    {
        let added = self.most_frequent_pairs(amount, LOW_LIMIT);
        self.update_corpus();
        added >= amount
    }
}

} // verus!
