//! The pair frequency table of a corpus and the ranking of its pairs.

use vstd::prelude::*;
use vstd::string::*;
use crate::types::{pair_count, pair_weight, EntryView, Token, WordEntry};

verus! {

/// An adjacent token pair and its frequency in the corpus.
#[derive(Debug, Clone, PartialEq, Eq)]
pub struct PairCount {
    pub left: String,
    pub right: String,
    pub count: u64,
}

/// The model of a [`PairCount`].
pub struct PairView {
    pub left: Token,
    pub right: Token,
    pub count: nat,
}

impl DeepView for PairCount {
    type V = PairView;

    open spec fn deep_view(&self) -> PairView {
        PairView { left: self.left@, right: self.right@, count: self.count as nat }
    }
}

/// Row `k` of `table` is the row of the pair `left`, `right`.
pub open spec fn pair_slot(table: Seq<PairView>, left: Token, right: Token, k: int) -> bool {
    0 <= k < table.len() && table[k].left == left && table[k].right == right
}

/// No pair has two rows.
pub open spec fn pairs_distinct(table: Seq<PairView>) -> bool {
    forall|i: int, j: int|
        0 <= i < j < table.len() ==> !((#[trigger] table[i]).left == (#[trigger] table[j]).left
            && table[i].right == table[j].right)
}

/// `table` after one more occurrence of the pair `left`, `right` in a word that
/// occurs `weight` times: the count of the pair's row grows by `weight`; a pair
/// without a row gets one at the end.
pub open spec fn record_pair(table: Seq<PairView>, left: Token, right: Token, weight: nat) -> Seq<
    PairView,
> {
    if exists|k: int| pair_slot(table, left, right, k) {
        let k = choose|k: int| pair_slot(table, left, right, k);
        table.update(k, PairView { left, right, count: table[k].count + weight })
    } else {
        table.push(PairView { left, right, count: weight })
    }
}

/// `table` after the first `n` adjacent pairs of `tokens`, from the left.
pub open spec fn tally_word(table: Seq<PairView>, tokens: Seq<Token>, weight: nat, n: nat) -> Seq<
    PairView,
>
    decreases n,
{
    if n == 0 {
        table
    } else {
        record_pair(
            tally_word(table, tokens, weight, (n - 1) as nat),
            tokens[n - 1],
            tokens[n as int],
            weight,
        )
    }
}

/// The pair table of the first `n` entries of `corpus`.
pub open spec fn tally_corpus(corpus: Seq<EntryView>, n: nat) -> Seq<PairView>
    decreases n,
{
    if n == 0 {
        Seq::empty()
    } else {
        let entry = corpus[n - 1];
        tally_word(
            tally_corpus(corpus, (n - 1) as nat),
            entry.tokens,
            entry.count,
            pair_count(entry.tokens.len()),
        )
    }
}

/// The pair frequency table of `corpus`: one row for each distinct adjacent
/// token pair, in the order of first occurrence, with the number of its
/// occurrences, each weighted by the count of the word it stands in.
pub open spec fn pair_table(corpus: Seq<EntryView>) -> Seq<PairView> {
    tally_corpus(corpus, corpus.len())
}

/// Recording an occurrence of a pair that has row `k` adds to that row.
pub proof fn lemma_record_pair_at(
    table: Seq<PairView>,
    left: Token,
    right: Token,
    weight: nat,
    k: int,
)
    requires
        pairs_distinct(table),
        pair_slot(table, left, right, k),
    ensures
        record_pair(table, left, right, weight) == table.update(
            k,
            PairView { left, right, count: table[k].count + weight },
        ),
        pairs_distinct(record_pair(table, left, right, weight)),
{
    let c = choose|c: int| pair_slot(table, left, right, c);
    if c < k {
        assert(!(table[c].left == table[k].left && table[c].right == table[k].right));
    }
    if k < c {
        assert(!(table[k].left == table[c].left && table[k].right == table[c].right));
    }
    let after = record_pair(table, left, right, weight);
    assert forall|i: int, j: int| 0 <= i < j < after.len() implies !((#[trigger] after[i]).left == (
    #[trigger] after[j]).left && after[i].right == after[j].right) by {
        assert(after[i].left == table[i].left && after[i].right == table[i].right);
        assert(after[j].left == table[j].left && after[j].right == table[j].right);
    }
}

/// Recording an occurrence of a pair that has no row appends a row.
pub proof fn lemma_record_pair_new(table: Seq<PairView>, left: Token, right: Token, weight: nat)
    requires
        pairs_distinct(table),
        forall|k: int| !pair_slot(table, left, right, k),
    ensures
        record_pair(table, left, right, weight) == table.push(
            PairView { left, right, count: weight },
        ),
        pairs_distinct(record_pair(table, left, right, weight)),
{
    let after = record_pair(table, left, right, weight);
    assert forall|i: int, j: int| 0 <= i < j < after.len() implies !((#[trigger] after[i]).left == (
    #[trigger] after[j]).left && after[i].right == after[j].right) by {
        if j == table.len() {
            assert(!pair_slot(table, left, right, i));
            assert(after[i] == table[i]);
        } else {
            assert(after[i] == table[i]);
            assert(after[j] == table[j]);
        }
    }
}

/// Among the first `n` adjacent pairs of `tokens`, the number of those that are
/// `left` followed by `right`.
pub open spec fn occurrences(tokens: Seq<Token>, left: Token, right: Token, n: nat) -> nat
    decreases n,
{
    if n == 0 {
        0
    } else {
        occurrences(tokens, left, right, (n - 1) as nat) + if tokens[n - 1] == left
            && tokens[n as int] == right {
            1nat
        } else {
            0nat
        }
    }
}

/// The frequency of the pair `left`, `right` in the first `n` entries of
/// `corpus`: the number of its occurrences, each counted as often as its word
/// occurs.
pub open spec fn pair_frequency(corpus: Seq<EntryView>, left: Token, right: Token, n: nat) -> nat
    decreases n,
{
    if n == 0 {
        0
    } else {
        let entry = corpus[n - 1];
        pair_frequency(corpus, left, right, (n - 1) as nat) + entry.count * occurrences(
            entry.tokens,
            left,
            right,
            pair_count(entry.tokens.len()),
        )
    }
}

/// The count that `table` holds for the pair `left`, `right`: that of its row,
/// or zero where it has none.
pub open spec fn count_in(table: Seq<PairView>, left: Token, right: Token) -> nat {
    if exists|k: int| pair_slot(table, left, right, k) {
        table[choose|k: int| pair_slot(table, left, right, k)].count
    } else {
        0
    }
}

proof fn lemma_count_in_at(table: Seq<PairView>, left: Token, right: Token, k: int)
    requires
        pairs_distinct(table),
        pair_slot(table, left, right, k),
    ensures
        count_in(table, left, right) == table[k].count,
{
    let c = choose|c: int| pair_slot(table, left, right, c);
    if c < k {
        assert(!(table[c].left == table[k].left && table[c].right == table[k].right));
    }
    if k < c {
        assert(!(table[k].left == table[c].left && table[k].right == table[c].right));
    }
}

proof fn lemma_record_pair_count(
    table: Seq<PairView>,
    left: Token,
    right: Token,
    weight: nat,
    a: Token,
    b: Token,
)
    requires
        pairs_distinct(table),
    ensures
        pairs_distinct(record_pair(table, left, right, weight)),
        count_in(record_pair(table, left, right, weight), a, b) == count_in(table, a, b) + if a
            == left && b == right {
            weight
        } else {
            0
        },
{
    let after = record_pair(table, left, right, weight);
    if exists|k: int| pair_slot(table, left, right, k) {
        let k = choose|k: int| pair_slot(table, left, right, k);
        lemma_record_pair_at(table, left, right, weight, k);
        if exists|q: int| pair_slot(table, a, b, q) {
            let q = choose|q: int| pair_slot(table, a, b, q);
            assert(pair_slot(after, a, b, q));
            lemma_count_in_at(table, a, b, q);
            lemma_count_in_at(after, a, b, q);
            if a == left && b == right {
                lemma_count_in_at(table, a, b, k);
            }
        } else {
            if exists|q: int| pair_slot(after, a, b, q) {
                let q = choose|q: int| pair_slot(after, a, b, q);
                assert(pair_slot(table, a, b, q));
            }
        }
    } else {
        lemma_record_pair_new(table, left, right, weight);
        if exists|q: int| pair_slot(table, a, b, q) {
            let q = choose|q: int| pair_slot(table, a, b, q);
            assert(pair_slot(after, a, b, q));
            lemma_count_in_at(table, a, b, q);
            lemma_count_in_at(after, a, b, q);
        } else if a == left && b == right {
            assert(pair_slot(after, a, b, table.len() as int));
            lemma_count_in_at(after, a, b, table.len() as int);
        } else {
            if exists|q: int| pair_slot(after, a, b, q) {
                let q = choose|q: int| pair_slot(after, a, b, q);
                assert(pair_slot(table, a, b, q));
            }
        }
    }
}

proof fn lemma_tally_word_count(
    table: Seq<PairView>,
    tokens: Seq<Token>,
    weight: nat,
    n: nat,
    a: Token,
    b: Token,
)
    requires
        pairs_distinct(table),
    ensures
        pairs_distinct(tally_word(table, tokens, weight, n)),
        count_in(tally_word(table, tokens, weight, n), a, b) == count_in(table, a, b) + weight
            * occurrences(tokens, a, b, n),
    decreases n,
{
    if n > 0 {
        let before = tally_word(table, tokens, weight, (n - 1) as nat);
        lemma_tally_word_count(table, tokens, weight, (n - 1) as nat, a, b);
        lemma_record_pair_count(before, tokens[n - 1], tokens[n as int], weight, a, b);
        let earlier = occurrences(tokens, a, b, (n - 1) as nat);
        assert(weight * (earlier + 1) == weight * earlier + weight) by (nonlinear_arith);
    } else {
        assert(weight * 0 == 0) by (nonlinear_arith);
    }
}

proof fn lemma_tally_corpus_count(corpus: Seq<EntryView>, n: nat, a: Token, b: Token)
    ensures
        pairs_distinct(tally_corpus(corpus, n)),
        count_in(tally_corpus(corpus, n), a, b) == pair_frequency(corpus, a, b, n),
    decreases n,
{
    if n > 0 {
        let entry = corpus[n - 1];
        lemma_tally_corpus_count(corpus, (n - 1) as nat, a, b);
        lemma_tally_word_count(
            tally_corpus(corpus, (n - 1) as nat),
            entry.tokens,
            entry.count,
            pair_count(entry.tokens.len()),
            a,
            b,
        );
    }
}

/// What the pair table says: no pair has two rows, the count of every row is
/// the frequency of its pair in the corpus, and a pair without a row has the
/// frequency zero.
pub proof fn lemma_pair_table_counts(corpus: Seq<EntryView>)
    ensures
        pairs_distinct(pair_table(corpus)),
        forall|k: int|
            0 <= k < pair_table(corpus).len() ==> (#[trigger] pair_table(corpus)[k]).count
                == pair_frequency(
                corpus,
                pair_table(corpus)[k].left,
                pair_table(corpus)[k].right,
                corpus.len(),
            ),
        forall|left: Token, right: Token|
            (forall|k: int| !pair_slot(pair_table(corpus), left, right, k)) ==> #[trigger] pair_frequency(
                corpus,
                left,
                right,
                corpus.len(),
            ) == 0,
{
    let table = pair_table(corpus);
    lemma_tally_corpus_count(corpus, corpus.len(), Seq::empty(), Seq::empty());
    assert forall|k: int| 0 <= k < table.len() implies (#[trigger] table[k]).count
        == pair_frequency(corpus, table[k].left, table[k].right, corpus.len()) by {
        lemma_tally_corpus_count(corpus, corpus.len(), table[k].left, table[k].right);
        assert(pair_slot(table, table[k].left, table[k].right, k));
        lemma_count_in_at(table, table[k].left, table[k].right, k);
    }
    assert forall|left: Token, right: Token|
        (forall|k: int| !pair_slot(table, left, right, k)) implies #[trigger] pair_frequency(
        corpus,
        left,
        right,
        corpus.len(),
    ) == 0 by {
        lemma_tally_corpus_count(corpus, corpus.len(), left, right);
    }
}

/// The weight of a prefix of the corpus is at most the weight of the corpus.
pub proof fn lemma_pair_weight_prefix(corpus: Seq<EntryView>, i: int)
    requires
        0 <= i <= corpus.len(),
    ensures
        pair_weight(corpus.take(i)) <= pair_weight(corpus),
    decreases corpus.len() - i,
{
    if i == corpus.len() {
        assert(corpus.take(i) =~= corpus);
    } else {
        lemma_pair_weight_prefix(corpus, i + 1);
        assert(corpus.take(i + 1).drop_last() =~= corpus.take(i));
    }
}

/// The first row of the pair `left`, `right` in `table`.
pub fn find_pair(table: &Vec<PairCount>, left: &String, right: &String) -> (found: Option<usize>)
    ensures
        match found {
            Some(k) => pair_slot(table.deep_view(), left@, right@, k as int) && forall|j: int|
                0 <= j < k ==> !pair_slot(table.deep_view(), left@, right@, j),
            None => forall|k: int| !pair_slot(table.deep_view(), left@, right@, k),
        },
{
    let mut k: usize = 0;
    while k < table.len()
        invariant
            k <= table.len(),
            forall|j: int| 0 <= j < k ==> !pair_slot(table.deep_view(), left@, right@, j),
        decreases table.len() - k,
    {
        if table[k].left == *left && table[k].right == *right {
            return Some(k);
        }
        k += 1;
    }
    None
}

/// Builds the pair frequency table of `corpus`.
pub fn count_pairs(corpus: &Vec<WordEntry>) -> (table: Vec<PairCount>)
    requires
        pair_weight(corpus.deep_view()) <= u64::MAX,
    ensures
        table.deep_view() == pair_table(corpus.deep_view()),
        pairs_distinct(table.deep_view()),
{
    let ghost entries = corpus.deep_view();
    let mut table: Vec<PairCount> = Vec::new();
    let mut i: usize = 0;
    assert(entries.take(0) =~= Seq::<EntryView>::empty());
    assert(table.deep_view() =~= Seq::<PairView>::empty());
    while i < corpus.len()
        invariant
            i <= corpus.len(),
            entries == corpus.deep_view(),
            pair_weight(entries) <= u64::MAX,
            table.deep_view() == tally_corpus(entries, i as nat),
            pairs_distinct(table.deep_view()),
            forall|k: int|
                0 <= k < table.len() ==> (#[trigger] table.deep_view()[k]).count <= pair_weight(
                    entries.take(i as int),
                ),
        decreases corpus.len() - i,
    {
        let entry = &corpus[i];
        let weight = entry.count;
        let ghost tokens = entry.tokens.deep_view();
        let ghost base = pair_weight(entries.take(i as int));
        let pairs: usize = if entry.tokens.len() >= 2 {
            entry.tokens.len() - 1
        } else {
            0
        };
        proof {
            lemma_pair_weight_prefix(entries, i + 1);
            assert(entries.take(i + 1).drop_last() =~= entries.take(i as int));
            assert(entries.take(i + 1).last() == entries[i as int]);
            assert(entries[i as int].tokens == tokens);
            assert(pair_weight(entries.take(i + 1)) == base + weight * pairs);
        }
        let mut j: usize = 0;
        while j < pairs
            invariant
                j <= pairs,
                i < corpus.len(),
                entries == corpus.deep_view(),
                entry == &corpus[i as int],
                tokens == entry.tokens.deep_view(),
                weight == entry.count,
                pairs == pair_count(tokens.len()),
                base + weight * pairs <= u64::MAX,
                table.deep_view() == tally_word(
                    tally_corpus(entries, i as nat),
                    tokens,
                    weight as nat,
                    j as nat,
                ),
                pairs_distinct(table.deep_view()),
                forall|k: int|
                    0 <= k < table.len() ==> (#[trigger] table.deep_view()[k]).count <= base
                        + weight * j,
            decreases pairs - j,
        {
            let ghost before = table.deep_view();
            let left = &entry.tokens[j];
            let right = &entry.tokens[j + 1];
            proof {
                assert(weight * (j + 1) == weight * j + weight) by (nonlinear_arith);
                assert(weight * (j + 1) <= weight * pairs) by (nonlinear_arith)
                    requires
                        j + 1 <= pairs,
                        0 <= weight,
                ;
            }
            match find_pair(&table, left, right) {
                Some(k) => {
                    proof {
                        lemma_record_pair_at(before, left@, right@, weight as nat, k as int);
                    }
                    let count = table[k].count + weight;
                    table[k].count = count;
                    assert(table.deep_view() =~= before.update(
                        k as int,
                        PairView {
                            left: left@,
                            right: right@,
                            count: before[k as int].count + weight as nat,
                        },
                    ));
                },
                None => {
                    proof {
                        lemma_record_pair_new(before, left@, right@, weight as nat);
                    }
                    table.push(PairCount { left: left.clone(), right: right.clone(), count: weight });
                    assert(table.deep_view() =~= before.push(
                        PairView { left: left@, right: right@, count: weight as nat },
                    ));
                },
            }
            j += 1;
        }
        i += 1;
    }
    table
}

/// Row `i` stands before row `j` in the ranking: it has the higher count, or the
/// same count and the earlier place in the table.
pub open spec fn outranks(table: Seq<PairView>, i: int, j: int) -> bool {
    table[i].count > table[j].count || (table[i].count == table[j].count && i < j)
}

/// `order` lists every row of `table` once, by descending count; rows of equal
/// count keep the order of the table.
pub open spec fn is_ranking(table: Seq<PairView>, order: Seq<int>) -> bool {
    &&& order.len() == table.len()
    &&& forall|k: int| 0 <= k < order.len() ==> 0 <= #[trigger] order[k] < table.len()
    &&& forall|a: int, b: int|
        0 <= a < b < order.len() ==> outranks(table, #[trigger] order[a], #[trigger] order[b])
    &&& forall|i: int| 0 <= i < table.len() ==> #[trigger] order.contains(i)
}

/// The ranking of the rows of `table`.
pub open spec fn ranking(table: Seq<PairView>) -> Seq<int> {
    choose|order: Seq<int>| is_ranking(table, order)
}

/// The rows of `table` in ranking order.
pub open spec fn ranked_pairs(table: Seq<PairView>) -> Seq<PairView> {
    ranking(table).map_values(|i: int| table[i])
}

/// The row numbers that a vector of positions stands for.
pub open spec fn positions(order: Seq<usize>) -> Seq<int> {
    order.map_values(|i: usize| i as int)
}

proof fn lemma_rankings_agree(table: Seq<PairView>, first: Seq<int>, second: Seq<int>, n: int)
    requires
        is_ranking(table, first),
        is_ranking(table, second),
        0 <= n <= table.len(),
    ensures
        forall|k: int| 0 <= k < n ==> first[k] == second[k],
    decreases n,
{
    if n > 0 {
        lemma_rankings_agree(table, first, second, n - 1);
        let x = first[n - 1];
        let y = second[n - 1];
        if x != y {
            assert(second.contains(x));
            let m = choose|m: int| 0 <= m < second.len() && second[m] == x;
            if m < n - 1 {
                assert(outranks(table, first[m], first[n - 1]));
            } else {
                assert(outranks(table, second[n - 1], second[m]));
            }
            assert(first.contains(y));
            let l = choose|l: int| 0 <= l < first.len() && first[l] == y;
            if l < n - 1 {
                assert(outranks(table, second[l], second[n - 1]));
            } else {
                assert(outranks(table, first[n - 1], first[l]));
            }
        }
    }
}

/// A table has one ranking only.
pub proof fn lemma_ranking_unique(table: Seq<PairView>, order: Seq<int>)
    requires
        is_ranking(table, order),
    ensures
        ranking(table) == order,
{
    lemma_rankings_agree(table, ranking(table), order, table.len() as int);
    assert(ranking(table) =~= order);
}

proof fn lemma_rank_slot(table: Seq<PairView>, order: Seq<int>, count: nat, from: int) -> (k: int)
    requires
        0 <= from <= order.len(),
        forall|a: int| 0 <= a < order.len() ==> 0 <= #[trigger] order[a] < table.len(),
        forall|a: int| 0 <= a < from ==> table[#[trigger] order[a]].count >= count,
    ensures
        from <= k <= order.len(),
        forall|a: int| 0 <= a < k ==> table[#[trigger] order[a]].count >= count,
        k < order.len() ==> table[order[k]].count < count,
    decreases order.len() - from,
{
    if from < order.len() && table[order[from]].count >= count {
        lemma_rank_slot(table, order, count, from + 1)
    } else {
        from
    }
}

/// `order` ranks the first `n` rows of `table`.
spec fn ranks_first(table: Seq<PairView>, order: Seq<int>, n: int) -> bool {
    &&& order.len() == n
    &&& 0 <= n <= table.len()
    &&& forall|k: int| 0 <= k < n ==> 0 <= #[trigger] order[k] < n
    &&& forall|a: int, b: int|
        0 <= a < b < n ==> outranks(table, #[trigger] order[a], #[trigger] order[b])
    &&& forall|i: int| 0 <= i < n ==> #[trigger] order.contains(i)
}

proof fn lemma_insert_ranked(table: Seq<PairView>, before: Seq<int>, n: int, k: int)
    requires
        ranks_first(table, before, n),
        n < table.len(),
        0 <= k <= n,
        forall|a: int| 0 <= a < k ==> table[#[trigger] before[a]].count >= table[n].count,
        k < n ==> table[before[k]].count < table[n].count,
    ensures
        ranks_first(table, before.insert(k, n), n + 1),
{
    let after = before.insert(k, n);
    before.insert_ensures(k, n);
    assert forall|a: int| 0 <= a < n + 1 implies 0 <= #[trigger] after[a] < n + 1 by {
        if a < k {
            assert(after[a] == before[a]);
        } else if a > k {
            assert(after[a] == before[a - 1]);
        }
    }
    assert forall|a: int, b: int| 0 <= a < b < n + 1 implies outranks(
        table,
        #[trigger] after[a],
        #[trigger] after[b],
    ) by {
        if b < k {
            assert(after[a] == before[a] && after[b] == before[b]);
        } else if b == k {
            assert(after[a] == before[a]);
        } else if a < k {
            assert(after[a] == before[a] && after[b] == before[b - 1]);
        } else if a == k {
            assert(after[b] == before[b - 1]);
            if k < b - 1 {
                assert(outranks(table, before[k], before[b - 1]));
            }
        } else {
            assert(after[a] == before[a - 1] && after[b] == before[b - 1]);
        }
    }
    assert forall|i: int| 0 <= i < n + 1 implies #[trigger] after.contains(i) by {
        if i == n {
            assert(after[k] == i);
        } else {
            assert(before.contains(i));
            let m = choose|m: int| 0 <= m < before.len() && before[m] == i;
            if m < k {
                assert(after[m] == i);
            } else {
                assert(after[m + 1] == i);
            }
        }
    }
}

proof fn lemma_ranks_first_exists(table: Seq<PairView>, n: int) -> (order: Seq<int>)
    requires
        0 <= n <= table.len(),
    ensures
        ranks_first(table, order, n),
    decreases n,
{
    if n == 0 {
        Seq::empty()
    } else {
        let before = lemma_ranks_first_exists(table, n - 1);
        let k = lemma_rank_slot(table, before, table[n - 1].count, 0);
        lemma_insert_ranked(table, before, n - 1, k);
        before.insert(k, n - 1)
    }
}

/// Every table has a ranking.
pub proof fn lemma_ranking_exists(table: Seq<PairView>) -> (order: Seq<int>)
    ensures
        is_ranking(table, order),
{
    lemma_ranks_first_exists(table, table.len() as int)
}

/// `ranking` is the ranking of the table.
pub proof fn lemma_ranking(table: Seq<PairView>)
    ensures
        is_ranking(table, ranking(table)),
{
    let order = lemma_ranking_exists(table);
}

/// What the rows in ranking order are: the rows of the table, each one once,
/// with no count before a higher one.
pub proof fn lemma_ranked_pairs(table: Seq<PairView>)
    ensures
        ranked_pairs(table).len() == table.len(),
        forall|a: int, b: int|
            0 <= a < b < table.len() ==> (#[trigger] ranked_pairs(table)[a]).count >= (
            #[trigger] ranked_pairs(table)[b]).count,
        forall|i: int| 0 <= i < table.len() ==> ranked_pairs(table).contains(#[trigger] table[i]),
        forall|k: int| 0 <= k < table.len() ==> table.contains(#[trigger] ranked_pairs(table)[k]),
{
    lemma_ranking(table);
    let order = ranking(table);
    let ranked = ranked_pairs(table);
    assert forall|a: int, b: int| 0 <= a < b < table.len() implies (#[trigger] ranked[a]).count >= (
    #[trigger] ranked[b]).count by {
        assert(outranks(table, order[a], order[b]));
    }
    assert forall|i: int| 0 <= i < table.len() implies ranked.contains(#[trigger] table[i]) by {
        assert(order.contains(i));
        let m = choose|m: int| 0 <= m < order.len() && order[m] == i;
        assert(ranked[m] == table[i]);
    }
    assert forall|k: int| 0 <= k < table.len() implies table.contains(#[trigger] ranked[k]) by {
        assert(table[order[k]] == ranked[k]);
    }
}

/// Ranks the rows of `table`: by descending count, rows of equal count in the
/// order of the table.
pub fn rank_pairs(table: &Vec<PairCount>) -> (order: Vec<usize>)
    ensures
        is_ranking(table.deep_view(), positions(order@)),
        positions(order@) == ranking(table.deep_view()),
{
    let ghost rows = table.deep_view();
    let mut order: Vec<usize> = Vec::new();
    let mut i: usize = 0;
    while i < table.len()
        invariant
            i <= table.len(),
            rows == table.deep_view(),
            order.len() == i,
            forall|k: int| 0 <= k < i ==> (#[trigger] order[k]) < i,
            forall|a: int, b: int|
                0 <= a < b < i ==> outranks(rows, (#[trigger] order[a]) as int, (
                #[trigger] order[b]) as int),
            forall|x: int| 0 <= x < i ==> #[trigger] positions(order@).contains(x),
        decreases table.len() - i,
    {
        let count = table[i].count;
        let mut k: usize = 0;
        while k < order.len() && table[order[k]].count >= count
            invariant
                k <= order.len(),
                order.len() == i,
                i < table.len(),
                rows == table.deep_view(),
                count == table[i as int].count,
                forall|a: int| 0 <= a < i ==> (#[trigger] order[a]) < i,
                forall|a: int| 0 <= a < k ==> rows[(#[trigger] order[a]) as int].count >= count,
            decreases order.len() - k,
        {
            k += 1;
        }
        let ghost before = order@;
        order.insert(k, i);
        proof {
            before.insert_ensures(k as int, i);
            let after = order@;
            assert forall|a: int, b: int| 0 <= a < b < i + 1 implies outranks(
                rows,
                (#[trigger] after[a]) as int,
                (#[trigger] after[b]) as int,
            ) by {
                if b < k {
                    assert(after[a] == before[a] && after[b] == before[b]);
                } else if b == k {
                    assert(after[a] == before[a]);
                } else if a < k {
                    assert(after[a] == before[a] && after[b] == before[b - 1]);
                } else if a == k {
                    assert(after[b] == before[b - 1]);
                    if k < b - 1 {
                        assert(outranks(rows, before[k as int] as int, before[b - 1] as int));
                    }
                } else {
                    assert(after[a] == before[a - 1] && after[b] == before[b - 1]);
                }
            }
            assert forall|x: int| 0 <= x < i + 1 implies #[trigger] positions(after).contains(
                x,
            ) by {
                if x == i {
                    assert(positions(after)[k as int] == x);
                } else {
                    assert(positions(before).contains(x));
                    let m = choose|m: int| 0 <= m < before.len() && positions(before)[m] == x;
                    if m < k {
                        assert(positions(after)[m] == x);
                    } else {
                        assert(positions(after)[m + 1] == x);
                    }
                }
            }
        }
        i += 1;
    }
    proof {
        lemma_ranking_unique(rows, positions(order@));
    }
    order
}

} // verus!
