//! Encoding words with a vocabulary: at each position the longest entry that
//! the rest of the word starts with.

use vstd::prelude::*;
use vstd::string::*;
use crate::text::{normalize, phrase_words, pre_tokenize};
use crate::types::{find_token, Token, TokenizerModel};

verus! {

/// Entry `id` is not empty and `text` starts with it.
pub open spec fn is_prefix_entry(vocabulary: Seq<Token>, text: Seq<char>, id: int) -> bool {
    0 <= id < vocabulary.len() && vocabulary[id].len() > 0 && vocabulary[id].is_prefix_of(text)
}

/// Entry `id` is the longest entry that `text` starts with; among entries of
/// that length, the first.
pub open spec fn is_longest_match(vocabulary: Seq<Token>, text: Seq<char>, id: int) -> bool {
    &&& is_prefix_entry(vocabulary, text, id)
    &&& forall|j: int| #[trigger]
        is_prefix_entry(vocabulary, text, j) ==> vocabulary[j].len() < vocabulary[id].len() || (
        vocabulary[j].len() == vocabulary[id].len() && id <= j)
}

/// The identifier of the longest entry that `text` starts with, if it starts
/// with any.
pub open spec fn longest_match(vocabulary: Seq<Token>, text: Seq<char>) -> Option<int> {
    if exists|id: int| is_longest_match(vocabulary, text, id) {
        Some(choose|id: int| is_longest_match(vocabulary, text, id))
    } else {
        None
    }
}

/// The identifiers of `word`: the longest match at its start, then the
/// identifiers of what is left behind that entry. `None` where, at some point,
/// what is left starts with no entry.
pub open spec fn encode_word(vocabulary: Seq<Token>, word: Seq<char>) -> Option<Seq<int>>
    decreases word.len(),
{
    if word.len() == 0 {
        Some(Seq::empty())
    } else {
        match longest_match(vocabulary, word) {
            Some(id) => {
                let n = vocabulary[id].len();
                if 0 < n <= word.len() {
                    match encode_word(vocabulary, word.skip(n as int)) {
                        Some(rest) => Some(seq![id] + rest),
                        None => None,
                    }
                } else {
                    None
                }
            },
            None => None,
        }
    }
}

/// The identifiers of `words`, one word after the other. `None` where a word
/// has none.
pub open spec fn encode_words(vocabulary: Seq<Token>, words: Seq<Seq<char>>) -> Option<Seq<int>>
    decreases words.len(),
{
    if words.len() == 0 {
        Some(Seq::empty())
    } else {
        match (encode_words(vocabulary, words.drop_last()), encode_word(vocabulary, words.last())) {
            (Some(before), Some(last)) => Some(before + last),
            _ => None,
        }
    }
}

/// The characters that a sequence of identifiers stands for.
pub open spec fn decode(vocabulary: Seq<Token>, ids: Seq<int>) -> Seq<char> {
    ids.map_values(|id: int| vocabulary[id]).flatten()
}

/// The identifiers that a vector of `u32` stands for.
pub open spec fn identifiers(ids: Seq<u32>) -> Seq<int> {
    ids.map_values(|id: u32| id as int)
}

/// Why a phrase could not be encoded.
#[derive(Debug, Clone, Copy, PartialEq, Eq)]
pub enum EncodeError {
    /// The word at this position has a part that starts with no vocabulary
    /// entry. No earlier word has.
    UnknownToken { word: usize },
}

/// The longest match is unique, so it is the one that `longest_match` speaks of.
pub proof fn lemma_longest_match(vocabulary: Seq<Token>, text: Seq<char>, id: int)
    requires
        is_longest_match(vocabulary, text, id),
    ensures
        longest_match(vocabulary, text) == Some(id),
{
    let c = choose|c: int| is_longest_match(vocabulary, text, c);
    assert(is_prefix_entry(vocabulary, text, c));
    assert(is_prefix_entry(vocabulary, text, id));
}

/// Where a word cannot be encoded, no sequence of words that holds it can.
pub proof fn lemma_encode_words_fails(vocabulary: Seq<Token>, words: Seq<Seq<char>>, i: int)
    requires
        0 <= i < words.len(),
        encode_word(vocabulary, words[i]) is None,
    ensures
        encode_words(vocabulary, words) is None,
    decreases words.len(),
{
    if i < words.len() - 1 {
        lemma_encode_words_fails(vocabulary, words.drop_last(), i);
    }
}

proof fn lemma_best_among(vocabulary: Seq<Token>, text: Seq<char>, n: int) -> (best: int)
    requires
        0 <= n <= vocabulary.len(),
        exists|j: int| 0 <= j < n && is_prefix_entry(vocabulary, text, j),
    ensures
        0 <= best < n,
        is_prefix_entry(vocabulary, text, best),
        forall|j: int|
            0 <= j < n && #[trigger] is_prefix_entry(vocabulary, text, j) ==> vocabulary[j].len()
                < vocabulary[best].len() || (vocabulary[j].len() == vocabulary[best].len() && best
                <= j),
    decreases n,
{
    if exists|j: int| 0 <= j < n - 1 && is_prefix_entry(vocabulary, text, j) {
        let before = lemma_best_among(vocabulary, text, n - 1);
        if is_prefix_entry(vocabulary, text, n - 1) && vocabulary[n - 1].len()
            > vocabulary[before].len() {
            n - 1
        } else {
            before
        }
    } else {
        let j = choose|j: int| 0 <= j < n && is_prefix_entry(vocabulary, text, j);
        assert(j == n - 1);
        n - 1
    }
}

/// Where `text` starts with some entry, it has a longest match, which is not
/// empty and not longer than `text`.
pub proof fn lemma_longest_match_exists(vocabulary: Seq<Token>, text: Seq<char>, id: int)
    requires
        is_prefix_entry(vocabulary, text, id),
    ensures
        longest_match(vocabulary, text) is Some,
        is_longest_match(vocabulary, text, longest_match(vocabulary, text)->0),
        0 < vocabulary[longest_match(vocabulary, text)->0].len() <= text.len(),
{
    let best = lemma_best_among(vocabulary, text, vocabulary.len() as int);
    assert(is_longest_match(vocabulary, text, best));
    lemma_longest_match(vocabulary, text, best);
}

/// Encoding decomposes the word: every identifier names an entry, and the
/// entries, one after the other, spell the word.
pub proof fn lemma_encode_word_decodes(vocabulary: Seq<Token>, word: Seq<char>)
    requires
        encode_word(vocabulary, word) is Some,
    ensures
        decode(vocabulary, encode_word(vocabulary, word)->0) == word,
        forall|k: int|
            0 <= k < encode_word(vocabulary, word)->0.len() ==> 0 <= (#[trigger] encode_word(
                vocabulary,
                word,
            )->0[k]) < vocabulary.len(),
    decreases word.len(),
{
    let ids = encode_word(vocabulary, word)->0;
    if word.len() == 0 {
        assert(ids.map_values(|id: int| vocabulary[id]) =~= Seq::<Token>::empty());
    } else {
        let id = longest_match(vocabulary, word)->0;
        let n = vocabulary[id].len();
        let left = word.skip(n as int);
        let rest = encode_word(vocabulary, left)->0;
        lemma_encode_word_decodes(vocabulary, left);
        assert(is_longest_match(vocabulary, word, id));
        let entries = ids.map_values(|id: int| vocabulary[id]);
        assert(entries.first() == vocabulary[id]);
        assert(entries.drop_first() =~= rest.map_values(|id: int| vocabulary[id]));
        assert(vocabulary[id] + left =~= word);
        assert forall|k: int| 0 <= k < ids.len() implies 0 <= (#[trigger] ids[k])
            < vocabulary.len() by {
            if k > 0 {
                assert(ids[k] == rest[k - 1]);
            }
        }
    }
}

/// A word can be encoded where the vocabulary has an entry for each of its
/// characters: at every position the rest of the word starts with an entry,
/// and the match is never longer than that rest.
pub proof fn lemma_known_characters_encode(vocabulary: Seq<Token>, word: Seq<char>)
    requires
        forall|k: int| 0 <= k < word.len() ==> vocabulary.contains(seq![#[trigger] word[k]]),
    ensures
        encode_word(vocabulary, word) is Some,
    decreases word.len(),
{
    if word.len() > 0 {
        assert(vocabulary.contains(seq![word[0]]));
        let single = choose|i: int| 0 <= i < vocabulary.len() && vocabulary[i] == seq![word[0]];
        assert(vocabulary[single] =~= word.subrange(0, 1));
        assert(is_prefix_entry(vocabulary, word, single));
        lemma_longest_match_exists(vocabulary, word, single);
        let id = longest_match(vocabulary, word)->0;
        let n = vocabulary[id].len();
        let left = word.skip(n as int);
        assert forall|k: int| 0 <= k < left.len() implies vocabulary.contains(
            seq![#[trigger] left[k]],
        ) by {
            assert(left[k] == word[k + n]);
        }
        lemma_known_characters_encode(vocabulary, left);
    }
}

/// The characters of a string.
pub fn chars_of(text: &str) -> (chars: Vec<char>)
    ensures
        chars@ == text@,
{
    let mut chars: Vec<char> = Vec::new();
    for c in it: text.chars()
        invariant
            it.seq() == text@,
            chars@ == text@.take(it.index() as int),
    {
        chars.push(c);
    }
    assert(text@.take(text@.len() as int) =~= text@);
    chars
}

/// The entries of a vocabulary as characters.
pub fn vocabulary_chars(vocabulary: &Vec<String>) -> (entries: Vec<Vec<char>>)
    ensures
        entries.deep_view() == vocabulary.deep_view(),
{
    let mut entries: Vec<Vec<char>> = Vec::new();
    let mut i: usize = 0;
    assert(entries.deep_view() =~= vocabulary.deep_view().take(0));
    while i < vocabulary.len()
        invariant
            i <= vocabulary.len(),
            entries.deep_view() == vocabulary.deep_view().take(i as int),
        decreases vocabulary.len() - i,
    {
        let ghost before = entries.deep_view();
        let chars = chars_of(vocabulary[i].as_str());
        assert(chars.deep_view() =~= chars@);
        entries.push(chars);
        assert(entries.deep_view() =~= before.push(chars@));
        i += 1;
    }
    assert(vocabulary.deep_view().take(i as int) =~= vocabulary.deep_view());
    entries
}

/// Whether `text`, from position `start` on, starts with `token`.
pub fn starts_with_at(text: &Vec<char>, start: usize, token: &Vec<char>) -> (found: bool)
    requires
        start <= text.len(),
    ensures
        found == token@.is_prefix_of(text@.skip(start as int)),
{
    let ghost rest = text@.skip(start as int);
    if token.len() > text.len() - start {
        return false;
    }
    let mut k: usize = 0;
    while k < token.len()
        invariant
            k <= token.len(),
            start <= text.len(),
            token.len() <= text.len() - start,
            rest == text@.skip(start as int),
            forall|j: int| 0 <= j < k ==> token@[j] == rest[j],
        decreases token.len() - k,
    {
        if token[k] != text[start + k] {
            assert(rest[k as int] != token@[k as int]);
            assert(rest.subrange(0, token@.len() as int)[k as int] == rest[k as int]);
            return false;
        }
        k += 1;
    }
    assert(token@ =~= rest.subrange(0, token@.len() as int));
    true
}

/// The longest vocabulary entry that `text` starts with from position `start`
/// on.
pub fn longest_match_at(entries: &Vec<Vec<char>>, text: &Vec<char>, start: usize) -> (found:
    Option<usize>)
    requires
        start <= text.len(),
    ensures
        match found {
            Some(id) => longest_match(entries.deep_view(), text@.skip(start as int)) == Some(
                id as int,
            ),
            None => longest_match(entries.deep_view(), text@.skip(start as int)) is None,
        },
{
    let ghost vocabulary = entries.deep_view();
    let ghost rest = text@.skip(start as int);
    let mut best: Option<usize> = None;
    let mut id: usize = 0;
    while id < entries.len()
        invariant
            id <= entries.len(),
            start <= text.len(),
            vocabulary == entries.deep_view(),
            rest == text@.skip(start as int),
            match best {
                Some(b) => b < id && is_prefix_entry(vocabulary, rest, b as int) && forall|j: int|
                    0 <= j < id && #[trigger] is_prefix_entry(vocabulary, rest, j)
                        ==> vocabulary[j].len() < vocabulary[b as int].len() || (
                    vocabulary[j].len() == vocabulary[b as int].len() && b <= j),
                None => forall|j: int|
                    0 <= j < id ==> !#[trigger] is_prefix_entry(vocabulary, rest, j),
            },
        decreases entries.len() - id,
    {
        let entry = &entries[id];
        assert(vocabulary[id as int] == entry@);
        if entry.len() > 0 && starts_with_at(text, start, entry) {
            let longer = match best {
                Some(b) => entry.len() > entries[b].len(),
                None => true,
            };
            if longer {
                best = Some(id);
            }
        }
        id += 1;
    }
    proof {
        match best {
            Some(b) => {
                lemma_longest_match(vocabulary, rest, b as int);
            },
            None => {
                if exists|c: int| is_longest_match(vocabulary, rest, c) {
                    let c = choose|c: int| is_longest_match(vocabulary, rest, c);
                    assert(is_prefix_entry(vocabulary, rest, c));
                }
            },
        }
    }
    best
}

/// Encodes one word, given the vocabulary entries as characters.
pub fn encode_chars(entries: &Vec<Vec<char>>, word: &Vec<char>) -> (ids: Option<Vec<u32>>)
    requires
        entries.len() <= u32::MAX,
    ensures
        match ids {
            Some(v) => encode_word(entries.deep_view(), word@) == Some(identifiers(v@)),
            None => encode_word(entries.deep_view(), word@) is None,
        },
{
    let ghost vocabulary = entries.deep_view();
    let mut ids: Vec<u32> = Vec::new();
    let mut start: usize = 0;
    assert(word@.skip(0) =~= word@);
    assert(identifiers(ids@) + Seq::<int>::empty() =~= Seq::<int>::empty());
    while start < word.len()
        invariant
            start <= word.len(),
            entries.len() <= u32::MAX,
            vocabulary == entries.deep_view(),
            encode_word(vocabulary, word@) == match encode_word(
                vocabulary,
                word@.skip(start as int),
            ) {
                Some(rest) => Some(identifiers(ids@) + rest),
                None => None,
            },
        decreases word.len() - start,
    {
        let ghost text = word@.skip(start as int);
        let ghost before = identifiers(ids@);
        match longest_match_at(entries, word, start) {
            Some(id) => {
                let n = entries[id].len();
                proof {
                    assert(is_longest_match(vocabulary, text, id as int));
                    assert(vocabulary[id as int] == entries[id as int]@);
                    assert(text.skip(n as int) =~= word@.skip(start + n));
                }
                ids.push(id as u32);
                proof {
                    assert(identifiers(ids@) =~= before + seq![id as int]);
                    match encode_word(vocabulary, word@.skip(start + n)) {
                        Some(rest) => {
                            assert(before + (seq![id as int] + rest) =~= identifiers(ids@) + rest);
                        },
                        None => {},
                    }
                }
                start = start + n;
            },
            None => {
                return None;
            },
        }
    }
    assert(identifiers(ids@) + Seq::<int>::empty() =~= identifiers(ids@));
    Some(ids)
}

impl TokenizerModel {
    /// The identifier of `token`, if the vocabulary has an entry for it: the
    /// position of its first entry.
    pub fn token_id(&self, token: &String) -> (id: Option<u32>)
        requires
            self@.vocabulary.len() <= u32::MAX,
        ensures
            match id {
                Some(i) => i < self@.vocabulary.len() && self@.vocabulary[i as int] == token@
                    && forall|j: int| 0 <= j < i ==> self@.vocabulary[j] != token@,
                None => !self@.vocabulary.contains(token@),
            },
    {
        match find_token(&self.vocabulary, token) {
            Some(k) => Some(k as u32),
            None => None,
        }
    }

    /// Encodes words that are already normalized: the identifiers of each word,
    /// one word after the other.
    pub fn encode_words(&self, words: &Vec<String>) -> (encoded: Result<Vec<u32>, EncodeError>)
        requires
            self@.vocabulary.len() <= u32::MAX,
        ensures
            match encoded {
                Ok(ids) => encode_words(self@.vocabulary, words.deep_view()) == Some(
                    identifiers(ids@),
                ),
                Err(EncodeError::UnknownToken { word }) => {
                    &&& word < words.len()
                    &&& encode_word(self@.vocabulary, words.deep_view()[word as int]) is None
                    &&& forall|j: int|
                        0 <= j < word ==> encode_word(
                            self@.vocabulary,
                            #[trigger] words.deep_view()[j],
                        ) is Some
                    &&& encode_words(self@.vocabulary, words.deep_view()) is None
                },
            },
    {
        let ghost vocabulary = self@.vocabulary;
        let ghost all = words.deep_view();
        let entries = vocabulary_chars(&self.vocabulary);
        let mut ids: Vec<u32> = Vec::new();
        let mut i: usize = 0;
        assert(all.take(0) =~= Seq::<Seq<char>>::empty());
        assert(identifiers(ids@) =~= Seq::<int>::empty());
        while i < words.len()
            invariant
                i <= words.len(),
                all == words.deep_view(),
                vocabulary == self@.vocabulary,
                entries.deep_view() == vocabulary,
                entries.len() <= u32::MAX,
                encode_words(vocabulary, all.take(i as int)) == Some(identifiers(ids@)),
                forall|j: int| 0 <= j < i ==> encode_word(vocabulary, #[trigger] all[j]) is Some,
            decreases words.len() - i,
        {
            let ghost before = identifiers(ids@);
            let word = chars_of(words[i].as_str());
            proof {
                assert(all.take(i + 1).drop_last() =~= all.take(i as int));
                assert(all.take(i + 1).last() == all[i as int]);
                assert(word@ == all[i as int]);
            }
            match encode_chars(&entries, &word) {
                Some(mut found) => {
                    let ghost added = identifiers(found@);
                    ids.append(&mut found);
                    assert(identifiers(ids@) =~= before + added);
                },
                None => {
                    proof {
                        lemma_encode_words_fails(vocabulary, all, i as int);
                    }
                    return Err(EncodeError::UnknownToken { word: i });
                },
            }
            i += 1;
        }
        assert(all.take(i as int) =~= all);
        Ok(ids)
    }

    /// Encodes a raw phrase: it is normalized and split into words, and the
    /// words are encoded.
    pub fn tokenize(&self, phrase: String) -> (encoded: Result<Vec<u32>, EncodeError>)
        requires
            self@.vocabulary.len() <= u32::MAX,
        ensures
            match encoded {
                Ok(ids) => encode_words(self@.vocabulary, phrase_words(phrase@)) == Some(
                    identifiers(ids@),
                ),
                Err(EncodeError::UnknownToken { word }) => {
                    &&& word < phrase_words(phrase@).len()
                    &&& encode_word(self@.vocabulary, phrase_words(phrase@)[word as int]) is None
                    &&& forall|j: int|
                        0 <= j < word ==> encode_word(
                            self@.vocabulary,
                            #[trigger] phrase_words(phrase@)[j],
                        ) is Some
                    &&& encode_words(self@.vocabulary, phrase_words(phrase@)) is None
                },
            },
    {
        let words = pre_tokenize(normalize(phrase));
        self.encode_words(&words)
    }
}

} // verus!
