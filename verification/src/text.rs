//! Phrase preparation: Unicode normalization, case folding and splitting at
//! white space.

use vstd::prelude::*;
use vstd::string::*;
use unicode_normalization::UnicodeNormalization;

verus! {

/// The canonical composition (Unicode Normalization Form C) of a character
/// sequence.
pub uninterp spec fn nfc_of(s: Seq<char>) -> Seq<char>;

/// The lowercase equivalent of a character sequence.
pub uninterp spec fn lowercase_of(s: Seq<char>) -> Seq<char>;

/// Whether a character has the Unicode property `White_Space`.
pub uninterp spec fn is_white_space(c: char) -> bool;

/// Calls `UnicodeNormalization::nfc` of the `unicode-normalization` crate on the
/// characters of `s` and collects what the iterator yields. The contract only
/// gives that sequence a name: it depends on the input characters alone.
#[verifier::external_body]
fn nfc_string(s: &str) -> (r: String)
    ensures
        r@ == nfc_of(s@),
{
    s.nfc().collect()
}

/// Calls `str::to_lowercase`. The contract only gives the result a name: it
/// depends on the input characters alone.
#[verifier::external_body]
fn lowercase_string(s: &str) -> (r: String)
    ensures
        r@ == lowercase_of(s@),
{
    s.to_lowercase()
}

/// Calls `char::is_whitespace`. The contract only gives the answer a name.
#[verifier::external_body]
fn char_is_whitespace(c: char) -> (b: bool)
    ensures
        b == is_white_space(c),
{
    c.is_whitespace()
}

/// Calls `String::push`, which appends one character to the end of the string.
#[verifier::external_body]
pub(crate) fn push_char(s: &mut String, c: char)
    ensures
        final(s)@ == old(s)@.push(c),
{
    s.push(c)
}

/// The words of a character sequence: its maximal runs of characters that are
/// not white space, from left to right.
///
/// Read from the last character: white space leaves the words before it as they
/// are, a character that follows another word character extends the last word,
/// and any other character starts a new word.
pub open spec fn split_words(s: Seq<char>) -> Seq<Seq<char>>
    decreases s.len(),
{
    if s.len() == 0 {
        Seq::empty()
    } else {
        let before = s.drop_last();
        let words = split_words(before);
        if is_white_space(s.last()) {
            words
        } else if before.len() > 0 && !is_white_space(before.last()) && words.len() > 0 {
            words.drop_last().push(words.last().push(s.last()))
        } else {
            words.push(seq![s.last()])
        }
    }
}

/// What a raw phrase becomes before training or encoding: composed, lowercased
/// and split into words.
pub open spec fn phrase_words(phrase: Seq<char>) -> Seq<Seq<char>> {
    split_words(lowercase_of(nfc_of(phrase)))
}

/// Every word of `split_words` is non-empty and free of white space, and a
/// sequence that ends in a word character ends in a word.
pub proof fn lemma_split_words_clean(s: Seq<char>)
    ensures
        forall|i: int|
            0 <= i < split_words(s).len() ==> (#[trigger] split_words(s)[i]).len() > 0,
        forall|i: int, k: int|
            0 <= i < split_words(s).len() && 0 <= k < split_words(s)[i].len()
                ==> !is_white_space(#[trigger] split_words(s)[i][k]),
        s.len() > 0 && !is_white_space(s.last()) ==> split_words(s).len() > 0,
    decreases s.len(),
{
    if s.len() > 0 {
        let before = s.drop_last();
        let words = split_words(before);
        let all = split_words(s);
        lemma_split_words_clean(before);
        if !is_white_space(s.last()) {
            assert forall|i: int| 0 <= i < all.len() implies (#[trigger] all[i]).len() > 0 && (
            forall|k: int| 0 <= k < all[i].len() ==> !is_white_space(#[trigger] all[i][k])) by {
                if i < all.len() - 1 {
                    assert(all[i] == words[i]);
                }
            }
        }
    }
}

/// A non-empty sequence without white space is one word.
pub proof fn lemma_split_words_of_word(s: Seq<char>)
    requires
        s.len() > 0,
        forall|k: int| 0 <= k < s.len() ==> !is_white_space(#[trigger] s[k]),
    ensures
        split_words(s) == seq![s],
    decreases s.len(),
{
    let before = s.drop_last();
    if before.len() > 0 {
        assert forall|k: int| 0 <= k < before.len() implies !is_white_space(
            #[trigger] before[k],
        ) by {
            assert(before[k] == s[k]);
        }
        lemma_split_words_of_word(before);
        assert(before.last() == s[before.len() - 1]);
        assert(before.push(s.last()) =~= s);
        assert(seq![before].drop_last().push(s) =~= seq![s]);
    } else {
        assert(seq![s.last()] =~= s);
        assert(split_words(before) =~= Seq::<Seq<char>>::empty());
    }
}

/// White space separates: the words of two sequences joined by a white space
/// character are the words of the first followed by the words of the second.
pub proof fn lemma_split_words_at_white_space(a: Seq<char>, w: char, b: Seq<char>)
    requires
        is_white_space(w),
    ensures
        split_words(a + seq![w] + b) == split_words(a) + split_words(b),
    decreases b.len(),
{
    let s = a + seq![w] + b;
    if b.len() == 0 {
        assert(s.drop_last() =~= a);
        assert(split_words(a) + split_words(b) =~= split_words(a));
    } else {
        let shorter = b.drop_last();
        let c = b.last();
        let before = a + seq![w] + shorter;
        assert(s.drop_last() =~= before);
        assert(s.last() == c);
        lemma_split_words_at_white_space(a, w, shorter);
        lemma_split_words_clean(shorter);
        let left = split_words(a);
        let right = split_words(shorter);
        if is_white_space(c) {
        } else if shorter.len() > 0 && !is_white_space(shorter.last()) {
            assert(before.last() == shorter.last());
            assert((left + right).drop_last() =~= left + right.drop_last());
            assert((left + right).last() == right.last());
            assert((left + right.drop_last()).push(right.last().push(c)) =~= left
                + right.drop_last().push(right.last().push(c)));
        } else {
            if shorter.len() > 0 {
                assert(before.last() == shorter.last());
            } else {
                assert(before.last() == w);
            }
            assert((left + right).push(seq![c]) =~= left + right.push(seq![c]));
        }
    }
}

/// Unicode normalization to form C, then lowercasing.
pub fn normalize(phrase: String) -> (r: String)
    ensures
        r@ == lowercase_of(nfc_of(phrase@)),
{
    let composed = nfc_string(phrase.as_str());
    lowercase_string(composed.as_str())
}

/// Splits a phrase at white space into its words.
pub fn pre_tokenize(phrase: String) -> (words: Vec<String>)
    ensures
        words.deep_view() == split_words(phrase@),
{
    let mut words: Vec<String> = Vec::new();
    let mut current = String::new();
    for c in it: phrase.as_str().chars()
        invariant
            it.seq() == phrase@,
            current@.len() > 0 <==> it.index() > 0 && !is_white_space(phrase@[it.index() - 1]),
            split_words(phrase@.take(it.index() as int)) == if current@.len() > 0 {
                words.deep_view().push(current@)
            } else {
                words.deep_view()
            },
    {
        let ghost i = it.index() as int;
        let ghost before = words.deep_view();
        proof {
            assert(phrase@.take(i + 1).drop_last() =~= phrase@.take(i));
            assert(phrase@.take(i + 1).last() == c);
            if i > 0 {
                assert(phrase@.take(i).last() == phrase@[i - 1]);
            }
        }
        if char_is_whitespace(c) {
            if !current.as_str().is_empty() {
                let ghost word = current@;
                words.push(current);
                current = String::new();
                assert(words.deep_view() =~= before.push(word));
            }
        } else {
            let ghost word = current@;
            push_char(&mut current, c);
            proof {
                if word.len() > 0 {
                    assert(before.push(word).drop_last() =~= before);
                    assert(before.push(word).last() == word);
                } else {
                    assert(current@ =~= seq![c]);
                }
            }
        }
    }
    assert(phrase@.take(phrase@.len() as int) =~= phrase@);
    if !current.as_str().is_empty() {
        let ghost before = words.deep_view();
        words.push(current);
        assert(words.deep_view() =~= before.push(current@));
    }
    words
}

/// Prepares the lines of a corpus for training: each line is normalized and
/// split into its words.
pub fn load_corpus_file(lines: Vec<String>) -> (phrases: Vec<Vec<String>>)
    ensures
        phrases.len() == lines.len(),
        forall|i: int|
            0 <= i < lines.len() ==> (#[trigger] phrases[i]).deep_view() == phrase_words(
                lines[i]@,
            ),
{
    let mut phrases: Vec<Vec<String>> = Vec::new();
    let mut i: usize = 0;
    while i < lines.len()
        invariant
            i <= lines.len(),
            phrases.len() == i,
            forall|j: int|
                0 <= j < i ==> (#[trigger] phrases[j]).deep_view() == phrase_words(lines[j]@),
        decreases lines.len() - i,
    {
        let words = pre_tokenize(normalize(lines[i].clone()));
        phrases.push(words);
        i += 1;
    }
    phrases
}

} // verus!
