//! The dictionary side of scoring: which words of a word list occur in a
//! text. Each word found is taken out of a working copy of the text before
//! the next word is tried, so one stretch of text never counts for two
//! entries. Word lists are expected longest word first, so that a long word
//! is found before the shorter words inside it.

use crate::fraction::Fraction;
use crate::score::{is_text_score, score_text};
use vstd::prelude::*;
use vstd::slice::slice_subrange;
use vstd::utf8::encode_utf8;

verus! {

/// Whether `word` stands in `text` at byte offset `at`.
pub open spec fn occurs_at(text: Seq<u8>, word: Seq<u8>, at: int) -> bool {
    0 <= at && at + word.len() <= text.len() && text.subrange(at, at + word.len()) == word
}

/// Whether `word` stands somewhere in `text`. The empty word stands in every
/// text.
pub open spec fn occurs(text: Seq<u8>, word: Seq<u8>) -> bool {
    exists|at: int| occurs_at(text, word, at)
}

/// Whether `at` is the first offset at which `word` stands in `text`.
pub open spec fn is_first_occurrence(text: Seq<u8>, word: Seq<u8>, at: int) -> bool {
    occurs_at(text, word, at) && forall|earlier: int|
        0 <= earlier < at ==> !occurs_at(text, word, earlier)
}

/// The first offset at which `word` stands in `text`, where it occurs at all.
pub open spec fn first_occurrence(text: Seq<u8>, word: Seq<u8>) -> int
    recommends
        occurs(text, word),
{
    choose|at: int| is_first_occurrence(text, word, at)
}

/// `text` with the `len` bytes from offset `at` taken out.
pub open spec fn cut_out(text: Seq<u8>, at: int, len: int) -> Seq<u8> {
    text.subrange(0, at) + text.subrange(at + len, text.len() as int)
}

/// `text` without the first occurrence of `word`; `text` itself where the
/// word does not occur.
pub open spec fn without_first(text: Seq<u8>, word: Seq<u8>) -> Seq<u8> {
    if occurs(text, word) {
        cut_out(text, first_occurrence(text, word), word.len() as int)
    } else {
        text
    }
}

/// The working copy of `text` after the first `tried` words of `dictionary`
/// have been looked for, each one found taken out once.
pub open spec fn remaining_text(text: Seq<u8>, dictionary: Seq<Seq<u8>>, tried: nat) -> Seq<u8>
    decreases tried,
{
    if tried == 0 {
        text
    } else {
        without_first(remaining_text(text, dictionary, (tried - 1) as nat), dictionary[tried - 1])
    }
}

/// The lengths of those among the first `tried` words of `dictionary` that
/// were found, in the order of the word list.
pub open spec fn matched_lengths(text: Seq<u8>, dictionary: Seq<Seq<u8>>, tried: nat) -> Seq<nat>
    decreases tried,
{
    if tried == 0 {
        Seq::empty()
    } else {
        let before = matched_lengths(text, dictionary, (tried - 1) as nat);
        let word = dictionary[tried - 1];
        if occurs(remaining_text(text, dictionary, (tried - 1) as nat), word) {
            before.push(word.len())
        } else {
            before
        }
    }
}

/// The UTF-8 bytes of each word of a word list.
pub open spec fn word_bytes(dictionary: Seq<String>) -> Seq<Seq<u8>> {
    Seq::new(dictionary.len(), |i: int| encode_utf8(dictionary[i]@))
}

/// The sum of the numbers in `lengths`.
pub open spec fn total(lengths: Seq<nat>) -> nat
    decreases lengths.len(),
{
    if lengths.len() == 0 {
        0
    } else {
        total(lengths.drop_last()) + lengths.last()
    }
}

/// No stretch of text counts twice: the words found and the text left over
/// add up to the text, and no more words are found than were tried.
pub proof fn lemma_matches_use_up_text(text: Seq<u8>, dictionary: Seq<Seq<u8>>, tried: nat)
    requires
        tried <= dictionary.len(),
    ensures
        total(matched_lengths(text, dictionary, tried)) + remaining_text(
            text,
            dictionary,
            tried,
        ).len() == text.len(),
        matched_lengths(text, dictionary, tried).len() <= tried,
    decreases tried,
{
    if tried > 0 {
        lemma_matches_use_up_text(text, dictionary, (tried - 1) as nat);
        let before = matched_lengths(text, dictionary, (tried - 1) as nat);
        let left = remaining_text(text, dictionary, (tried - 1) as nat);
        let word = dictionary[tried - 1];
        if occurs(left, word) {
            let at = first_occurrence(left, word);
            let witness = choose|at: int| occurs_at(left, word, at);
            lemma_first_occurrence_exists(left, word, witness);
            assert(is_first_occurrence(left, word, at));
            assert(before.push(word.len()).drop_last() =~= before);
        }
    }
}

/// A word that occurs has a first occurrence.
proof fn lemma_first_occurrence_exists(text: Seq<u8>, word: Seq<u8>, at: int)
    requires
        occurs_at(text, word, at),
    ensures
        exists|first: int| is_first_occurrence(text, word, first),
    decreases at,
{
    if exists|earlier: int| 0 <= earlier < at && occurs_at(text, word, earlier) {
        let earlier = choose|earlier: int| 0 <= earlier < at && occurs_at(text, word, earlier);
        lemma_first_occurrence_exists(text, word, earlier);
    } else {
        assert(is_first_occurrence(text, word, at));
    }
}

/// There is only one first occurrence.
pub proof fn lemma_first_occurrence_unique(text: Seq<u8>, word: Seq<u8>, at: int)
    requires
        is_first_occurrence(text, word, at),
    ensures
        occurs(text, word),
        first_occurrence(text, word) == at,
{
    let chosen = first_occurrence(text, word);
    assert(is_first_occurrence(text, word, chosen));
    if chosen < at {
        assert(!occurs_at(text, word, chosen));
    } else if at < chosen {
        assert(!occurs_at(text, word, at));
    }
}

/// Whether `word` stands in `text` at offset `at`.
fn stands_at(text: &[u8], word: &[u8], at: usize) -> (found: bool)
    requires
        at + word@.len() <= text@.len(),
    ensures
        found == occurs_at(text@, word@, at as int),
{
    let text_len = text.len();
    let mut i: usize = 0;
    while i < word.len()
        invariant
            i <= word@.len(),
            text_len == text@.len(),
            at + word@.len() <= text@.len(),
            forall|j: int| 0 <= j < i ==> text@[at + j] == word@[j],
        decreases word@.len() - i,
    {
        if text[at + i] != word[i] {
            proof {
                assert(text@.subrange(at as int, at + word@.len())[i as int] == text@[at + i]);
            }
            return false;
        }
        i = i + 1;
    }
    proof {
        assert(text@.subrange(at as int, at + word@.len()) =~= word@);
    }
    true
}

/// The first offset at which `word` stands in `text`, if it stands there at
/// all.
pub fn find_first(text: &[u8], word: &[u8]) -> (found: Option<usize>)
    ensures
        found is Some <==> occurs(text@, word@),
        found matches Some(at) ==> is_first_occurrence(text@, word@, at as int)
            && first_occurrence(text@, word@) == at,
{
    if word.len() > text.len() {
        assert forall|at: int| !occurs_at(text@, word@, at) by {}
        return None;
    }
    if word.len() == 0 {
        // The empty word stands at the start of every text.
        proof {
            assert(text@.subrange(0, 0) =~= word@);
            lemma_first_occurrence_unique(text@, word@, 0);
        }
        return Some(0);
    }
    let last = text.len() - word.len();
    let mut at: usize = 0;
    while at <= last
        invariant
            last == text@.len() - word@.len(),
            last < usize::MAX,
            at <= last + 1,
            forall|earlier: int| 0 <= earlier < at ==> !occurs_at(text@, word@, earlier),
        decreases last + 1 - at,
    {
        if stands_at(text, word, at) {
            proof {
                lemma_first_occurrence_unique(text@, word@, at as int);
            }
            return Some(at);
        }
        at = at + 1;
    }
    None
}

/// A copy of `text` without the `len` bytes from offset `at`.
fn remove_range(text: &[u8], at: usize, len: usize) -> (rest: Vec<u8>)
    requires
        at + len <= text@.len(),
    ensures
        rest@ == cut_out(text@, at as int, len as int),
{
    let text_len = text.len();
    let mut rest = vstd::slice::slice_to_vec(slice_subrange(text, 0, at));
    let tail = slice_subrange(text, at + len, text_len);
    let mut i: usize = 0;
    while i < tail.len()
        invariant
            i <= tail@.len(),
            rest@ == text@.subrange(0, at as int) + tail@.take(i as int),
        decreases tail@.len() - i,
    {
        rest.push(tail[i]);
        proof {
            assert(tail@.take(i + 1) =~= tail@.take(i as int).push(tail@[i as int]));
        }
        i = i + 1;
    }
    proof {
        assert(tail@.take(i as int) =~= tail@);
    }
    rest
}

/// Looks for each word of `dictionary` in `text`, in the order of the list,
/// and gives the byte lengths of the words found. A word that is found is
/// taken out of the working copy once, at its first occurrence, before the
/// next word is tried.
pub fn match_words(text: &[u8], dictionary: &Vec<String>) -> (lengths: Vec<usize>)
    ensures
        lengths@.len() == matched_lengths(
            text@,
            word_bytes(dictionary@),
            dictionary@.len(),
        ).len(),
        forall|i: int|
            0 <= i < lengths@.len() ==> lengths@[i] == matched_lengths(
                text@,
                word_bytes(dictionary@),
                dictionary@.len(),
            )[i],
{
    let ghost words = word_bytes(dictionary@);
    let mut lengths: Vec<usize> = Vec::new();
    let mut working = vstd::slice::slice_to_vec(text);
    let mut tried: usize = 0;
    while tried < dictionary.len()
        invariant
            tried <= dictionary@.len(),
            words == word_bytes(dictionary@),
            working@ == remaining_text(text@, words, tried as nat),
            lengths@.len() == matched_lengths(text@, words, tried as nat).len(),
            forall|i: int|
                0 <= i < lengths@.len() ==> lengths@[i] == matched_lengths(
                    text@,
                    words,
                    tried as nat,
                )[i],
        decreases dictionary@.len() - tried,
    {
        let word = dictionary[tried].as_str().as_bytes();
        assert(word@ == words[tried as int]);
        match find_first(working.as_slice(), word) {
            Some(at) => {
                lengths.push(word.len());
                working = remove_range(working.as_slice(), at, word.len());
            },
            None => {},
        }
        tried = tried + 1;
    }
    lengths
}

/// The dictionary-word matches of `words`: the byte lengths of the words of
/// `dictionary` found in it, as [`match_words`] finds them. Each match of a
/// word of length `n` is worth `3 * e^n` to a caller that sums a bonus.
pub fn score_words(words: &String, dictionary: Vec<String>) -> (lengths: Vec<usize>)
    ensures
        lengths@.len() == matched_lengths(
            encode_utf8(words@),
            word_bytes(dictionary@),
            dictionary@.len(),
        ).len(),
        forall|i: int|
            0 <= i < lengths@.len() ==> lengths@[i] == matched_lengths(
                encode_utf8(words@),
                word_bytes(dictionary@),
                dictionary@.len(),
            )[i],
{
    match_words(words.as_str().as_bytes(), &dictionary)
}

/// The factor of the dictionary bonus: a word of `n` bytes that is found is
/// worth this many times `e^n`.
pub const WORD_BONUS_FACTOR: u32 = 3;

/// The two parts of a score against a dictionary. Its worth is
/// `discrepancy + sum of WORD_BONUS_FACTOR * e^n` over the lengths `n` in
/// `word_lengths`; the exponential weight lets long words dominate. The sum
/// is not a rational number, so the parts are handed out as they are.
///
/// The two parts pull in different directions by design of the heuristic:
/// the figure only ranks candidates scored against the same word list.
#[derive(Debug)]
pub struct CombinedScore {
    /// The character-frequency score of the text.
    pub discrepancy: Fraction,
    /// The byte lengths of the dictionary words found in the text.
    pub word_lengths: Vec<usize>,
}

/// Things that can be scored with the help of a word list.
pub trait ScoreAgainstDictionary {
    /// Whether `score` is the score of this item against `words_list`.
    spec fn is_score_with_words(&self, words_list: Seq<String>, score: CombinedScore) -> bool;

    /// Calculates a relative score for the item; every word of the list that
    /// the item contains raises it.
    fn score_with_words(&self, words_list: Vec<String>) -> (score: CombinedScore)
        ensures
            self.is_score_with_words(words_list@, score),
    ;
}

impl ScoreAgainstDictionary for String {
    open spec fn is_score_with_words(&self, words_list: Seq<String>, score: CombinedScore) -> bool {
        let matched = matched_lengths(
            encode_utf8(self@),
            word_bytes(words_list),
            words_list.len(),
        );
        &&& is_text_score(score.discrepancy, encode_utf8(self@))
        &&& score.discrepancy.den > 0
        &&& score.word_lengths@.len() == matched.len()
        &&& forall|i: int| 0 <= i < matched.len() ==> score.word_lengths@[i] == matched[i]
    }

    fn score_with_words(&self, words_list: Vec<String>) -> (score: CombinedScore) {
        let discrepancy = score_text(self.as_str().as_bytes());
        let word_lengths = score_words(self, words_list);
        CombinedScore { discrepancy, word_lengths }
    }
}

} // verus!
