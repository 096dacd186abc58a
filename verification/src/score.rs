//! How much a decoded byte sequence looks like English text, judged by its
//! letter frequencies. Scores only rank candidates against each other; the
//! figure itself has no meaning outside such a comparison.

use crate::fraction::Fraction;
use std::collections::HashMap;
use vstd::prelude::*;
use vstd::utf8::encode_utf8;

verus! {

/// The character frequency reference: for each lowercase letter and for the
/// space, its expected frequency in English text, in thousandths of a percent.
/// The figure for the space is an estimate.
pub open spec fn char_score_table() -> Map<u8, u32> {
    map![
        (' ' as u8) => 15000u32,
        ('e' as u8) => 12702u32,
        ('t' as u8) => 9056u32,
        ('a' as u8) => 8167u32,
        ('o' as u8) => 7507u32,
        ('i' as u8) => 6966u32,
        ('n' as u8) => 6749u32,
        ('s' as u8) => 6327u32,
        ('h' as u8) => 6094u32,
        ('r' as u8) => 5987u32,
        ('d' as u8) => 4253u32,
        ('l' as u8) => 4025u32,
        ('c' as u8) => 2782u32,
        ('u' as u8) => 2758u32,
        ('m' as u8) => 2406u32,
        ('w' as u8) => 2360u32,
        ('f' as u8) => 2228u32,
        ('g' as u8) => 2015u32,
        ('y' as u8) => 1974u32,
        ('p' as u8) => 1929u32,
        ('b' as u8) => 1492u32,
        ('v' as u8) => 978u32,
        ('k' as u8) => 772u32,
        ('j' as u8) => 153u32,
        ('x' as u8) => 150u32,
        ('q' as u8) => 95u32,
        ('z' as u8) => 74u32,
    ]
}

/// The largest entry of the reference table.
pub const MAX_FREQUENCY: u32 = 15000;

/// The unit of the reference table: its entries count thousandths.
pub const FREQUENCY_SCALE: u32 = 1000;

/// The expected frequency of `symbol` in thousandths, 0 for a symbol that the
/// reference table does not hold.
pub open spec fn expected_frequency(symbol: u8) -> nat {
    if char_score_table().contains_key(symbol) {
        char_score_table()[symbol] as nat
    } else {
        0
    }
}

/// The reference table holds lowercase letters and the space, and no entry is
/// above [`MAX_FREQUENCY`].
pub proof fn lemma_table_bounds(symbol: u8)
    ensures
        expected_frequency(symbol) <= MAX_FREQUENCY,
        char_score_table().contains_key(symbol) <==> symbol == (' ' as u8) || (('a' as u8) <= symbol <= ('z' as u8)),
        char_score_table().contains_key(symbol) ==> expected_frequency(symbol) > 0,
{
}

/// Builds the character frequency reference.
pub fn get_char_score_map() -> (character_scores: HashMap<u8, u32>)
    ensures
        character_scores@ == char_score_table(),
{
    let mut character_scores: HashMap<u8, u32> = HashMap::new();
    character_scores.insert((' ' as u8), 15000);
    character_scores.insert(('e' as u8), 12702);
    character_scores.insert(('t' as u8), 9056);
    character_scores.insert(('a' as u8), 8167);
    character_scores.insert(('o' as u8), 7507);
    character_scores.insert(('i' as u8), 6966);
    character_scores.insert(('n' as u8), 6749);
    character_scores.insert(('s' as u8), 6327);
    character_scores.insert(('h' as u8), 6094);
    character_scores.insert(('r' as u8), 5987);
    character_scores.insert(('d' as u8), 4253);
    character_scores.insert(('l' as u8), 4025);
    character_scores.insert(('c' as u8), 2782);
    character_scores.insert(('u' as u8), 2758);
    character_scores.insert(('m' as u8), 2406);
    character_scores.insert(('w' as u8), 2360);
    character_scores.insert(('f' as u8), 2228);
    character_scores.insert(('g' as u8), 2015);
    character_scores.insert(('y' as u8), 1974);
    character_scores.insert(('p' as u8), 1929);
    character_scores.insert(('b' as u8), 1492);
    character_scores.insert(('v' as u8), 978);
    character_scores.insert(('k' as u8), 772);
    character_scores.insert(('j' as u8), 153);
    character_scores.insert(('x' as u8), 150);
    character_scores.insert(('q' as u8), 95);
    character_scores.insert(('z' as u8), 74);
    character_scores
}

/// The score of a single character: its expected frequency as a fraction of
/// [`FREQUENCY_SCALE`], zero for a character outside the reference table.
/// Upper case is not folded here: `'E'` scores zero.
pub open spec fn is_character_score(score: Fraction, c: char) -> bool {
    &&& score.den == FREQUENCY_SCALE
    &&& score.num == if (c as u32) < 128 {
        expected_frequency(c as u8)
    } else {
        0
    }
}

/// Scores one character against the reference table.
pub fn score_character(c: char) -> (score: Fraction)
    ensures
        is_character_score(score, c),
{
    let character_scores = get_char_score_map();
    let code = c as u32;
    let value: u32 = if code < 128 {
        match character_scores.get(&(code as u8)) {
            Some(value) => *value,
            None => 0,
        }
    } else {
        0
    };
    Fraction { num: value as u128, den: FREQUENCY_SCALE as u128 }
}

/// The lowercase form of an ASCII capital; any other byte is left as it is.
pub open spec fn fold_case(b: u8) -> u8 {
    if ('A' as u8) <= b <= ('Z' as u8) {
        (b + 32) as u8
    } else {
        b
    }
}

/// Whether a byte of the text counts towards the score: its lowercase form
/// stands in the reference table.
pub open spec fn is_scored(b: u8) -> bool {
    char_score_table().contains_key(fold_case(b))
}

/// How many bytes of `text` count towards the score.
pub open spec fn scored_count(text: Seq<u8>) -> nat
    decreases text.len(),
{
    if text.len() == 0 {
        0
    } else {
        scored_count(text.drop_last()) + if is_scored(text.last()) {
            1nat
        } else {
            0nat
        }
    }
}

/// How many bytes of `text` are `symbol` once case is folded.
pub open spec fn occurrences(text: Seq<u8>, symbol: u8) -> nat
    decreases text.len(),
{
    if text.len() == 0 {
        0
    } else {
        occurrences(text.drop_last(), symbol) + if fold_case(text.last()) == symbol {
            1nat
        } else {
            0nat
        }
    }
}

/// What one symbol adds to the score of `text`, in units of
/// `1 / (FREQUENCY_SCALE * scored_count(text))`: the distance between its
/// expected frequency and the share it has among the scored bytes. A symbol
/// that does not occur, or that the table does not hold, adds nothing.
pub open spec fn symbol_discrepancy(text: Seq<u8>, symbol: u8) -> nat {
    let seen = occurrences(text, symbol);
    if char_score_table().contains_key(symbol) && seen > 0 {
        vstd::math::abs(expected_frequency(symbol) * scored_count(text) - FREQUENCY_SCALE * seen)
    } else {
        0
    }
}

/// The sum of [`symbol_discrepancy`] over the symbols below `limit`.
pub open spec fn discrepancy_below(text: Seq<u8>, limit: nat) -> nat
    decreases limit,
{
    if limit == 0 {
        0
    } else {
        discrepancy_below(text, (limit - 1) as nat) + symbol_discrepancy(
            text,
            (limit - 1) as u8,
        )
    }
}

/// Whether `score` is the character-frequency score of `text`.
///
/// With `n` the number of scored bytes and `k(c)` the occurrences of symbol
/// `c`, the score is the sum over the symbols that occur of
/// `|expected(c) - k(c) / n| * 10`, times `n / text.len()`. Over integers
/// that is the sum of `|expected(c) * n - 1000 * k(c)|` with the table in
/// thousandths, over `100 * text.len()`. An empty text scores zero.
pub open spec fn is_text_score(score: Fraction, text: Seq<u8>) -> bool {
    if text.len() == 0 {
        score.num == 0 && score.den == 1
    } else {
        score.num == discrepancy_below(text, 256) && score.den == 100 * text.len()
    }
}

/// No symbol occurs more often than the text has bytes, nor are more bytes
/// scored.
pub proof fn lemma_counts_bound(text: Seq<u8>, symbol: u8)
    ensures
        occurrences(text, symbol) <= text.len(),
        scored_count(text) <= text.len(),
        char_score_table().contains_key(symbol) ==> occurrences(text, symbol) <= scored_count(
            text,
        ),
    decreases text.len(),
{
    if text.len() > 0 {
        lemma_counts_bound(text.drop_last(), symbol);
    }
}

/// A text without a single letter or space scores zero, whatever else it
/// holds.
pub proof fn lemma_unrecognized_text_scores_zero(text: Seq<u8>, limit: nat)
    requires
        scored_count(text) == 0,
    ensures
        discrepancy_below(text, limit) == 0,
    decreases limit,
{
    if limit > 0 {
        lemma_unrecognized_text_scores_zero(text, (limit - 1) as nat);
        lemma_counts_bound(text, (limit - 1) as u8);
    }
}

/// Upper case and lower case score alike: a text and its lowercase form have
/// the same counts, and so the same score.
pub proof fn lemma_case_does_not_matter(text: Seq<u8>, folded: Seq<u8>, symbol: u8)
    requires
        folded.len() == text.len(),
        forall|i: int| 0 <= i < text.len() ==> folded[i] == fold_case(text[i]),
    ensures
        scored_count(folded) == scored_count(text),
        occurrences(folded, symbol) == occurrences(text, symbol),
        symbol_discrepancy(folded, symbol) == symbol_discrepancy(text, symbol),
    decreases text.len(),
{
    if text.len() > 0 {
        lemma_case_does_not_matter(text.drop_last(), folded.drop_last(), symbol);
    }
}

/// One symbol adds at most [`MAX_FREQUENCY`] for each byte of the text.
proof fn lemma_symbol_discrepancy_bound(text: Seq<u8>, symbol: u8)
    ensures
        symbol_discrepancy(text, symbol) <= MAX_FREQUENCY * text.len(),
{
    lemma_counts_bound(text, symbol);
    lemma_table_bounds(symbol);
    let expected = expected_frequency(symbol);
    let scored = scored_count(text);
    let seen = occurrences(text, symbol);
    let len = text.len();
    assert(expected * scored <= 15000 * len && 1000 * seen <= 15000 * len) by (nonlinear_arith)
        requires
            expected <= 15000,
            scored <= len,
            seen <= len,
    ;
}

/// Folds an ASCII capital to lowercase.
pub fn to_lowercase(b: u8) -> (folded: u8)
    ensures
        folded == fold_case(b),
{
    if b >= 65 && b <= 90 {
        b + 32
    } else {
        b
    }
}

/// The character-frequency score of `text`: how far the letters and spaces in
/// it are from the reference frequencies, weighted by the share of the text
/// that they make up.
pub fn score_text(text: &[u8]) -> (score: Fraction)
    ensures
        is_text_score(score, text@),
        score.den > 0,
{
    let len = text.len();
    if len == 0 {
        return Fraction { num: 0, den: 1 };
    }
    let expected_char_frequency = get_char_score_map();
    let mut actual_char_frequency: HashMap<u8, usize> = HashMap::new();
    let mut scored: usize = 0;
    let mut i: usize = 0;
    while i < len
        invariant
            len == text@.len(),
            i <= len,
            expected_char_frequency@ == char_score_table(),
            scored == scored_count(text@.take(i as int)),
            forall|symbol: u8| #[trigger]
                actual_char_frequency@.contains_key(symbol) <==> char_score_table().contains_key(
                    symbol,
                ) && occurrences(text@.take(i as int), symbol) > 0,
            forall|symbol: u8| #[trigger]
                actual_char_frequency@.contains_key(symbol) ==> actual_char_frequency@[symbol]
                    == occurrences(text@.take(i as int), symbol),
        decreases len - i,
    {
        let symbol = to_lowercase(text[i]);
        proof {
            assert(text@.take(i + 1).drop_last() =~= text@.take(i as int));
            lemma_counts_bound(text@.take(i as int), symbol);
        }
        if expected_char_frequency.contains_key(&symbol) {
            let seen = match actual_char_frequency.get(&symbol) {
                Some(count) => *count,
                None => 0,
            };
            actual_char_frequency.insert(symbol, seen + 1);
            scored = scored + 1;
        }
        i = i + 1;
    }
    proof {
        assert(text@.take(len as int) =~= text@);
    }
    let mut sum: u128 = 0;
    let mut next: usize = 0;
    while next < 256
        invariant
            len == text@.len(),
            next <= 256,
            expected_char_frequency@ == char_score_table(),
            scored == scored_count(text@),
            forall|symbol: u8| #[trigger]
                actual_char_frequency@.contains_key(symbol) <==> char_score_table().contains_key(
                    symbol,
                ) && occurrences(text@, symbol) > 0,
            forall|symbol: u8| #[trigger]
                actual_char_frequency@.contains_key(symbol) ==> actual_char_frequency@[symbol]
                    == occurrences(text@, symbol),
            sum == discrepancy_below(text@, next as nat),
            sum <= next * (MAX_FREQUENCY * len),
        decreases 256 - next,
    {
        let symbol = next as u8;
        proof {
            lemma_symbol_discrepancy_bound(text@, symbol);
            lemma_counts_bound(text@, symbol);
            lemma_table_bounds(symbol);
            assert((next + 1) * (MAX_FREQUENCY * len) == next * (MAX_FREQUENCY * len)
                + MAX_FREQUENCY * len) by (nonlinear_arith);
            assert(next * (MAX_FREQUENCY * len) <= 255 * (15000 * 0xffff_ffff_ffff_ffff))
                by (nonlinear_arith)
                requires
                    next <= 255,
                    len <= 0xffff_ffff_ffff_ffff,
            ;
        }
        match actual_char_frequency.get(&symbol) {
            Some(seen) => {
                let expected = match expected_char_frequency.get(&symbol) {
                    Some(expected) => *expected,
                    None => 0,
                };
                proof {
                    assert(expected * scored <= 15000 * 0xffff_ffff_ffff_ffff) by (nonlinear_arith)
                        requires
                            expected <= 15000,
                            scored <= 0xffff_ffff_ffff_ffff,
                    ;
                }
                let want: u128 = (expected as u128) * (scored as u128);
                let have: u128 = (FREQUENCY_SCALE as u128) * (*seen as u128);
                let diff = if want >= have {
                    want - have
                } else {
                    have - want
                };
                sum = sum + diff;
            },
            None => {},
        }
        next = next + 1;
    }
    Fraction { num: sum, den: 100 * (len as u128) }
}

/// Things that can be scored for how likely they are to belong to text.
pub trait Score {
    /// Whether `score` is the score of this item.
    spec fn is_score(&self, score: Fraction) -> bool;

    /// Calculates a relative score for the item; it serves to rank items
    /// against each other.
    fn score(&self) -> (score: Fraction)
        ensures
            self.is_score(score),
            score.den > 0,
    ;
}

impl Score for char {
    open spec fn is_score(&self, score: Fraction) -> bool {
        is_character_score(score, *self)
    }

    fn score(&self) -> (score: Fraction) {
        score_character(*self)
    }
}

impl Score for String {
    open spec fn is_score(&self, score: Fraction) -> bool {
        is_text_score(score, encode_utf8(self@))
    }

    fn score(&self) -> (score: Fraction) {
        score_text(self.as_str().as_bytes())
    }
}

} // verus!
