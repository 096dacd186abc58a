//! A small toolkit for analysing and breaking repeated-key XOR ciphers.
//!
//! The pieces work together: [`avg_normalized_hamming_distance`] narrows the
//! plausible key lengths, [`gen_ascii_keys`] or a [`KeyCounter`] lists the
//! candidate keys of such a length, [`xor`] decodes the ciphertext under each
//! candidate, and the scorers ([`Score`], [`ScoreAgainstDictionary`]) rank
//! what comes out.
//!
//! Every number the library hands out is exact: distances and scores are
//! integers or fractions of integers, and a caller that wants a float divides
//! them itself.

pub mod distance;
pub mod fraction;
pub mod keys;
pub mod score;
pub mod transform;
pub mod wordlist;
pub mod words;

pub use distance::{
    avg_normalized_hamming_distance, avg_normalized_hamming_distance_sampled, hamming_distance,
    keysize_distance, SAMPLE_PAIRS,
};
pub use fraction::Fraction;
pub use keys::{gen_ascii_keys, key_space_size, recursive_add_keys, KeyCounter, ALPHABET_SIZE};
pub use score::{get_char_score_map, score_character, score_text, Score};
pub use transform::{xor, xor_noting_reuse, Xor, XorError, XorStream};
pub use wordlist::{find_line_end, lowercase_lines, parse_words_list, sort_longest_first};
pub use words::{
    find_first, match_words, score_words, CombinedScore, ScoreAgainstDictionary,
    WORD_BONUS_FACTOR,
};
