use xor_utils::{
    avg_normalized_hamming_distance, score_text, score_words, xor, Fraction, KeyCounter,
};

const PLAINTEXT: &[u8] = b"the quick brown fox jumps over the lazy dog";
const KEY: &[u8] = b"key";

/// Decodes the ciphertext under every three-byte key whose first byte lies in
/// `first_bytes`, and returns how many keys were tried, the best score among
/// them, and the keys that reach it.
fn brute_force(first_bytes: std::ops::Range<u8>) -> (usize, Fraction, Vec<Vec<u8>>) {
    let cipher = xor(PLAINTEXT, KEY).unwrap();
    let mut counter = KeyCounter::new(3);
    let mut tried = 0;
    let mut best = Fraction { num: 0, den: 1 };
    let mut best_keys = Vec::new();
    while let Some(key) = counter.next_key() {
        if key[0] < first_bytes.start {
            continue;
        }
        if key[0] >= first_bytes.end {
            break;
        }
        tried += 1;
        let decoded = xor(&cipher, &key).unwrap();
        let score = score_text(&decoded);
        if best.less_than(&score) {
            best = score;
            best_keys.clear();
        }
        if best.same_value(&score) {
            best_keys.push(key);
        }
    }
    (tried, best, best_keys)
}

#[test]
fn estimator_ranks_the_true_keysize_lowest() {
    let cipher = xor(PLAINTEXT, KEY).unwrap();
    let table = avg_normalized_hamming_distance(&cipher, 6);
    assert_eq!(table.len(), 6);
    assert_eq!(table[&3], Fraction { num: 14, den: 6 });
    for keysize in [1usize, 2, 4, 5, 6] {
        assert!(table[&3].less_than(&table[&keysize]));
    }
}

#[test]
fn no_key_starting_below_32_beats_the_true_key() {
    let (tried, best, _) = brute_force(0..32);
    assert_eq!(tried, 32 * 128 * 128);
    assert!(!score_text(PLAINTEXT).less_than(&best));
}

#[test]
fn no_key_starting_from_32_to_63_beats_the_true_key() {
    let (tried, best, _) = brute_force(32..64);
    assert_eq!(tried, 32 * 128 * 128);
    assert!(!score_text(PLAINTEXT).less_than(&best));
}

#[test]
fn no_key_starting_from_64_to_95_beats_the_true_key() {
    let (tried, best, _) = brute_force(64..96);
    assert_eq!(tried, 32 * 128 * 128);
    assert!(!score_text(PLAINTEXT).less_than(&best));
}

#[test]
fn the_true_key_is_among_the_best_of_the_keys_starting_from_96() {
    let (tried, best, best_keys) = brute_force(96..128);
    assert_eq!(tried, 32 * 128 * 128);
    assert!(best.same_value(&score_text(PLAINTEXT)));
    assert!(best_keys.contains(&KEY.to_vec()));
    // What shares the top place with the true key decodes to the same
    // letters in another case.
    for key in &best_keys {
        let decoded = xor(&xor(PLAINTEXT, KEY).unwrap(), key).unwrap();
        assert_eq!(decoded.to_ascii_lowercase(), PLAINTEXT);
    }
}

#[test]
fn a_dictionary_tells_the_true_decode_from_its_neighbours() {
    let cipher = xor(PLAINTEXT, KEY).unwrap();
    let dictionary: Vec<String> =
        ["quick", "brown", "jumps", "lazy"].iter().map(|word| word.to_string()).collect();

    let decoded = String::from_utf8(xor(&cipher, KEY).unwrap()).unwrap();
    assert_eq!(score_words(&decoded, dictionary.clone()), vec![5, 5, 5, 4]);

    let nearly = String::from_utf8(xor(&cipher, b"kez").unwrap()).unwrap();
    assert!(score_words(&nearly, dictionary).len() < 4);
}
