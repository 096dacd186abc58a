use xor_utils::score::{get_char_score_map, score_character, score_text, to_lowercase};
use xor_utils::{Fraction, Score};

#[test]
fn scoring_strings_works() {
    let a = String::from("hello world");
    let b = String::from("9[;,1.23,45");
    let c = String::from("$*(&^$@!as3");
    let d = String::from("kj12asd89hh");

    let score_a = a.score();
    let score_b = b.score();
    let score_c = c.score();
    let score_d = d.score();

    assert!(score_b.less_than(&score_a));
    assert!(score_c.less_than(&score_a));
    assert!(score_d.less_than(&score_a));

    let value = |score: Fraction| score.num as f32 / score.den as f32;
    assert!(value(score_a) > value(score_b));
    assert!(value(score_a) > value(score_c));
    assert!(value(score_a) > value(score_d));
}

#[test]
fn string_scores_are_exact() {
    assert_eq!(String::from("hello world").score(), Fraction { num: 626208, den: 1100 });
    assert_eq!(String::from("9[;,1.23,45").score(), Fraction { num: 0, den: 1100 });
    assert_eq!(String::from("$*(&^$@!as3").score(), Fraction { num: 26988, den: 1100 });
    assert_eq!(String::from("kj12asd89hh").score(), Fraction { num: 173362, den: 1100 });
}

#[test]
fn string_score_matches_the_formula_in_floats() {
    // Sum over the characters that occur of |expected - observed| * 10,
    // times the share of scored characters.
    let text = "hello world";
    let expected = [
        ('h', 6.094f64, 1.0f64),
        ('e', 12.702, 1.0),
        ('l', 4.025, 3.0),
        ('o', 7.507, 2.0),
        (' ', 15.000, 1.0),
        ('w', 2.360, 1.0),
        ('r', 5.987, 1.0),
        ('d', 4.253, 1.0),
    ];
    let n = 11.0f64;
    let sum: f64 = expected.iter().map(|(_, e, k)| (e - k / n).abs() * 10.0).sum();
    let by_formula = sum * (n / text.len() as f64);
    let score = score_text(text.as_bytes());
    let by_library = score.num as f64 / score.den as f64;
    assert!((by_formula - by_library).abs() < 1e-9);
}

#[test]
fn a_symbol_seen_more_often_than_expected_still_adds_its_distance() {
    // 'z' is expected at 0.074 and observed at 1.0.
    assert_eq!(score_text(b"zz"), Fraction { num: 1852, den: 200 });
}

#[test]
fn case_is_folded_in_texts() {
    assert_eq!(score_text(b"HELLO WORLD"), score_text(b"hello world"));
    assert_eq!(score_text(b"ZZ"), Fraction { num: 1852, den: 200 });
    assert_eq!(to_lowercase(b'A'), b'a');
    assert_eq!(to_lowercase(b'Z'), b'z');
    assert_eq!(to_lowercase(b'@'), b'@');
    assert_eq!(to_lowercase(b'['), b'[');
    assert_eq!(to_lowercase(b'a'), b'a');
    assert_eq!(to_lowercase(0xC9), 0xC9);
}

#[test]
fn unscored_characters_lower_the_score_through_the_proportion() {
    let clean = score_text(b"zz");
    let noisy = score_text(b"zz!!");
    assert_eq!(noisy, Fraction { num: 1852, den: 400 });
    assert!(noisy.less_than(&clean));
}

#[test]
fn length_is_counted_in_bytes() {
    // 'é' takes two bytes, neither of them scored.
    assert_eq!(String::from("zé").score(), Fraction { num: 926, den: 300 });
}

#[test]
fn empty_and_unrecognized_texts_score_zero() {
    assert_eq!(String::new().score(), Fraction { num: 0, den: 1 });
    assert_eq!(score_text(b""), Fraction { num: 0, den: 1 });
    assert_eq!(score_text(b"12345"), Fraction { num: 0, den: 500 });
    assert_eq!(score_text(&[0xFF, 0x00, 0x80]), Fraction { num: 0, den: 300 });
}

#[test]
fn a_pangram_reaches_the_highest_score_there_is() {
    // Every symbol of the table occurs, none more often than expected, and
    // every byte is scored: 114999 * n - 1000 * n over 100 * n.
    let text = b"the quick brown fox jumps over the lazy dog";
    let n = text.len() as u128;
    assert_eq!(score_text(text), Fraction { num: 113999 * n, den: 100 * n });
}

#[test]
fn characters_score_their_reference_frequency() {
    assert_eq!('e'.score(), Fraction { num: 12702, den: 1000 });
    assert_eq!(' '.score(), Fraction { num: 15000, den: 1000 });
    assert_eq!('z'.score(), Fraction { num: 74, den: 1000 });
    assert_eq!(score_character('t'), Fraction { num: 9056, den: 1000 });
    // Outside the table: capitals, digits, anything beyond ASCII.
    assert_eq!('E'.score(), Fraction { num: 0, den: 1000 });
    assert_eq!('7'.score(), Fraction { num: 0, den: 1000 });
    assert_eq!('é'.score(), Fraction { num: 0, den: 1000 });
    assert_eq!('\u{165}'.score(), Fraction { num: 0, den: 1000 });
}

#[test]
fn reference_table_holds_27_symbols_summing_to_about_100() {
    let table = get_char_score_map();
    assert_eq!(table.len(), 27);
    assert!(table.contains_key(&b' '));
    for letter in b'a'..=b'z' {
        assert!(table.contains_key(&letter));
    }
    let letters: u32 = (b'a'..=b'z').map(|letter| table[&letter]).sum();
    assert_eq!(letters, 99_999);
    assert_eq!(table[&b' '], 15_000);
    assert_eq!(table[&b'e'], 12_702);
    assert_eq!(table[&b'q'], 95);
}
