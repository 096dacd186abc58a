use xor_utils::words::{find_first, match_words, score_words, WORD_BONUS_FACTOR};
use xor_utils::{Fraction, ScoreAgainstDictionary};

fn list(words: &[&str]) -> Vec<String> {
    words.iter().map(|word| word.to_string()).collect()
}

#[test]
fn a_word_is_counted_once_however_often_it_occurs() {
    let lengths = score_words(&String::from("cat cat"), list(&["cat"]));
    assert_eq!(lengths, vec![3]);
}

#[test]
fn a_word_listed_twice_can_match_twice() {
    assert_eq!(score_words(&String::from("cat cat"), list(&["cat", "cat"])), vec![3, 3]);
    assert_eq!(score_words(&String::from("cat"), list(&["cat", "cat"])), vec![3]);
}

#[test]
fn a_match_is_taken_out_before_the_next_word_is_tried() {
    // Longest first: the long word uses up the text.
    assert_eq!(
        score_words(&String::from("catalog"), list(&["catalog", "cat", "log"])),
        vec![7]
    );
    // Shortest first: the short words shadow the long one.
    assert_eq!(
        score_words(&String::from("catalog"), list(&["cat", "log", "catalog"])),
        vec![3, 3]
    );
}

#[test]
fn taking_a_word_out_joins_what_stood_around_it() {
    // "cacatt" without its first "cat" is "cat".
    assert_eq!(score_words(&String::from("cacatt"), list(&["cat", "cat"])), vec![3, 3]);
}

#[test]
fn the_first_occurrence_is_the_one_taken_out() {
    // Without the first "ab", "abxab" is "xab": "xa" is found. Without the
    // second it would be "abx".
    assert_eq!(score_words(&String::from("abxab"), list(&["ab", "xa"])), vec![2, 2]);
    assert_eq!(score_words(&String::from("abxab"), list(&["ab", "bx"])), vec![2]);
}

#[test]
fn words_that_do_not_occur_add_nothing() {
    assert_eq!(score_words(&String::from("hello world"), list(&["cat", "dog"])), Vec::<usize>::new());
    assert_eq!(score_words(&String::from("hello"), Vec::new()), Vec::<usize>::new());
    assert_eq!(score_words(&String::new(), list(&["a"])), Vec::<usize>::new());
    assert_eq!(score_words(&String::from("ca"), list(&["cat"])), Vec::<usize>::new());
}

#[test]
fn the_empty_word_is_found_everywhere() {
    assert_eq!(score_words(&String::from("abc"), list(&["", "abc"])), vec![0, 3]);
    assert_eq!(score_words(&String::new(), list(&[""])), vec![0]);
}

#[test]
fn word_lengths_are_counted_in_bytes() {
    assert_eq!(score_words(&String::from("un café noir"), list(&["café"])), vec![5]);
}

#[test]
fn match_words_works_on_bytes_that_are_no_text() {
    let text = [0xFFu8, b'k', b'e', b'y', 0x80];
    assert_eq!(match_words(&text, &list(&["key", "ke"])), vec![3]);
}

#[test]
fn find_first_gives_the_smallest_offset() {
    assert_eq!(find_first(b"abcabc", b"bc"), Some(1));
    assert_eq!(find_first(b"abcabc", b"abc"), Some(0));
    assert_eq!(find_first(b"abcabc", b"cab"), Some(2));
    assert_eq!(find_first(b"abcabc", b"abcabc"), Some(0));
    assert_eq!(find_first(b"abcabc", b"abcabcd"), None);
    assert_eq!(find_first(b"abcabc", b"x"), None);
    assert_eq!(find_first(b"aaab", b"aab"), Some(1));
    assert_eq!(find_first(b"abc", b""), Some(0));
    assert_eq!(find_first(b"", b""), Some(0));
    assert_eq!(find_first(b"", b"a"), None);
    assert_eq!(find_first(b"xyz", b"z"), Some(2));
}

#[test]
fn scoring_against_a_dictionary_gives_both_parts() {
    let text = String::from("hello world");
    let score = text.score_with_words(list(&["world", "hello", "low", "o w"]));
    assert_eq!(score.discrepancy, Fraction { num: 626208, den: 1100 });
    // "world" and "hello" are taken out, " " is left.
    assert_eq!(score.word_lengths, vec![5, 5]);
    assert_eq!(WORD_BONUS_FACTOR, 3);

    let bonus: f64 = score
        .word_lengths
        .iter()
        .map(|&n| WORD_BONUS_FACTOR as f64 * (n as f64).exp())
        .sum();
    let combined = score.discrepancy.num as f64 / score.discrepancy.den as f64 + bonus;
    assert!((combined - (569.28 + 6.0 * 5.0f64.exp())).abs() < 1e-6);
}

#[test]
fn an_empty_word_list_leaves_the_character_score() {
    let score = String::from("hello world").score_with_words(Vec::new());
    assert_eq!(score.discrepancy, Fraction { num: 626208, den: 1100 });
    assert!(score.word_lengths.is_empty());
}
