use std::collections::HashSet;
use xor_utils::{gen_ascii_keys, key_space_size, recursive_add_keys, KeyCounter, ALPHABET_SIZE};

#[test]
fn length_zero_yields_the_empty_key_alone() {
    assert_eq!(gen_ascii_keys(0), vec![String::new()]);
}

#[test]
fn length_one_yields_each_ascii_byte_in_order() {
    let keys = gen_ascii_keys(1);
    assert_eq!(keys.len(), 128);
    for (i, key) in keys.iter().enumerate() {
        assert_eq!(key.as_bytes(), &[i as u8]);
    }
    assert_eq!(keys[65], "A");
}

#[test]
fn length_two_yields_every_pair_once() {
    let keys = gen_ascii_keys(2);
    assert_eq!(keys.len(), 128 * 128);
    assert!(keys.iter().all(|key| key.len() == 2));
    assert!(keys.iter().all(|key| key.bytes().all(|b| b < ALPHABET_SIZE)));
    let distinct: HashSet<&String> = keys.iter().collect();
    assert_eq!(distinct.len(), keys.len());
}

#[test]
fn keys_are_numbered_in_base_128() {
    let keys = gen_ascii_keys(2);
    assert_eq!(keys[0].as_bytes(), &[0, 0]);
    assert_eq!(keys[1].as_bytes(), &[0, 1]);
    assert_eq!(keys[127].as_bytes(), &[0, 127]);
    assert_eq!(keys[128].as_bytes(), &[1, 0]);
    assert_eq!(keys[129].as_bytes(), &[1, 1]);
    assert_eq!(keys[65 * 128 + 66], "AB");
    assert_eq!(keys[16383].as_bytes(), &[127, 127]);
}

#[test]
fn keys_come_in_ascending_order_first_byte_slowest() {
    let keys = gen_ascii_keys(2);
    for pair in keys.windows(2) {
        assert!(pair[0].as_bytes() < pair[1].as_bytes());
    }
    for (i, key) in keys.iter().enumerate() {
        assert_eq!(key.as_bytes()[0] as usize, i / 128);
        assert_eq!(key.as_bytes()[1] as usize, i % 128);
    }
}

#[test]
fn length_three_has_128_cubed_keys() {
    let keys = gen_ascii_keys(3);
    assert_eq!(keys.len(), 128 * 128 * 128);
    assert_eq!(keys[0].as_bytes(), &[0, 0, 0]);
    assert_eq!(keys[(b'k' as usize * 128 + b'e' as usize) * 128 + b'y' as usize], "key");
    assert_eq!(keys[keys.len() - 1].as_bytes(), &[127, 127, 127]);
}

#[test]
fn recursive_add_keys_appends_the_keys_under_a_prefix() {
    let mut keys = vec![String::from("kept")];
    recursive_add_keys(2, vec![b'A'], &mut keys);
    assert_eq!(keys.len(), 1 + 128);
    assert_eq!(keys[0], "kept");
    for i in 0..128usize {
        assert_eq!(keys[1 + i].as_bytes(), &[b'A', i as u8]);
    }
}

#[test]
fn recursive_add_keys_with_a_full_prefix_adds_the_prefix() {
    let mut keys = Vec::new();
    recursive_add_keys(3, b"abc".to_vec(), &mut keys);
    assert_eq!(keys, vec![String::from("abc")]);
}

#[test]
fn key_space_size_is_a_power_of_128() {
    assert_eq!(key_space_size(0), Some(1));
    assert_eq!(key_space_size(1), Some(128));
    assert_eq!(key_space_size(2), Some(16384));
    assert_eq!(key_space_size(4), Some(268_435_456));
    let mut expected: Option<usize> = Some(1);
    for length in 0..=12u32 {
        assert_eq!(key_space_size(length), expected);
        expected = expected.and_then(|n| n.checked_mul(128));
    }
    assert_eq!(key_space_size(u32::MAX), None);
}

#[test]
fn counter_walks_the_keys_in_the_order_of_the_list() {
    for length in 0..=2u32 {
        let keys = gen_ascii_keys(length);
        let mut counter = KeyCounter::new(length as usize);
        for key in &keys {
            assert_eq!(counter.next_key().as_deref(), Some(key.as_bytes()));
        }
        assert_eq!(counter.next_key(), None);
        assert_eq!(counter.next_key(), None);
    }
}

#[test]
fn counter_of_length_zero_hands_out_one_empty_key() {
    let mut counter = KeyCounter::new(0);
    assert_eq!(counter.next_key(), Some(Vec::new()));
    assert_eq!(counter.next_key(), None);
}

#[test]
fn counter_carries_into_the_byte_before() {
    let mut counter = KeyCounter::new(3);
    for _ in 0..127 {
        counter.next_key();
    }
    assert_eq!(counter.next_key(), Some(vec![0, 0, 127]));
    assert_eq!(counter.next_key(), Some(vec![0, 1, 0]));
    for _ in 0..(127 * 128 - 2) {
        counter.next_key();
    }
    assert_eq!(counter.next_key(), Some(vec![0, 127, 127]));
    assert_eq!(counter.next_key(), Some(vec![1, 0, 0]));
}

#[test]
fn counter_can_start_over() {
    let mut counter = KeyCounter::new(1);
    assert_eq!(counter.next_key(), Some(vec![0]));
    assert_eq!(counter.next_key(), Some(vec![1]));
    counter.restart();
    assert_eq!(counter.next_key(), Some(vec![0]));
    while counter.next_key().is_some() {}
    counter.restart();
    assert_eq!(counter.next_key(), Some(vec![0]));
}

#[test]
fn counter_handles_long_keys_without_listing_them() {
    let mut counter = KeyCounter::new(40);
    assert_eq!(counter.next_key(), Some(vec![0u8; 40]));
    let mut second = vec![0u8; 40];
    second[39] = 1;
    assert_eq!(counter.next_key(), Some(second));
}
