//! The brute-force key space: every key of a given length over the 7-bit ASCII
//! alphabet, in lexicographic order.

use vstd::prelude::*;

verus! {

/// The number of values a key byte can take: the bytes `0..128`.
pub const ALPHABET_SIZE: u8 = 128;

/// The number of keys of `length` bytes: 128 to the power `length`.
pub open spec fn key_count(length: nat) -> nat
    decreases length,
{
    if length == 0 {
        1
    } else {
        128 * key_count((length - 1) as nat)
    }
}

/// The bytes of key number `index` among the keys of `length` bytes: `index`
/// written in base 128 with `length` digits, the most significant digit first.
pub open spec fn key_bytes(length: nat, index: nat) -> Seq<u8>
    recommends
        index < key_count(length),
    decreases length,
{
    if length == 0 {
        Seq::empty()
    } else {
        let below = key_count((length - 1) as nat);
        seq![(index / below) as u8] + key_bytes((length - 1) as nat, index % below)
    }
}

/// The text whose characters are the given ASCII bytes.
pub open spec fn ascii_chars(bytes: Seq<u8>) -> Seq<char> {
    Seq::new(bytes.len(), |i: int| bytes[i] as char)
}

/// Whether every byte is in the 7-bit range.
pub open spec fn all_ascii(bytes: Seq<u8>) -> bool {
    forall|i: int| 0 <= i < bytes.len() ==> bytes[i] < 128
}

/// There is at least one key of every length.
pub proof fn lemma_key_count_positive(length: nat)
    ensures
        key_count(length) >= 1,
    decreases length,
{
    if length > 0 {
        lemma_key_count_positive((length - 1) as nat);
    }
}

/// Key number `digit * 128^(length-1) + rest` starts with `digit` and goes on
/// as key number `rest` of the keys one byte shorter.
proof fn lemma_key_bytes_step(length: nat, digit: nat, rest: nat)
    requires
        length >= 1,
        digit < 128,
        rest < key_count((length - 1) as nat),
    ensures
        digit * key_count((length - 1) as nat) + rest < key_count(length),
        key_bytes(length, digit * key_count((length - 1) as nat) + rest) == seq![digit as u8]
            + key_bytes((length - 1) as nat, rest),
{
    let below = key_count((length - 1) as nat);
    let index = digit * below + rest;
    vstd::arithmetic::div_mod::lemma_fundamental_div_mod_converse(
        index as int,
        below as int,
        digit as int,
        rest as int,
    );
    assert(digit * below + rest < 128 * below) by (nonlinear_arith)
        requires
            digit < 128,
            rest < below,
    ;
}

/// Whether `left` comes before `right` in lexicographic order by byte value:
/// at the first position where they differ, `left` holds the smaller byte.
pub open spec fn lex_less(left: Seq<u8>, right: Seq<u8>) -> bool {
    exists|at: int|
        0 <= at < left.len() && at < right.len() && left.take(at) == right.take(at) && left[at]
            < #[trigger] right[at]
}

/// There is one key of length zero, the empty one.
pub proof fn lemma_empty_key_alone()
    ensures
        key_count(0) == 1,
        key_bytes(0, 0) == Seq::<u8>::empty(),
        ascii_chars(key_bytes(0, 0)) == Seq::<char>::empty(),
{
    assert(ascii_chars(key_bytes(0, 0)) =~= Seq::<char>::empty());
}

/// Every key in the key space has the asked length and holds only bytes of
/// the 7-bit range.
pub proof fn lemma_key_shape(length: nat, index: nat)
    requires
        index < key_count(length),
    ensures
        key_bytes(length, index).len() == length,
        all_ascii(key_bytes(length, index)),
    decreases length,
{
    if length > 0 {
        let below = key_count((length - 1) as nat);
        lemma_key_count_positive((length - 1) as nat);
        vstd::arithmetic::div_mod::lemma_mod_pos_bound(index as int, below as int);
        lemma_key_shape((length - 1) as nat, index % below);
        assert(index / below < 128) by (nonlinear_arith)
            requires
                index < 128 * below,
                below >= 1,
        ;
    }
}

/// The keys come in lexicographic ascending order, the first byte varying
/// slowest: a key with a smaller number comes before one with a larger number.
pub proof fn lemma_keys_ascending(length: nat, first: nat, second: nat)
    requires
        first < second < key_count(length),
    ensures
        lex_less(key_bytes(length, first), key_bytes(length, second)),
    decreases length,
{
    if length > 0 {
        let below = key_count((length - 1) as nat);
        lemma_key_count_positive((length - 1) as nat);
        let a = key_bytes(length, first);
        let b = key_bytes(length, second);
        lemma_key_shape(length, first);
        lemma_key_shape(length, second);
        vstd::arithmetic::div_mod::lemma_fundamental_div_mod(first as int, below as int);
        vstd::arithmetic::div_mod::lemma_fundamental_div_mod(second as int, below as int);
        vstd::arithmetic::div_mod::lemma_mod_pos_bound(first as int, below as int);
        vstd::arithmetic::div_mod::lemma_mod_pos_bound(second as int, below as int);
        assert(first / below < 128 && second / below < 128 && first / below <= second / below)
            by (nonlinear_arith)
            requires
                first < second,
                second < 128 * below,
                below >= 1,
        ;
        if first / below < second / below {
            assert(a.take(0) =~= b.take(0));
            assert(a[0] < b[0]);
        } else {
            assert(first % below < second % below);
            let short_a = key_bytes((length - 1) as nat, first % below);
            let short_b = key_bytes((length - 1) as nat, second % below);
            lemma_keys_ascending((length - 1) as nat, first % below, second % below);
            let at = choose|at: int|
                0 <= at < short_a.len() && at < short_b.len() && short_a.take(at) == short_b.take(
                    at,
                ) && short_a[at] < #[trigger] short_b[at];
            assert(a.take(at + 1) =~= seq![a[0]] + short_a.take(at));
            assert(b.take(at + 1) =~= seq![b[0]] + short_b.take(at));
            assert(a[at + 1] == short_a[at]);
            assert(b[at + 1] == short_b[at]);
            assert(a[at + 1] < b[at + 1]);
        }
    }
}

/// No key occurs twice: keys with different numbers differ, as bytes and as
/// text.
pub proof fn lemma_keys_distinct(length: nat, first: nat, second: nat)
    requires
        first < key_count(length),
        second < key_count(length),
        first != second,
    ensures
        key_bytes(length, first) != key_bytes(length, second),
        ascii_chars(key_bytes(length, first)) != ascii_chars(key_bytes(length, second)),
{
    let a = key_bytes(length, first);
    let b = key_bytes(length, second);
    if first < second {
        lemma_keys_ascending(length, first, second);
    } else {
        lemma_keys_ascending(length, second, first);
    }
    let at = choose|at: int| 0 <= at < a.len() && at < b.len() && a[at] != #[trigger] b[at];
    assert(ascii_chars(a)[at] == a[at] as char);
    assert(ascii_chars(b)[at] == b[at] as char);
}

/// The size of the key space for `length`, or `None` when it is more than a
/// `usize` holds and the keys cannot be listed.
pub fn key_space_size(length: u32) -> (size: Option<usize>)
    ensures
        size matches Some(n) ==> n == key_count(length as nat),
        size is None ==> key_count(length as nat) > usize::MAX,
{
    let mut count: usize = 1;
    let mut done: u32 = 0;
    while done < length
        invariant
            done <= length,
            count == key_count(done as nat),
        decreases length - done,
    {
        if count > usize::MAX / 128 {
            proof {
                lemma_key_count_grows((done + 1) as nat, length as nat);
            }
            return None;
        }
        count = count * 128;
        done = done + 1;
    }
    Some(count)
}

/// Longer keys are never fewer.
proof fn lemma_key_count_grows(shorter: nat, longer: nat)
    requires
        shorter <= longer,
    ensures
        key_count(shorter) <= key_count(longer),
    decreases longer,
{
    if shorter < longer {
        lemma_key_count_grows(shorter, (longer - 1) as nat);
    }
}

/// `count` zero bytes.
pub open spec fn zeros(count: nat) -> Seq<u8> {
    Seq::new(count, |i: int| 0u8)
}

/// The first key of every length is made of zero bytes.
pub proof fn lemma_first_key(length: nat)
    ensures
        key_bytes(length, 0) == zeros(length),
    decreases length,
{
    if length > 0 {
        let below = key_count((length - 1) as nat);
        lemma_key_count_positive((length - 1) as nat);
        lemma_first_key((length - 1) as nat);
        vstd::arithmetic::div_mod::lemma_fundamental_div_mod_converse(0, below as int, 0, 0);
        assert(key_bytes(length, 0) =~= zeros(length));
    } else {
        assert(key_bytes(length, 0) =~= zeros(length));
    }
}

/// The key whose bytes are all 127 is the last one.
proof fn lemma_last_key(length: nat, index: nat)
    requires
        index < key_count(length),
        forall|i: int| 0 <= i < length ==> key_bytes(length, index)[i] == 127,
    ensures
        index + 1 == key_count(length),
    decreases length,
{
    if length > 0 {
        let below = key_count((length - 1) as nat);
        lemma_key_count_positive((length - 1) as nat);
        lemma_key_shape(length, index);
        vstd::arithmetic::div_mod::lemma_fundamental_div_mod(index as int, below as int);
        vstd::arithmetic::div_mod::lemma_mod_pos_bound(index as int, below as int);
        let key = key_bytes(length, index);
        let tail = key_bytes((length - 1) as nat, index % below);
        assert(index / below < 128) by (nonlinear_arith)
            requires
                index < 128 * below,
                below >= 1,
        ;
        assert(key[0] == (index / below) as u8);
        assert forall|i: int| 0 <= i < length - 1 implies tail[i] == 127 by {
            assert(key[i + 1] == tail[i]);
        }
        lemma_last_key((length - 1) as nat, index % below);
        assert(index == below * 127 + (below - 1));
    }
}

/// The key after key number `index`: the last byte below 127 goes up by one
/// and the bytes behind it, all 127, fall back to zero.
proof fn lemma_next_key(length: nat, index: nat, at: int)
    requires
        index < key_count(length),
        0 <= at < length,
        key_bytes(length, index)[at] < 127,
        forall|i: int| at < i < length ==> key_bytes(length, index)[i] == 127,
    ensures
        index + 1 < key_count(length),
        key_bytes(length, index + 1) == key_bytes(length, index).take(at).push(
            (key_bytes(length, index)[at] + 1) as u8,
        ) + zeros((length - at - 1) as nat),
    decreases length,
{
    let below = key_count((length - 1) as nat);
    lemma_key_count_positive((length - 1) as nat);
    lemma_key_shape(length, index);
    vstd::arithmetic::div_mod::lemma_fundamental_div_mod(index as int, below as int);
    vstd::arithmetic::div_mod::lemma_mod_pos_bound(index as int, below as int);
    let key = key_bytes(length, index);
    let tail = key_bytes((length - 1) as nat, index % below);
    let lead = index / below;
    let rest = index % below;
    assert(lead < 128) by (nonlinear_arith)
        requires
            lead == index / below,
            index < 128 * below,
            below >= 1,
    ;
    assert(key[0] == lead as u8);
    assert(index == lead * below + rest) by (nonlinear_arith)
        requires
            index == below * lead + rest,
    ;
    assert forall|i: int| 0 <= i < length - 1 implies tail[i] == key[i + 1] by {}
    lemma_key_shape((length - 1) as nat, rest);
    if at == 0 {
        lemma_last_key((length - 1) as nat, rest);
        assert(index + 1 == (lead + 1) * below + 0) by (nonlinear_arith)
            requires
                index == lead * below + rest,
                rest + 1 == below,
        ;
        lemma_key_bytes_step(length, lead + 1, 0);
        lemma_first_key((length - 1) as nat);
        assert(key_bytes(length, index + 1) =~= key.take(at).push((key[at] + 1) as u8) + zeros(
            (length - at - 1) as nat,
        ));
    } else {
        lemma_next_key((length - 1) as nat, rest, at - 1);
        lemma_key_bytes_step(length, lead, rest + 1);
        let next_tail = key_bytes((length - 1) as nat, rest + 1);
        assert(next_tail == tail.take(at - 1).push((tail[at - 1] + 1) as u8) + zeros(
            (length - at - 1) as nat,
        ));
        assert(key_bytes(length, index + 1) =~= key.take(at).push((key[at] + 1) as u8) + zeros(
            (length - at - 1) as nat,
        ));
    }
}

/// A walk through the key space, one key at a time and in the same order as
/// [`gen_ascii_keys`], for key lengths whose keys cannot all be held at once.
pub struct KeyCounter {
    /// The key that comes next, while there is one.
    digits: Vec<u8>,
    /// Whether every key has been handed out.
    finished: bool,
    /// How many keys have been handed out.
    handed_out: Ghost<nat>,
}

impl KeyCounter {
    #[verifier::type_invariant]
    spec fn well_formed(&self) -> bool {
        if self.finished {
            self.handed_out@ == key_count(self.digits@.len())
        } else {
            &&& self.handed_out@ < key_count(self.digits@.len())
            &&& self.digits@ == key_bytes(self.digits@.len(), self.handed_out@)
        }
    }

    /// The length of the keys of this walk.
    pub closed spec fn key_length(&self) -> nat {
        self.digits@.len()
    }

    /// How many keys the walk has handed out.
    pub closed spec fn position(&self) -> nat {
        self.handed_out@
    }

    /// Starts a walk through the keys of `length` bytes, at the first key.
    pub fn new(length: usize) -> (counter: KeyCounter)
        ensures
            counter.key_length() == length,
            counter.position() == 0,
    {
        let mut digits: Vec<u8> = Vec::new();
        let mut i: usize = 0;
        while i < length
            invariant
                i <= length,
                digits@ == zeros(i as nat),
            decreases length - i,
        {
            digits.push(0);
            assert(digits@ =~= zeros((i + 1) as nat));
            i = i + 1;
        }
        proof {
            lemma_first_key(length as nat);
            lemma_key_count_positive(length as nat);
        }
        KeyCounter { digits, finished: false, handed_out: Ghost(0) }
    }

    /// Goes back to the first key.
    pub fn restart(&mut self)
        ensures
            final(self).key_length() == old(self).key_length(),
            final(self).position() == 0,
    {
        *self = KeyCounter::new(self.digits.len());
    }

    /// Hands out the next key, or `None` once every key has been handed out.
    pub fn next_key(&mut self) -> (key: Option<Vec<u8>>)
        ensures
            final(self).key_length() == old(self).key_length(),
            old(self).position() < key_count(old(self).key_length()) ==> key is Some
                && final(self).position() == old(self).position() + 1,
            old(self).position() >= key_count(old(self).key_length()) ==> key is None
                && final(self).position() == old(self).position(),
            key matches Some(bytes) ==> bytes@ == key_bytes(
                old(self).key_length(),
                old(self).position(),
            ),
    {
        proof {
            use_type_invariant(&*self);
        }
        if self.finished {
            return None;
        }
        let key = self.digits.clone();
        let ghost length = self.digits@.len();
        let ghost index = self.handed_out@;
        let mut digits = self.digits.clone();
        assert(key@ =~= self.digits@);
        assert(digits@ =~= self.digits@);
        proof {
            lemma_key_shape(length, index);
        }
        let mut at: usize = digits.len();
        let mut finished = true;
        while at > 0 && finished
            invariant
                at <= length,
                index < key_count(length),
                digits@.len() == length,
                key@.len() == length,
                key@ == key_bytes(length, index),
                all_ascii(key@),
                finished ==> digits@ == key@.take(at as int) + zeros((length - at) as nat),
                finished ==> forall|i: int| at <= i < length ==> key@[i] == 127,
                !finished ==> index + 1 < key_count(length) && digits@ == key_bytes(
                    length,
                    index + 1,
                ),
            decreases at,
        {
            at = at - 1;
            if digits[at] < ALPHABET_SIZE - 1 {
                let raised = digits[at] + 1;
                digits[at] = raised;
                proof {
                    lemma_next_key(length, index, at as int);
                    assert(digits@ =~= key@.take(at as int).push((key@[at as int] + 1) as u8)
                        + zeros((length - at - 1) as nat));
                }
                finished = false;
            } else {
                digits[at] = 0;
                assert(digits@ =~= key@.take(at as int) + zeros((length - at) as nat));
            }
        }
        proof {
            if finished {
                lemma_last_key(length, index);
            }
        }
        *self = KeyCounter { digits, finished, handed_out: Ghost(index + 1) };
        Some(key)
    }
}

/// Calls `String::from_utf8` on bytes in the 7-bit range. Such bytes are valid
/// UTF-8, each one standing for the character with its code, so the call
/// succeeds and the text has one character per byte.
#[verifier::external_body]
fn ascii_string(bytes: Vec<u8>) -> (text: String)
    requires
        all_ascii(bytes@),
    ensures
        text@ == ascii_chars(bytes@),
{
    String::from_utf8(bytes).unwrap()
}

/// Appends to `keys` every key of `length` bytes that starts with `prefix`,
/// in ascending order, leaving what `keys` held before in place.
pub fn recursive_add_keys(length: u32, prefix: Vec<u8>, keys: &mut Vec<String>)
    requires
        prefix@.len() <= length,
        all_ascii(prefix@),
        old(keys)@.len() + key_count((length - prefix@.len()) as nat) <= usize::MAX,
    ensures
        final(keys)@.len() == old(keys)@.len() + key_count((length - prefix@.len()) as nat),
        forall|i: int| 0 <= i < old(keys)@.len() ==> final(keys)@[i] == old(keys)@[i],
        forall|i: int|
            #![trigger final(keys)@[old(keys)@.len() + i]]
            0 <= i < key_count((length - prefix@.len()) as nat) ==> final(keys)@[old(keys)@.len()
                + i]@ == ascii_chars(
                prefix@ + key_bytes((length - prefix@.len()) as nat, i as nat),
            ),
    decreases length - prefix@.len(),
{
    let ghost before = keys@;
    let ghost missing = (length - prefix@.len()) as nat;
    if prefix.len() == length as usize {
        proof {
            assert(prefix@ + key_bytes(0, 0) =~= prefix@);
        }
        let key = ascii_string(prefix);
        keys.push(key);
    } else {
        let ghost below = key_count((missing - 1) as nat);
        proof {
            lemma_key_count_positive((missing - 1) as nat);
        }
        let mut digit: u8 = 0;
        while digit < ALPHABET_SIZE
            invariant
                digit <= 128,
                missing >= 1,
                missing == length - prefix@.len(),
                below == key_count((missing - 1) as nat),
                below >= 1,
                all_ascii(prefix@),
                before.len() + 128 * below <= usize::MAX,
                keys@.len() == before.len() + digit * below,
                forall|i: int| 0 <= i < before.len() ==> keys@[i] == before[i],
                forall|i: int|
                    0 <= i < digit * below ==> (#[trigger] keys@[before.len() + i])@
                        == ascii_chars(prefix@ + key_bytes(missing, i as nat)),
            decreases 128 - digit,
        {
            let mut new_prefix = prefix.clone();
            new_prefix.push(digit);
            let ghost so_far = keys@;
            proof {
                assert(new_prefix@ =~= prefix@.push(digit));
                assert((digit + 1) * below <= 128 * below) by (nonlinear_arith)
                    requires
                        digit < 128,
                        below >= 1,
                ;
                assert((digit + 1) * below == digit * below + below) by (nonlinear_arith);
            }
            recursive_add_keys(length, new_prefix, keys);
            proof {
                assert forall|i: int| 0 <= i < (digit + 1) * below implies (#[trigger] keys@[before.len()
                    + i])@ == ascii_chars(prefix@ + key_bytes(missing, i as nat)) by {
                    if i >= digit * below {
                        let rest = (i - digit * below) as nat;
                        lemma_key_bytes_step(missing, digit as nat, rest);
                        assert(keys@[so_far.len() as int + rest as int] == keys@[before.len() + i]);
                        assert(new_prefix@ + key_bytes((missing - 1) as nat, rest) =~= prefix@
                            + key_bytes(missing, i as nat));
                    } else {
                        assert(keys@[before.len() + i] == so_far[before.len() + i]);
                    }
                }
            }
            digit = digit + 1;
        }
    }
}

/// Generates every ASCII key of `length` bytes, in ascending order: key
/// number `i` is `i` written in base 128 with `length` digits. There are
/// 128 to the power `length` of them, so the length has to stay small.
pub fn gen_ascii_keys(length: u32) -> (keys: Vec<String>)
    requires
        key_count(length as nat) <= usize::MAX,
    ensures
        keys@.len() == key_count(length as nat),
        forall|i: int|
            0 <= i < keys@.len() ==> (#[trigger] keys@[i])@ == ascii_chars(
                key_bytes(length as nat, i as nat),
            ),
        forall|i: int| 0 <= i < keys@.len() ==> (#[trigger] keys@[i])@.len() == length,
        forall|i: int, j: int|
            0 <= i < keys@.len() && 0 <= j < keys@.len() && i != j ==> (#[trigger] keys@[i])@ != (
            #[trigger] keys@[j])@,
{
    let mut keys: Vec<String> = Vec::new();
    let prefix: Vec<u8> = Vec::new();
    recursive_add_keys(length, prefix, &mut keys);
    proof {
        assert forall|i: int| 0 <= i < keys@.len() implies (#[trigger] keys@[i])@ == ascii_chars(
            key_bytes(length as nat, i as nat),
        ) by {
            assert(keys@[0 + i] == keys@[i]);
            assert(prefix@ + key_bytes(length as nat, i as nat) =~= key_bytes(
                length as nat,
                i as nat,
            ));
        }
        assert forall|i: int| 0 <= i < keys@.len() implies (#[trigger] keys@[i])@.len()
            == length by {
            lemma_key_shape(length as nat, i as nat);
        }
        assert forall|i: int, j: int|
            0 <= i < keys@.len() && 0 <= j < keys@.len() && i != j implies (#[trigger] keys@[i])@
            != (#[trigger] keys@[j])@ by {
            lemma_keys_distinct(length as nat, i as nat, j as nat);
        }
    }
    keys
}

} // verus!
