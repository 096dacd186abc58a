//! Word lists for the dictionary scorer: from the text of a word file, one
//! word to a line, to the list that the scorer expects, lowercase and longest
//! word first.

use vstd::prelude::*;
use vstd::utf8::{decode_utf8, encode_utf8, is_char_boundary, valid_utf8};

verus! {

/// The length of a word in bytes, as UTF-8.
pub open spec fn byte_len(word: Seq<char>) -> nat {
    encode_utf8(word).len()
}

/// The texts of a list of words.
pub open spec fn word_views(words: Seq<String>) -> Seq<Seq<char>> {
    Seq::new(words.len(), |i: int| words[i]@)
}

/// Whether the words stand longest first, by their length in bytes.
pub open spec fn is_longest_first(words: Seq<Seq<char>>) -> bool {
    forall|i: int, j: int|
        0 <= i < j < words.len() ==> byte_len(#[trigger] words[i]) >= byte_len(
            #[trigger] words[j],
        )
}

/// The words of `len` bytes among `words`, in their order.
pub open spec fn words_of_length(words: Seq<Seq<char>>, len: nat) -> Seq<Seq<char>>
    decreases words.len(),
{
    if words.len() == 0 {
        Seq::empty()
    } else if byte_len(words.last()) == len {
        words_of_length(words.drop_last(), len).push(words.last())
    } else {
        words_of_length(words.drop_last(), len)
    }
}

/// Whether `sorted` holds the words of `unsorted` longest first, words of one
/// length in the order that they had in `unsorted`.
pub open spec fn is_stable_longest_first(
    sorted: Seq<Seq<char>>,
    unsorted: Seq<Seq<char>>,
) -> bool {
    &&& sorted.len() == unsorted.len()
    &&& is_longest_first(sorted)
    &&& forall|len: nat| #[trigger] words_of_length(sorted, len) == words_of_length(unsorted, len)
}

/// The words shorter than `bound` bytes, the longest first, words of one
/// length in their order.
pub open spec fn by_length_below(words: Seq<Seq<char>>, bound: nat) -> Seq<Seq<char>>
    decreases bound,
{
    if bound == 0 {
        Seq::empty()
    } else {
        words_of_length(words, (bound - 1) as nat) + by_length_below(words, (bound - 1) as nat)
    }
}

/// Whether every word is shorter than `bound` bytes.
pub open spec fn all_shorter(words: Seq<Seq<char>>, bound: nat) -> bool {
    forall|i: int| 0 <= i < words.len() ==> byte_len(#[trigger] words[i]) < bound
}

/// The words picked by length have that length.
proof fn lemma_picked_have_length(words: Seq<Seq<char>>, len: nat)
    ensures
        forall|i: int|
            0 <= i < words_of_length(words, len).len() ==> byte_len(
                #[trigger] words_of_length(words, len)[i],
            ) == len,
    decreases words.len(),
{
    if words.len() > 0 {
        lemma_picked_have_length(words.drop_last(), len);
        let picked = words_of_length(words, len);
        let before = words_of_length(words.drop_last(), len);
        assert forall|i: int| 0 <= i < picked.len() implies byte_len(#[trigger] picked[i])
            == len by {
            if i < before.len() {
                assert(picked[i] == before[i]);
            }
        }
    }
}

/// Picking by length from two lists in a row is picking from each.
proof fn lemma_pick_from_both(front: Seq<Seq<char>>, back: Seq<Seq<char>>, len: nat)
    ensures
        words_of_length(front + back, len) == words_of_length(front, len) + words_of_length(
            back,
            len,
        ),
    decreases back.len(),
{
    if back.len() == 0 {
        assert(front + back =~= front);
        assert(words_of_length(front, len) + words_of_length(back, len) =~= words_of_length(
            front,
            len,
        ));
    } else {
        lemma_pick_from_both(front, back.drop_last(), len);
        assert((front + back).drop_last() =~= front + back.drop_last());
        assert(words_of_length(front + back, len) =~= words_of_length(front, len)
            + words_of_length(back, len));
    }
}

/// From words that all have the length `own`, picking by length takes all
/// of them or none.
proof fn lemma_pick_from_alike(words: Seq<Seq<char>>, own: nat, len: nat)
    requires
        forall|i: int| 0 <= i < words.len() ==> byte_len(#[trigger] words[i]) == own,
    ensures
        words_of_length(words, len) == if len == own {
            words
        } else {
            Seq::empty()
        },
    decreases words.len(),
{
    if words.len() > 0 {
        lemma_pick_from_alike(words.drop_last(), own, len);
        assert(words.drop_last().push(words.last()) =~= words);
    }
}

/// Where no word has the length `len`, picking by it takes none.
proof fn lemma_pick_none(words: Seq<Seq<char>>, len: nat)
    requires
        forall|i: int| 0 <= i < words.len() ==> byte_len(#[trigger] words[i]) != len,
    ensures
        words_of_length(words, len) == Seq::<Seq<char>>::empty(),
    decreases words.len(),
{
    if words.len() > 0 {
        lemma_pick_none(words.drop_last(), len);
    }
}

/// The words below a bound are shorter than the bound.
proof fn lemma_below_are_shorter(words: Seq<Seq<char>>, bound: nat)
    ensures
        all_shorter(by_length_below(words, bound), bound),
    decreases bound,
{
    if bound > 0 {
        lemma_below_are_shorter(words, (bound - 1) as nat);
        lemma_picked_have_length(words, (bound - 1) as nat);
    }
}

/// Picking by length from the arrangement gives what picking from the words
/// gives, for every length below the bound.
proof fn lemma_pick_from_arranged(words: Seq<Seq<char>>, bound: nat, len: nat)
    ensures
        words_of_length(by_length_below(words, bound), len) == if len < bound {
            words_of_length(words, len)
        } else {
            Seq::empty()
        },
    decreases bound,
{
    if bound > 0 {
        let top = words_of_length(words, (bound - 1) as nat);
        let rest = by_length_below(words, (bound - 1) as nat);
        lemma_pick_from_arranged(words, (bound - 1) as nat, len);
        lemma_pick_from_both(top, rest, len);
        lemma_picked_have_length(words, (bound - 1) as nat);
        lemma_pick_from_alike(top, (bound - 1) as nat, len);
        assert(words_of_length(by_length_below(words, bound), len) =~= if len < bound {
            words_of_length(words, len)
        } else {
            Seq::empty()
        });
    }
}

/// The arrangement stands longest first.
proof fn lemma_arranged_longest_first(words: Seq<Seq<char>>, bound: nat)
    ensures
        is_longest_first(by_length_below(words, bound)),
    decreases bound,
{
    if bound > 0 {
        let top = words_of_length(words, (bound - 1) as nat);
        let rest = by_length_below(words, (bound - 1) as nat);
        lemma_arranged_longest_first(words, (bound - 1) as nat);
        lemma_picked_have_length(words, (bound - 1) as nat);
        lemma_below_are_shorter(words, (bound - 1) as nat);
        let all = by_length_below(words, bound);
        assert forall|i: int, j: int| 0 <= i < j < all.len() implies byte_len(#[trigger] all[i])
            >= byte_len(#[trigger] all[j]) by {
            if j < top.len() {
                assert(all[i] == top[i] && all[j] == top[j]);
            } else if i < top.len() {
                assert(all[i] == top[i] && all[j] == rest[j - top.len()]);
            } else {
                assert(all[i] == rest[i - top.len()] && all[j] == rest[j - top.len()]);
            }
        }
    }
}

/// One more word makes the arrangement one word longer if it is shorter than
/// the bound.
proof fn lemma_arranged_grows(words: Seq<Seq<char>>, word: Seq<char>, bound: nat)
    ensures
        by_length_below(words.push(word), bound).len() == by_length_below(words, bound).len()
            + if byte_len(word) < bound {
            1nat
        } else {
            0nat
        },
    decreases bound,
{
    if bound > 0 {
        lemma_arranged_grows(words, word, (bound - 1) as nat);
        assert(words.push(word).drop_last() =~= words);
    }
}

/// The arrangement holds as many words as there are, where all are shorter
/// than the bound.
proof fn lemma_arranged_keeps_count(words: Seq<Seq<char>>, bound: nat)
    requires
        all_shorter(words, bound),
    ensures
        by_length_below(words, bound).len() == words.len(),
    decreases words.len(), bound,
{
    if words.len() == 0 {
        if bound > 0 {
            lemma_arranged_keeps_count(words, (bound - 1) as nat);
        }
    } else {
        lemma_arranged_keeps_count(words.drop_last(), bound);
        lemma_arranged_grows(words.drop_last(), words.last(), bound);
        assert(words.drop_last().push(words.last()) =~= words);
    }
}

/// To arrange the words by length below a bound that all of them keep is to
/// put them longest first without disturbing the order within one length.
pub proof fn lemma_arranged_is_stable_longest_first(words: Seq<Seq<char>>, bound: nat)
    requires
        all_shorter(words, bound),
    ensures
        is_stable_longest_first(by_length_below(words, bound), words),
{
    lemma_arranged_keeps_count(words, bound);
    lemma_arranged_longest_first(words, bound);
    assert forall|len: nat| #[trigger]
        words_of_length(by_length_below(words, bound), len) == words_of_length(words, len) by {
        lemma_pick_from_arranged(words, bound, len);
        if len >= bound {
            lemma_pick_none(words, len);
        }
    }
}

/// Puts the words longest first, by their length in bytes. Words of one
/// length keep the order in which they came.
pub fn sort_longest_first(words: Vec<String>) -> (sorted: Vec<String>)
    ensures
        is_stable_longest_first(word_views(sorted@), word_views(words@)),
{
    let ghost views = word_views(words@);
    let count = words.len();
    // One bucket for each length up to the longest.
    let mut buckets: Vec<Vec<String>> = Vec::new();
    let mut i: usize = 0;
    while i < count
        invariant
            i <= count,
            count == words@.len(),
            views == word_views(words@),
            views.len() == count,
            forall|j: int| 0 <= j < i ==> byte_len(#[trigger] views[j]) < buckets@.len(),
            forall|b: int| 0 <= b < buckets@.len() ==> (#[trigger] buckets@[b])@.len() == 0,
        decreases count - i,
    {
        let len = words[i].as_str().as_bytes().len();
        assert(len == byte_len(views[i as int]));
        while buckets.len() <= len
            invariant
                i < views.len(),
                forall|j: int| 0 <= j < i ==> byte_len(#[trigger] views[j]) < buckets@.len(),
                forall|b: int| 0 <= b < buckets@.len() ==> (#[trigger] buckets@[b])@.len() == 0,
            decreases len + 1 - buckets@.len(),
        {
            buckets.push(Vec::new());
        }
        i = i + 1;
    }
    let bound = buckets.len();
    assert(all_shorter(views, bound as nat));
    let mut i: usize = 0;
    while i < count
        invariant
            i <= count,
            count == words@.len(),
            views == word_views(words@),
            bound == buckets@.len(),
            all_shorter(views, bound as nat),
            forall|b: int|
                0 <= b < bound ==> word_views((#[trigger] buckets@[b])@) == words_of_length(
                    views.take(i as int),
                    b as nat,
                ),
        decreases count - i,
    {
        let len = words[i].as_str().as_bytes().len();
        let word = words[i].clone();
        assert(len == byte_len(views[i as int]));
        let ghost before = buckets@;
        buckets[len].push(word);
        proof {
            assert(views.take(i + 1).drop_last() =~= views.take(i as int));
            assert forall|b: int| 0 <= b < bound implies word_views((#[trigger] buckets@[b])@)
                == words_of_length(views.take(i + 1), b as nat) by {
                if b == len {
                    assert(word_views(buckets@[b]@) =~= word_views(before[b]@).push(
                        views[i as int],
                    ));
                } else {
                    assert(buckets@[b] == before[b]);
                }
            }
        }
        i = i + 1;
    }
    proof {
        assert(views.take(count as int) =~= views);
    }
    let mut sorted: Vec<String> = Vec::new();
    let mut left: usize = bound;
    while left > 0
        invariant
            left <= bound,
            bound == buckets@.len(),
            forall|b: int|
                0 <= b < bound ==> word_views((#[trigger] buckets@[b])@) == words_of_length(
                    views,
                    b as nat,
                ),
            word_views(sorted@) + by_length_below(views, left as nat) == by_length_below(
                views,
                bound as nat,
            ),
        decreases left,
    {
        left = left - 1;
        let ghost done = word_views(sorted@);
        let bucket = &buckets[left];
        let mut k: usize = 0;
        while k < bucket.len()
            invariant
                k <= bucket@.len(),
                word_views(sorted@) == done + word_views(bucket@).take(k as int),
            decreases bucket@.len() - k,
        {
            let ghost so_far = word_views(sorted@);
            sorted.push(bucket[k].clone());
            proof {
                assert(word_views(sorted@) =~= so_far.push(bucket@[k as int]@));
                assert(word_views(bucket@).take(k + 1) =~= word_views(bucket@).take(
                    k as int,
                ).push(bucket@[k as int]@));
            }
            k = k + 1;
        }
        proof {
            assert(word_views(bucket@).take(k as int) =~= word_views(bucket@));
            assert((done + words_of_length(views, left as nat)) + by_length_below(
                views,
                left as nat,
            ) =~= done + by_length_below(views, (left + 1) as nat));
        }
    }
    proof {
        assert(word_views(sorted@) =~= by_length_below(views, bound as nat));
        lemma_arranged_is_stable_longest_first(views, bound as nat);
    }
    sorted
}

/// The byte that ends a line.
pub const LINE_FEED: u8 = 10;

/// The byte that may stand before a line feed and then belongs to the line
/// ending.
pub const CARRIAGE_RETURN: u8 = 13;

/// The offset of the first line feed in `bytes`, or the length of `bytes`
/// where they hold none.
pub open spec fn line_end(bytes: Seq<u8>) -> int
    decreases bytes.len(),
{
    if bytes.len() == 0 || bytes[0] == LINE_FEED {
        0
    } else {
        1 + line_end(bytes.drop_first())
    }
}

/// A line without the carriage return that stood before its line feed.
pub open spec fn without_carriage_return(line: Seq<u8>) -> Seq<u8> {
    if line.len() > 0 && line.last() == CARRIAGE_RETURN {
        line.drop_last()
    } else {
        line
    }
}

/// The lines of a text, given as its UTF-8 bytes. A line ends at a line feed,
/// or at a carriage return and a line feed; the line ending is not part of
/// the line. The last line needs no line ending, and nothing follows a final
/// line ending. A carriage return that no line feed follows stays in its
/// line.
pub open spec fn lines_of(bytes: Seq<u8>) -> Seq<Seq<u8>>
    decreases bytes.len(),
{
    let end = line_end(bytes);
    if bytes.len() == 0 {
        Seq::empty()
    } else if end < 0 || end >= bytes.len() {
        seq![bytes]
    } else {
        seq![without_carriage_return(bytes.take(end))] + lines_of(bytes.skip(end + 1))
    }
}

/// A name for what `str::to_lowercase` returns: the lowercase form of a text
/// by the rules of Unicode.
pub uninterp spec fn lowercase_of(text: Seq<char>) -> Seq<char>;

/// Calls `str::to_lowercase`. The lowercase form depends on the text alone,
/// and the contract says no more of it than its name.
#[verifier::external_body]
fn lowercase(word: &str) -> (lowered: String)
    ensures
        lowered@ == lowercase_of(word@),
{
    word.to_lowercase()
}

/// The lines of a text in lowercase, in the order of the text.
pub open spec fn lowered_lines(bytes: Seq<u8>) -> Seq<Seq<char>> {
    lines_of(bytes).map_values(|line: Seq<u8>| lowercase_of(decode_utf8(line)))
}

/// Whether `words` is the word list that the text of a word file stands for:
/// its lines in lowercase, longest first, lines of one length in the order
/// of the file.
pub open spec fn is_words_list(words: Seq<Seq<char>>, text: Seq<char>) -> bool {
    is_stable_longest_first(words, lowered_lines(encode_utf8(text)))
}

/// A stretch without line feed ends where the line ends.
proof fn lemma_line_end(bytes: Seq<u8>, end: int)
    requires
        0 <= end <= bytes.len(),
        forall|i: int| 0 <= i < end ==> bytes[i] != LINE_FEED,
        end < bytes.len() ==> bytes[end] == LINE_FEED,
    ensures
        line_end(bytes) == end,
    decreases end,
{
    if end > 0 {
        let rest = bytes.drop_first();
        assert forall|i: int| 0 <= i < end - 1 implies rest[i] != LINE_FEED by {
            assert(rest[i] == bytes[i + 1]);
        }
        lemma_line_end(rest, end - 1);
    }
}

/// The offset of the first line feed in `bytes`, or their length.
pub fn find_line_end(bytes: &[u8]) -> (end: usize)
    ensures
        end == line_end(bytes@),
        end <= bytes@.len(),
        end < bytes@.len() ==> bytes@[end as int] == LINE_FEED,
{
    let mut end: usize = 0;
    while end < bytes.len() && bytes[end] != LINE_FEED
        invariant
            end <= bytes@.len(),
            forall|i: int| 0 <= i < end ==> bytes@[i] != LINE_FEED,
        decreases bytes@.len() - end,
    {
        end = end + 1;
    }
    proof {
        lemma_line_end(bytes@, end as int);
    }
    end
}

/// In a text that starts with a line feed, the second byte starts a
/// character or the text ends there.
proof fn lemma_boundary_after_line_feed(bytes: Seq<u8>)
    requires
        valid_utf8(bytes),
        bytes.len() >= 1,
        bytes[0] == LINE_FEED,
    ensures
        is_char_boundary(bytes, 1),
{
    reveal_with_fuel(is_char_boundary, 2);
    reveal_with_fuel(valid_utf8, 2);
}

/// The lines of `text`, each one in lowercase.
pub fn lowercase_lines(text: &str) -> (words: Vec<String>)
    ensures
        word_views(words@) == lowered_lines(encode_utf8(text@)),
{
    let mut words: Vec<String> = Vec::new();
    let mut rest: &str = text;
    while rest.as_bytes().len() > 0
        invariant
            word_views(words@) + lowered_lines(encode_utf8(rest@)) == lowered_lines(
                encode_utf8(text@),
            ),
        decreases encode_utf8(rest@).len(),
    {
        let ghost done = word_views(words@);
        let ghost all = encode_utf8(rest@);
        let bytes = rest.as_bytes();
        let len = bytes.len();
        let end = find_line_end(bytes);
        proof {
            vstd::utf8::encode_utf8_valid_utf8(rest@);
            vstd::utf8::is_char_boundary_start_end_of_seq(all);
            if end < len {
                vstd::utf8::is_char_boundary_iff_not_is_continuation_byte(all, end as int);
            }
        }
        let (head, tail) = rest.split_at(end);
        let line = if end == len {
            head
        } else if end > 0 && head.as_bytes()[end - 1] == CARRIAGE_RETURN {
            proof {
                vstd::utf8::encode_utf8_valid_utf8(head@);
                vstd::utf8::is_char_boundary_iff_not_is_continuation_byte(
                    encode_utf8(head@),
                    end - 1,
                );
            }
            head.split_at(end - 1).0
        } else {
            head
        };
        let after = if end == len {
            tail
        } else {
            proof {
                vstd::utf8::encode_utf8_valid_utf8(tail@);
                lemma_boundary_after_line_feed(encode_utf8(tail@));
            }
            tail.split_at(1).1
        };
        let word = lowercase(line);
        words.push(word);
        proof {
            vstd::utf8::encode_utf8_decode_utf8(line@);
            let first = if end == len {
                all
            } else {
                without_carriage_return(all.take(end as int))
            };
            assert(encode_utf8(line@) =~= first);
            assert(encode_utf8(after@) =~= if end == len {
                Seq::<u8>::empty()
            } else {
                all.skip(end + 1)
            });
            assert(lines_of(all) =~= seq![first] + lines_of(encode_utf8(after@)));
            assert(lowered_lines(all) =~= seq![lowercase_of(decode_utf8(first))] + lowered_lines(
                encode_utf8(after@),
            ));
            assert(word_views(words@) =~= done.push(lowercase_of(decode_utf8(first))));
            assert(word_views(words@) + lowered_lines(encode_utf8(after@)) =~= done
                + lowered_lines(all));
        }
        rest = after;
    }
    proof {
        assert(lowered_lines(encode_utf8(rest@)) =~= Seq::<Seq<char>>::empty());
        assert(word_views(words@) + Seq::<Seq<char>>::empty() =~= word_views(words@));
    }
    words
}

/// Turns the text of a word file, one word to a line, into the word list for
/// the dictionary scorer: every line in lowercase, the longest words first.
pub fn parse_words_list(text: &str) -> (words: Vec<String>)
    ensures
        is_words_list(word_views(words@), text@),
{
    sort_longest_first(lowercase_lines(text))
}

} // verus!
