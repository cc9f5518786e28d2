//! Counting and locating bytes in UTF-8 text, as mathematics over `Seq<u8>`.
//!
//! Every coordinate system of the rope is a way of counting some kind of byte:
//! all of them, those that start a character, or line feeds. The functions
//! here say what those counts are and give the facts about concatenation and
//! prefixes that the tree algorithms rest on.

use vstd::prelude::*;
use vstd::utf8::{
    decode_utf8, is_char_boundary, is_char_boundary_iff_is_leading_byte,
    is_char_boundary_iff_not_is_continuation_byte, is_char_boundary_start_end_of_seq,
    is_continuation_byte, length_of_first_scalar, pop_first_scalar, take_first_scalar, valid_utf8,
    valid_utf8_split,
};

verus! {

/// The byte that ends a line.
pub const LINE_FEED: u8 = 0x0a;

/// True when `b` is the first byte of a character's encoding.
pub open spec fn starts_char(b: u8) -> bool {
    !is_continuation_byte(b)
}

/// True when `b` ends a line.
pub open spec fn ends_line(b: u8) -> bool {
    b == LINE_FEED
}

/// The number of characters encoded in `text`: the bytes that start one.
pub open spec fn count_chars(text: Seq<u8>) -> nat
    decreases text.len(),
{
    if text.len() == 0 {
        0
    } else {
        count_chars(text.drop_last()) + if starts_char(text.last()) {
            1nat
        } else {
            0nat
        }
    }
}

/// The number of line feeds in `text`.
pub open spec fn count_lines(text: Seq<u8>) -> nat
    decreases text.len(),
{
    if text.len() == 0 {
        0
    } else {
        count_lines(text.drop_last()) + if ends_line(text.last()) {
            1nat
        } else {
            0nat
        }
    }
}

/// True when `at` is an offset at which `text` may be cut without cutting a
/// character in two.
pub open spec fn char_boundary(text: Seq<u8>, at: int) -> bool {
    0 <= at <= text.len() && (at == text.len() || starts_char(text[at]))
}

/// True when `at` is the offset at which a line of `text` starts.
pub open spec fn line_start(text: Seq<u8>, at: int) -> bool {
    0 <= at <= text.len() && (at == 0 || ends_line(text[at - 1]))
}

/// The characters of a concatenation are those of its two parts.
pub proof fn lemma_count_chars_concat(a: Seq<u8>, b: Seq<u8>)
    ensures
        count_chars(a + b) == count_chars(a) + count_chars(b),
    decreases b.len(),
{
    if b.len() == 0 {
        assert(a + b =~= a);
    } else {
        assert((a + b).drop_last() =~= a + b.drop_last());
        lemma_count_chars_concat(a, b.drop_last());
    }
}

/// The line feeds of a concatenation are those of its two parts.
pub proof fn lemma_count_lines_concat(a: Seq<u8>, b: Seq<u8>)
    ensures
        count_lines(a + b) == count_lines(a) + count_lines(b),
    decreases b.len(),
{
    if b.len() == 0 {
        assert(a + b =~= a);
    } else {
        assert((a + b).drop_last() =~= a + b.drop_last());
        lemma_count_lines_concat(a, b.drop_last());
    }
}

/// A text holds no more characters than bytes.
pub proof fn lemma_count_chars_bound(text: Seq<u8>)
    ensures
        count_chars(text) <= text.len(),
    decreases text.len(),
{
    if text.len() > 0 {
        lemma_count_chars_bound(text.drop_last());
    }
}

/// A text holds no more line feeds than bytes.
pub proof fn lemma_count_lines_bound(text: Seq<u8>)
    ensures
        count_lines(text) <= text.len(),
    decreases text.len(),
{
    if text.len() > 0 {
        lemma_count_lines_bound(text.drop_last());
    }
}

/// Text that is valid UTF-8 starts with the first byte of a character.
pub proof fn lemma_valid_starts_char(text: Seq<u8>)
    requires
        valid_utf8(text),
        text.len() > 0,
    ensures
        starts_char(text[0]),
{
}

/// On valid UTF-8, `char_boundary` is the boundary test of `str`.
pub proof fn lemma_char_boundary_is_std(text: Seq<u8>, at: int)
    requires
        valid_utf8(text),
    ensures
        is_char_boundary(text, at) <==> char_boundary(text, at),
{
    if 0 <= at < text.len() {
        is_char_boundary_iff_not_is_continuation_byte(text, at);
    } else if at == text.len() {
        is_char_boundary_start_end_of_seq(text);
    }
}

/// The two parts of valid UTF-8 cut at a character boundary are valid UTF-8.
pub proof fn lemma_valid_cut(text: Seq<u8>, at: int)
    requires
        valid_utf8(text),
        char_boundary(text, at),
    ensures
        valid_utf8(text.take(at)),
        valid_utf8(text.skip(at)),
{
    lemma_char_boundary_is_std(text, at);
    valid_utf8_split(text, at);
    assert(text.take(at) =~= text.subrange(0, at));
    assert(text.skip(at) =~= text.subrange(at, text.len() as int));
}

/// A cut between two pieces of valid UTF-8 is a character boundary.
pub proof fn lemma_joint_is_boundary(a: Seq<u8>, b: Seq<u8>)
    requires
        valid_utf8(b),
    ensures
        char_boundary(a + b, a.len() as int),
{
    if b.len() > 0 {
        lemma_valid_starts_char(b);
    }
}

/// One more byte is one more character if it starts one.
pub proof fn lemma_count_chars_step(text: Seq<u8>, at: int)
    requires
        0 <= at < text.len(),
    ensures
        count_chars(text.take(at + 1)) == count_chars(text.take(at)) + if starts_char(text[at]) {
            1nat
        } else {
            0nat
        },
{
    assert(text.take(at + 1).drop_last() =~= text.take(at));
}

/// One more byte is one more line feed if it is one.
pub proof fn lemma_count_lines_step(text: Seq<u8>, at: int)
    requires
        0 <= at < text.len(),
    ensures
        count_lines(text.take(at + 1)) == count_lines(text.take(at)) + if ends_line(text[at]) {
            1nat
        } else {
            0nat
        },
{
    assert(text.take(at + 1).drop_last() =~= text.take(at));
}

/// A longer prefix holds no fewer characters.
pub proof fn lemma_count_chars_prefix(text: Seq<u8>, i: int, j: int)
    requires
        0 <= i <= j <= text.len(),
    ensures
        count_chars(text.take(i)) <= count_chars(text.take(j)),
{
    assert(text.take(j) =~= text.take(i) + text.subrange(i, j));
    lemma_count_chars_concat(text.take(i), text.subrange(i, j));
}

/// A longer prefix holds no fewer line feeds.
pub proof fn lemma_count_lines_prefix(text: Seq<u8>, i: int, j: int)
    requires
        0 <= i <= j <= text.len(),
    ensures
        count_lines(text.take(i)) <= count_lines(text.take(j)),
{
    assert(text.take(j) =~= text.take(i) + text.subrange(i, j));
    lemma_count_lines_concat(text.take(i), text.subrange(i, j));
}

/// Of two character boundaries, the later has more characters before it.
pub proof fn lemma_char_boundaries_increase(text: Seq<u8>, i: int, j: int)
    requires
        char_boundary(text, i),
        char_boundary(text, j),
        i < j,
    ensures
        count_chars(text.take(i)) < count_chars(text.take(j)),
{
    lemma_count_chars_step(text, i);
    lemma_count_chars_prefix(text, i + 1, j);
}

/// Of two line starts, the later has more line feeds before it.
pub proof fn lemma_line_starts_increase(text: Seq<u8>, i: int, j: int)
    requires
        line_start(text, i),
        line_start(text, j),
        i < j,
    ensures
        count_lines(text.take(i)) < count_lines(text.take(j)),
{
    lemma_count_lines_step(text, j - 1);
    lemma_count_lines_prefix(text, i, j - 1);
}

/// Every count of characters up to the total is reached at some boundary.
pub proof fn lemma_char_boundary_exists(text: Seq<u8>, k: nat) -> (at: int)
    requires
        k <= count_chars(text),
        text.len() > 0 ==> starts_char(text[0]),
    ensures
        char_boundary(text, at),
        count_chars(text.take(at)) == k,
    decreases text.len(),
{
    if k == count_chars(text) {
        assert(text.take(text.len() as int) =~= text);
        text.len() as int
    } else {
        let rest = text.drop_last();
        let last = text.len() - 1;
        if starts_char(text.last()) && k == count_chars(rest) {
            assert(text.take(last) =~= rest);
            last
        } else {
            assert(rest.len() > 0) by {
                if rest.len() == 0 {
                    assert(count_chars(rest) == 0);
                }
            }
            let at = lemma_char_boundary_exists(rest, k);
            assert(rest.take(at) =~= text.take(at));
            if at == rest.len() {
                assert(rest.take(at) =~= rest);
            }
            at
        }
    }
}

/// Every count of line feeds up to the total is reached at some line start.
pub proof fn lemma_line_start_exists(text: Seq<u8>, k: nat) -> (at: int)
    requires
        k <= count_lines(text),
    ensures
        line_start(text, at),
        count_lines(text.take(at)) == k,
    decreases text.len(),
{
    if k == 0 {
        assert(text.take(0) =~= Seq::<u8>::empty());
        0
    } else {
        let rest = text.drop_last();
        if ends_line(text.last()) && k == count_lines(text) {
            assert(text.take(text.len() as int) =~= text);
            text.len() as int
        } else {
            let at = lemma_line_start_exists(rest, k);
            assert(rest.take(at) =~= text.take(at));
            at
        }
    }
}

/// A line feed is one whole character, so a line starts on a character boundary.
pub proof fn lemma_line_start_is_boundary(text: Seq<u8>, at: int)
    requires
        valid_utf8(text),
        line_start(text, at),
    ensures
        char_boundary(text, at),
{
    if at == 0 {
        if text.len() > 0 {
            lemma_valid_starts_char(text);
        }
    } else if at < text.len() {
        // The byte before `at` is a whole character, so `at - 1` and `at` both
        // fall between characters.
        is_char_boundary_iff_is_leading_byte(text, at - 1);
        lemma_char_boundary_is_std(text, at - 1);
        lemma_valid_cut(text, at - 1);
        let tail = text.skip(at - 1);
        assert(tail[0] == text[at - 1]);
        assert(tail.len() >= 2);
        assert(length_of_first_scalar(tail) == 1);
        let after = pop_first_scalar(tail);
        assert(after =~= text.skip(at));
        assert(valid_utf8(after));
        lemma_valid_starts_char(after);
        assert(after[0] == text[at]);
    }
}

/// Decoding valid UTF-8 gives as many characters as there are bytes that
/// start one.
pub proof fn lemma_count_chars_decoded(text: Seq<u8>)
    requires
        valid_utf8(text),
    ensures
        count_chars(text) == decode_utf8(text).len(),
    decreases text.len(),
{
    if text.len() > 0 {
        let first = take_first_scalar(text);
        let rest = pop_first_scalar(text);
        assert(text =~= first + rest);
        lemma_count_chars_concat(first, rest);
        lemma_count_chars_decoded(rest);
        reveal_with_fuel(count_chars, 5);
        assert(count_chars(first) == 1) by {
            let n = first.len();
            assert(first.drop_last().len() == n - 1);
            if n >= 2 {
                assert(first.drop_last().drop_last().len() == n - 2);
                assert(first.drop_last().last() == first[n - 2]);
            }
            if n >= 3 {
                assert(first.drop_last().drop_last().drop_last().len() == n - 3);
                assert(first.drop_last().drop_last().last() == first[n - 3]);
            }
            if n >= 4 {
                assert(first.drop_last().drop_last().drop_last().last() == first[n - 4]);
            }
        }
    } else {
        assert(decode_utf8(text) =~= Seq::<char>::empty());
    }
}

/// The number of line feed characters in `chars`.
pub open spec fn count_line_feeds(chars: Seq<char>) -> nat
    decreases chars.len(),
{
    if chars.len() == 0 {
        0
    } else {
        count_line_feeds(chars.drop_last()) + if chars.last() == '\n' {
            1nat
        } else {
            0nat
        }
    }
}

/// The line feed characters of a concatenation are those of its two parts.
pub proof fn lemma_count_line_feeds_concat(a: Seq<char>, b: Seq<char>)
    ensures
        count_line_feeds(a + b) == count_line_feeds(a) + count_line_feeds(b),
    decreases b.len(),
{
    if b.len() == 0 {
        assert(a + b =~= a);
    } else {
        assert((a + b).drop_last() =~= a + b.drop_last());
        lemma_count_line_feeds_concat(a, b.drop_last());
    }
}

/// The line feed character is encoded as the line feed byte alone.
proof fn lemma_encode_line_feed()
    ensures
        vstd::utf8::encode_scalar('\n' as u32) == seq![LINE_FEED],
{
    assert(('\n' as u32) == 10u32);
    assert((10u32 & 0x7F) as u8 == 10u8) by (bit_vector);
}

/// The first character of valid UTF-8 is a line feed exactly when its
/// first byte is one, and no other byte of its encoding is.
proof fn lemma_first_scalar_line_feed(text: Seq<u8>)
    requires
        valid_utf8(text),
        text.len() > 0,
    ensures
        count_lines(take_first_scalar(text)) == if (vstd::utf8::decode_first_scalar(text) as char)
            == '\n' {
            1nat
        } else {
            0nat
        },
{
    let first = take_first_scalar(text);
    let u = vstd::utf8::decode_first_scalar(text);
    let c = u as char;
    let n = first.len();
    vstd::utf8::decode_utf8_first_scalar(text);
    lemma_encode_line_feed();
    reveal_with_fuel(count_lines, 5);
    assert(first.drop_last().len() == n - 1);
    if n == 1 {
        assert(first.drop_last() =~= Seq::<u8>::empty());
        assert(first.last() == text[0]);
        if text[0] == LINE_FEED {
            assert((10u8 & 0x7f) as u32 == 10u32) by (bit_vector);
            vstd::utf8::char_u32_cast('\n', u);
        } else if c == '\n' {
            assert(first =~= seq![LINE_FEED]);
        }
    } else {
        assert(first.drop_last().last() == first[n - 2]);
        assert(first.drop_last().drop_last().len() == n - 2);
        if n >= 3 {
            assert(first.drop_last().drop_last().last() == first[n - 3]);
            assert(first.drop_last().drop_last().drop_last().len() == n - 3);
        }
        if n >= 4 {
            assert(first.drop_last().drop_last().drop_last().last() == first[n - 4]);
        }
        assert(count_lines(first) == 0);
        if c == '\n' {
            assert(first.len() == seq![LINE_FEED].len());
        }
    }
}

/// The line feed bytes of valid UTF-8 are its line feed characters: no
/// other character has a line feed byte in its encoding.
pub proof fn lemma_count_lines_decoded(text: Seq<u8>)
    requires
        valid_utf8(text),
    ensures
        count_lines(text) == count_line_feeds(decode_utf8(text)),
    decreases text.len(),
{
    if text.len() > 0 {
        let first = take_first_scalar(text);
        let rest = pop_first_scalar(text);
        let c = vstd::utf8::decode_first_scalar(text) as char;
        assert(text =~= first + rest);
        lemma_count_lines_concat(first, rest);
        lemma_count_lines_decoded(rest);
        lemma_first_scalar_line_feed(text);
        assert(decode_utf8(text) =~= seq![c] + decode_utf8(rest));
        lemma_count_line_feeds_concat(seq![c], decode_utf8(rest));
        reveal_with_fuel(count_line_feeds, 2);
        assert(seq![c].drop_last() =~= Seq::<char>::empty());
    } else {
        assert(decode_utf8(text) =~= Seq::<char>::empty());
    }
}

} // verus!
