//! Sequences read off the fragments of a text.
//!
//! The fragments of a rope or of a slice, left to right, are the one walk
//! over the tree. Bytes, characters and characters with their offsets are
//! all read off that walk, fragment by fragment.

use vstd::prelude::*;
use vstd::std_specs::iter::IteratorSpec;
use vstd::string::StringExecFns;
use vstd::utf8::{encode_utf8, valid_utf8};
use crate::metric::{byte_index, is_char_start, lemma_byte_index_is, Chars, Lines, Metric};
use crate::text::{
    char_boundary, count_chars, count_lines, ends_line, lemma_count_chars_concat,
    lemma_count_chars_decoded, lemma_count_chars_step, lemma_count_lines_step, line_start,
    LINE_FEED,
};

verus! {

/// The bytes of a sequence of fragments, one after the other.
pub open spec fn flatten(frags: Seq<&str>) -> Seq<u8>
    decreases frags.len(),
{
    if frags.len() == 0 {
        Seq::empty()
    } else {
        flatten(frags.drop_last()) + encode_utf8(frags.last()@)
    }
}

/// The text of each of the fragments.
pub open spec fn texts(frags: Seq<&str>) -> Seq<Seq<char>> {
    Seq::new(frags.len(), |i: int| frags[i]@)
}

/// The characters of a sequence of fragments, one after the other.
pub open spec fn flatten_chars(frags: Seq<&str>) -> Seq<char>
    decreases frags.len(),
{
    if frags.len() == 0 {
        Seq::empty()
    } else {
        flatten_chars(frags.drop_last()) + frags.last()@
    }
}

/// One more fragment adds its bytes and its characters at the end.
pub proof fn lemma_flatten_push(frags: Seq<&str>, last: &str)
    ensures
        flatten(frags.push(last)) == flatten(frags) + encode_utf8(last@),
        flatten_chars(frags.push(last)) == flatten_chars(frags) + last@,
{
    assert(frags.push(last).drop_last() =~= frags);
}

/// The bytes of two sequences of fragments, one after the other.
pub proof fn lemma_flatten_concat(a: Seq<&str>, b: Seq<&str>)
    ensures
        flatten(a + b) == flatten(a) + flatten(b),
    decreases b.len(),
{
    if b.len() == 0 {
        assert(a + b =~= a);
        assert(flatten(a) + flatten(b) =~= flatten(a));
    } else {
        assert((a + b).drop_last() =~= a + b.drop_last());
        lemma_flatten_concat(a, b.drop_last());
        assert(flatten(a + b) =~= flatten(a) + flatten(b));
    }
}

/// Encoding a concatenation is concatenating the encodings.
pub proof fn lemma_encode_concat(a: Seq<char>, b: Seq<char>)
    ensures
        encode_utf8(a + b) == encode_utf8(a) + encode_utf8(b),
    decreases a.len(),
{
    if a.len() == 0 {
        assert(a + b =~= b);
        assert(encode_utf8(a) + encode_utf8(b) =~= encode_utf8(b));
    } else {
        assert((a + b).drop_first() =~= a.drop_first() + b);
        lemma_encode_concat(a.drop_first(), b);
        assert(encode_utf8(a + b) =~= encode_utf8(a) + encode_utf8(b));
    }
}

/// The bytes of the fragments are the encoding of their characters.
pub proof fn lemma_flatten_encodes(frags: Seq<&str>)
    ensures
        flatten(frags) == encode_utf8(flatten_chars(frags)),
    decreases frags.len(),
{
    if frags.len() > 0 {
        lemma_flatten_encodes(frags.drop_last());
        lemma_encode_concat(flatten_chars(frags.drop_last()), frags.last()@);
    }
}

/// The bytes of the fragments before the `k`-th are the first bytes of the
/// bytes of them all.
pub proof fn lemma_flatten_prefix(frags: Seq<&str>, k: int)
    requires
        0 <= k <= frags.len(),
    ensures
        flatten(frags.take(k)).len() <= flatten(frags).len(),
        flatten(frags.take(k)) == flatten(frags).take(flatten(frags.take(k)).len() as int),
{
    assert(frags =~= frags.take(k) + frags.skip(k));
    lemma_flatten_concat(frags.take(k), frags.skip(k));
    assert(flatten(frags.take(k)) =~= flatten(frags).take(flatten(frags.take(k)).len() as int));
}

/// The bytes up to and with one fragment are those before it and its own.
pub proof fn lemma_flatten_step(frags: Seq<&str>, i: int)
    requires
        0 <= i < frags.len(),
    ensures
        flatten(frags.take(i + 1)).len() == flatten(frags.take(i)).len() + encode_utf8(
            frags[i]@,
        ).len(),
        flatten(frags.take(i + 1)).len() <= flatten(frags).len(),
{
    assert(frags.take(i + 1) =~= frags.take(i).push(frags[i]));
    lemma_flatten_push(frags.take(i), frags[i]);
    lemma_flatten_prefix(frags, i + 1);
}

/// Where the bytes of one fragment lie in the bytes of them all.
pub proof fn lemma_flatten_index(frags: Seq<&str>, i: int, x: int)
    requires
        0 <= i < frags.len(),
        0 <= x < encode_utf8(frags[i]@).len(),
    ensures
        flatten(frags.take(i + 1)).len() == flatten(frags.take(i)).len() + encode_utf8(
            frags[i]@,
        ).len(),
        flatten(frags.take(i + 1)).len() <= flatten(frags).len(),
        flatten(frags)[flatten(frags.take(i)).len() + x] == encode_utf8(frags[i]@)[x],
{
    assert(frags.take(i + 1) =~= frags.take(i).push(frags[i]));
    lemma_flatten_push(frags.take(i), frags[i]);
    lemma_flatten_prefix(frags, i + 1);
    let upto = flatten(frags.take(i + 1));
    let at = flatten(frags.take(i)).len() + x;
    assert(flatten(frags)[at] == flatten(frags).take(upto.len() as int)[at]);
}

/// The characters of one fragment.
pub fn chars_of_str(s: &str) -> (res: Vec<char>)
    ensures
        res@ == s@,
{
    broadcast use vstd::string::group_string_axioms;

    let mut out: Vec<char> = Vec::new();
    let mut it = s.chars();
    loop
        invariant
            out@ + it.remaining() == s@,
            it.obeys_prophetic_iter_laws(),
            it.decrease() is Some,
        ensures
            out@ == s@,
        decreases it.decrease()->0,
    {
        match it.next() {
            Some(c) => {
                out.push(c);
                assert(out@ + it.remaining() =~= s@);
            },
            None => {
                assert(out@ + it.remaining() =~= out@);
                break ;
            },
        }
    }
    out
}

/// The fragments joined into one string.
pub fn join(frags: &[&str]) -> (res: String)
    ensures
        res@ == flatten_chars(frags@),
{
    let mut text = String::new();
    let mut i: usize = 0;
    while i < frags.len()
        invariant
            i <= frags.len(),
            text@ == flatten_chars(frags@.take(i as int)),
        decreases frags.len() - i,
    {
        proof {
            assert(frags@.take(i + 1) =~= frags@.take(i as int).push(frags@[i as int]));
            lemma_flatten_push(frags@.take(i as int), frags@[i as int]);
        }
        text.append(frags[i]);
        i = i + 1;
    }
    assert(frags@.take(i as int) =~= frags@);
    text
}

/// The bytes of the fragments, one fragment after the other.
pub fn bytes_of(frags: &[&str]) -> (res: Vec<u8>)
    ensures
        res@ == flatten(frags@),
{
    let mut out: Vec<u8> = Vec::new();
    let mut i: usize = 0;
    while i < frags.len()
        invariant
            i <= frags.len(),
            out@ == flatten(frags@.take(i as int)),
        decreases frags.len() - i,
    {
        let bytes = frags[i].as_bytes();
        let ghost before = out@;
        let mut x: usize = 0;
        while x < bytes.len()
            invariant
                x <= bytes.len(),
                out@ == before + bytes@.take(x as int),
            decreases bytes.len() - x,
        {
            out.push(bytes[x]);
            assert(bytes@.take(x + 1) =~= bytes@.take(x as int).push(bytes@[x as int]));
            x = x + 1;
        }
        proof {
            assert(bytes@.take(x as int) =~= bytes@);
            assert(frags@.take(i + 1) =~= frags@.take(i as int).push(frags@[i as int]));
            lemma_flatten_push(frags@.take(i as int), frags@[i as int]);
        }
        i = i + 1;
    }
    assert(frags@.take(i as int) =~= frags@);
    out
}

/// The characters of the fragments, one fragment after the other.
pub fn chars_of(frags: &[&str]) -> (res: Vec<char>)
    ensures
        res@ == flatten_chars(frags@),
{
    let mut out: Vec<char> = Vec::new();
    let mut i: usize = 0;
    while i < frags.len()
        invariant
            i <= frags.len(),
            out@ == flatten_chars(frags@.take(i as int)),
        decreases frags.len() - i,
    {
        let mut chars = chars_of_str(frags[i]);
        proof {
            assert(frags@.take(i + 1) =~= frags@.take(i as int).push(frags@[i as int]));
            lemma_flatten_push(frags@.take(i as int), frags@[i as int]);
        }
        out.append(&mut chars);
        i = i + 1;
    }
    assert(frags@.take(i as int) =~= frags@);
    out
}

/// Appends to `out` the characters of `frag`, each with its byte offset in
/// `text`, where `frag` lies at offset `base`.
fn push_char_indices(
    frag: &str,
    base: usize,
    out: &mut Vec<(usize, char)>,
    Ghost(text): Ghost<Seq<u8>>,
)
    requires
        base + encode_utf8(frag@).len() <= text.len() <= usize::MAX,
        text.subrange(base as int, base + encode_utf8(frag@).len()) == encode_utf8(frag@),
        old(out)@.len() == count_chars(text.take(base as int)),
    ensures
        final(out)@.len() == old(out)@.len() + frag@.len(),
        final(out)@.len() == count_chars(text.take(base + encode_utf8(frag@).len())),
        forall|n: int| 0 <= n < old(out)@.len() ==> final(out)@[n] == old(out)@[n],
        forall|n: int|
            old(out)@.len() <= n < final(out)@.len() ==> (#[trigger] final(out)@[n]).1 == frag@[n
                - old(out)@.len()] && byte_index::<Chars>(text, n as nat) == Some(
                final(out)@[n].0 as int,
            ),
{
    let chars = chars_of_str(frag);
    let bytes = frag.as_bytes();
    let ghost before = out@;
    proof {
        vstd::utf8::encode_utf8_valid_utf8(frag@);
        vstd::utf8::encode_utf8_decode_utf8(frag@);
        lemma_count_chars_decoded(bytes@);
        assert(bytes@.take(0) =~= Seq::<u8>::empty());
    }
    let total = chars.len();
    let mut x: usize = 0;
    let mut k: usize = 0;
    while x < bytes.len()
        invariant
            x <= bytes.len(),
            total == chars@.len(),
            k <= chars@.len(),
            k == count_chars(bytes@.take(x as int)),
            chars@.len() == count_chars(bytes@),
            base + bytes@.len() <= text.len() <= usize::MAX,
            text.subrange(base as int, base + bytes@.len()) == bytes@,
            before.len() == count_chars(text.take(base as int)),
            out@.len() == before.len() + k,
            forall|n: int| 0 <= n < before.len() ==> out@[n] == before[n],
            forall|n: int|
                before.len() <= n < out@.len() ==> (#[trigger] out@[n]).1 == chars@[n
                    - before.len()] && byte_index::<Chars>(text, n as nat) == Some(
                    out@[n].0 as int,
                ),
        decreases bytes.len() - x,
    {
        proof {
            lemma_count_chars_step(bytes@, x as int);
            crate::text::lemma_count_chars_prefix(bytes@, x + 1, bytes@.len() as int);
            assert(bytes@.take(bytes@.len() as int) =~= bytes@);
        }
        if is_char_start(bytes[x]) {
            proof {
                let p = base + x;
                assert(text[p] == text.subrange(base as int, base + bytes@.len())[x as int]);
                assert(text.take(p) =~= text.take(base as int) + bytes@.take(x as int));
                lemma_count_chars_concat(text.take(base as int), bytes@.take(x as int));
                lemma_byte_index_is::<Chars>(text, (before.len() + k) as nat, p);
            }
            out.push((base + x, chars[k]));
            k = k + 1;
        }
        x = x + 1;
    }
    proof {
        assert(bytes@.take(x as int) =~= bytes@);
        assert(text.take(base + bytes@.len()) =~= text.take(base as int) + bytes@);
        lemma_count_chars_concat(text.take(base as int), bytes@);
    }
}

/// The characters of the fragments, each with the byte offset at which it
/// starts in the text that the fragments make up.
pub fn char_indices_of(frags: &[&str]) -> (res: Vec<(usize, char)>)
    requires
        flatten(frags@).len() <= usize::MAX,
    ensures
        res@.len() == flatten_chars(frags@).len(),
        forall|n: int|
            0 <= n < res@.len() ==> (#[trigger] res@[n]).1 == flatten_chars(frags@)[n]
                && byte_index::<Chars>(flatten(frags@), n as nat) == Some(res@[n].0 as int),
{
    let ghost text = flatten(frags@);
    let mut out: Vec<(usize, char)> = Vec::new();
    let mut base: usize = 0;
    let mut i: usize = 0;
    proof {
        assert(text.take(0) =~= Seq::<u8>::empty());
    }
    while i < frags.len()
        invariant
            i <= frags.len(),
            text == flatten(frags@),
            text.len() <= usize::MAX,
            base == flatten(frags@.take(i as int)).len(),
            out@.len() == flatten_chars(frags@.take(i as int)).len(),
            out@.len() == count_chars(text.take(base as int)),
            forall|n: int|
                0 <= n < out@.len() ==> (#[trigger] out@[n]).1 == flatten_chars(
                    frags@.take(i as int),
                )[n] && byte_index::<Chars>(text, n as nat) == Some(out@[n].0 as int),
        decreases frags.len() - i,
    {
        let frag = frags[i];
        let ghost upto = flatten(frags@.take(i + 1));
        let ghost size = encode_utf8(frag@).len();
        proof {
            assert(frags@.take(i + 1) =~= frags@.take(i as int).push(frag));
            lemma_flatten_push(frags@.take(i as int), frag);
            lemma_flatten_prefix(frags@, i + 1);
            assert(upto.subrange(base as int, base + size) =~= encode_utf8(frag@));
            assert(text.subrange(base as int, base + size) =~= upto.subrange(
                base as int,
                base + size,
            ));
        }
        push_char_indices(frag, base, &mut out, Ghost(text));
        base = base + frag.as_bytes().len();
        i = i + 1;
    }
    assert(frags@.take(i as int) =~= frags@);
    out
}

/// The number of lines of `text`: one for each line feed, and one more for
/// what follows the last line feed if anything does.
pub open spec fn line_count(text: Seq<u8>) -> nat {
    if text.len() > 0 && !ends_line(text.last()) {
        count_lines(text) + 1
    } else {
        count_lines(text)
    }
}

/// The byte offset at which line `j` of `text` starts.
pub open spec fn line_begin(text: Seq<u8>, j: nat) -> int {
    byte_index::<Lines>(text, j)->0
}

/// The byte offset at which line `j` of `text` ends: that of the line feed
/// that ends it, or the end of the text.
pub open spec fn line_end(text: Seq<u8>, j: nat) -> int {
    if j < count_lines(text) {
        line_begin(text, j + 1) - 1
    } else {
        text.len() as int
    }
}

/// For each line of the text that the fragments make up, the byte offsets
/// at which it starts and ends. The line feed that ends a line is not part
/// of it.
pub fn line_spans_of(frags: &[&str]) -> (res: Vec<(usize, usize)>)
    requires
        flatten(frags@).len() <= usize::MAX,
    ensures
        res@.len() == line_count(flatten(frags@)),
        forall|j: int|
            0 <= j < res@.len() ==> {
                &&& (#[trigger] res@[j]).0 == line_begin(flatten(frags@), j as nat)
                &&& res@[j].1 == line_end(flatten(frags@), j as nat)
                &&& res@[j].0 <= res@[j].1 <= flatten(frags@).len()
                &&& line_start(flatten(frags@), res@[j].0 as int)
                &&& char_boundary(flatten(frags@), res@[j].1 as int)
            },
{
    let ghost text = flatten(frags@);
    let mut out: Vec<(usize, usize)> = Vec::new();
    let mut cur: usize = 0;
    let mut base: usize = 0;
    let mut i: usize = 0;
    proof {
        assert(text.take(0) =~= Seq::<u8>::empty());
        lemma_byte_index_is::<Lines>(text, 0, 0);
    }
    while i < frags.len()
        invariant
            i <= frags.len(),
            text == flatten(frags@),
            text.len() <= usize::MAX,
            base == flatten(frags@.take(i as int)).len(),
            base <= text.len(),
            cur <= base,
            line_start(text, cur as int),
            out@.len() == count_lines(text.take(cur as int)),
            out@.len() == count_lines(text.take(base as int)),
            forall|j: int|
                0 <= j < out@.len() ==> {
                    &&& (#[trigger] out@[j]).0 == line_begin(text, j as nat)
                    &&& out@[j].1 == line_begin(text, (j + 1) as nat) - 1
                    &&& out@[j].0 <= out@[j].1 < text.len()
                    &&& line_start(text, out@[j].0 as int)
                    &&& ends_line(text[out@[j].1 as int])
                },
            byte_index::<Lines>(text, out@.len() as nat) == Some(cur as int),
        decreases frags.len() - i,
    {
        let bytes = frags[i].as_bytes();
        let ghost upto = flatten(frags@.take(i + 1));
        proof {
            assert(frags@.take(i + 1) =~= frags@.take(i as int).push(frags@[i as int]));
            lemma_flatten_push(frags@.take(i as int), frags@[i as int]);
            lemma_flatten_prefix(frags@, i + 1);
            assert(upto.subrange(base as int, base + bytes@.len()) =~= bytes@);
            assert(text.subrange(base as int, base + bytes@.len()) =~= bytes@);
        }
        let mut x: usize = 0;
        while x < bytes.len()
            invariant
                x <= bytes.len(),
                base + bytes@.len() <= text.len() <= usize::MAX,
                text.subrange(base as int, base + bytes@.len()) == bytes@,
                cur <= base + x,
                line_start(text, cur as int),
                out@.len() == count_lines(text.take(cur as int)),
                out@.len() == count_lines(text.take(base + x)),
                forall|j: int|
                    0 <= j < out@.len() ==> {
                        &&& (#[trigger] out@[j]).0 == line_begin(text, j as nat)
                        &&& out@[j].1 == line_begin(text, (j + 1) as nat) - 1
                        &&& out@[j].0 <= out@[j].1 < text.len()
                        &&& line_start(text, out@[j].0 as int)
                        &&& ends_line(text[out@[j].1 as int])
                    },
                byte_index::<Lines>(text, out@.len() as nat) == Some(cur as int),
            decreases bytes.len() - x,
        {
            let ghost p = base + x;
            proof {
                assert(text[p] == text.subrange(base as int, base + bytes@.len())[x as int]);
                lemma_count_lines_step(text, p);
            }
            if bytes[x] == LINE_FEED {
                proof {
                    lemma_byte_index_is::<Lines>(text, (out@.len() + 1) as nat, p + 1);
                }
                out.push((cur, base + x));
                cur = base + x + 1;
            }
            x = x + 1;
        }
        base = base + bytes.len();
        i = i + 1;
    }
    proof {
        assert(frags@.take(i as int) =~= frags@);
        assert(text.take(base as int) =~= text);
        if cur < base {
            // What follows the last line feed is a line of its own.
            if ends_line(text.last()) {
                lemma_byte_index_is::<Lines>(text, count_lines(text), text.len() as int);
            }
        } else if text.len() > 0 {
            assert(ends_line(text[cur - 1]));
        }
    }
    if cur < base {
        out.push((cur, base));
    }
    out
}

/// True when `(i, x)` is a place in the fragments: byte `x` of fragment
/// `i`, or the end of them all.
pub open spec fn is_place(frags: Seq<&str>, i: int, x: int) -> bool {
    &&& 0 <= i <= frags.len()
    &&& i < frags.len() ==> 0 <= x < encode_utf8(frags[i]@).len()
    &&& i == frags.len() ==> x == 0
}

/// The offset of the place `(i, x)` in the text that the fragments make up.
pub open spec fn place_offset(frags: Seq<&str>, i: int, x: int) -> int {
    flatten(frags.take(i)).len() + x
}

/// Moves on from the end of a fragment, over the empty fragments that
/// follow, to the first byte after it: the place that lies at the same
/// offset.
pub fn settle(frags: &[&str], i: usize, x: usize) -> (res: (usize, usize))
    requires
        i <= frags@.len(),
        i < frags@.len() ==> x <= encode_utf8(frags@[i as int]@).len(),
        i == frags@.len() ==> x == 0,
    ensures
        is_place(frags@, res.0 as int, res.1 as int),
        place_offset(frags@, res.0 as int, res.1 as int) == place_offset(
            frags@,
            i as int,
            x as int,
        ),
{
    let ghost start = place_offset(frags@, i as int, x as int);
    let mut at = i;
    let mut byte = x;
    while at < frags.len() && byte == frags[at].as_bytes().len()
        invariant
            at <= frags@.len(),
            at < frags@.len() ==> byte <= encode_utf8(frags@[at as int]@).len(),
            at == frags@.len() ==> byte == 0,
            place_offset(frags@, at as int, byte as int) == start,
        decreases frags@.len() - at,
    {
        proof {
            lemma_flatten_step(frags@, at as int);
        }
        at = at + 1;
        byte = 0;
    }
    (at, byte)
}

/// Tells whether two sequences of fragments make up the same text. The two
/// are walked in step, byte by byte, and the walk ends at the first byte
/// that differs.
pub fn fragments_eq(a: &[&str], b: &[&str]) -> (res: bool)
    ensures
        res == (flatten(a@) == flatten(b@)),
{
    let ghost left = flatten(a@);
    let ghost right = flatten(b@);
    proof {
        assert(a@.take(0) =~= Seq::<&str>::empty());
        assert(b@.take(0) =~= Seq::<&str>::empty());
    }
    let (mut i, mut x) = settle(a, 0, 0);
    let (mut j, mut y) = settle(b, 0, 0);
    while i < a.len() && j < b.len()
        invariant
            left == flatten(a@),
            right == flatten(b@),
            is_place(a@, i as int, x as int),
            is_place(b@, j as int, y as int),
            place_offset(a@, i as int, x as int) == place_offset(b@, j as int, y as int),
            place_offset(a@, i as int, x as int) <= left.len(),
            place_offset(b@, j as int, y as int) <= right.len(),
            left.take(place_offset(a@, i as int, x as int)) == right.take(
                place_offset(b@, j as int, y as int),
            ),
        decreases left.len() - place_offset(a@, i as int, x as int),
    {
        let ghost p = place_offset(a@, i as int, x as int);
        proof {
            lemma_flatten_index(a@, i as int, x as int);
            lemma_flatten_index(b@, j as int, y as int);
        }
        if a[i].as_bytes()[x] != b[j].as_bytes()[y] {
            assert(left[p] != right[p]);
            return false;
        }
        proof {
            assert(left.take(p + 1) =~= left.take(p).push(left[p]));
            assert(right.take(p + 1) =~= right.take(p).push(right[p]));
        }
        let next = settle(a, i, x + 1);
        i = next.0;
        x = next.1;
        let next = settle(b, j, y + 1);
        j = next.0;
        y = next.1;
    }
    proof {
        let p = place_offset(a@, i as int, x as int);
        if i == a@.len() {
            assert(a@.take(i as int) =~= a@);
            assert(left.take(p) =~= left);
        } else {
            lemma_flatten_index(a@, i as int, x as int);
        }
        if j == b@.len() {
            assert(b@.take(j as int) =~= b@);
            assert(right.take(p) =~= right);
        } else {
            lemma_flatten_index(b@, j as int, y as int);
        }
    }
    i == a.len() && j == b.len()
}

/// The bytes of fragments are valid UTF-8.
pub proof fn lemma_flatten_valid(frags: Seq<&str>)
    ensures
        valid_utf8(flatten(frags)),
    decreases frags.len(),
{
    if frags.len() > 0 {
        lemma_flatten_valid(frags.drop_last());
        vstd::utf8::encode_utf8_valid_utf8(frags.last()@);
        vstd::utf8::valid_utf8_concat(flatten(frags.drop_last()), encode_utf8(frags.last()@));
    }
}

/// The byte offset of position `index` in the text that the fragments make
/// up, or `None` when the text is shorter than that.
pub fn byte_index_in<M: Metric>(frags: &[&str], index: M) -> (res: Option<usize>)
    requires
        flatten(frags@).len() <= usize::MAX,
    ensures
        res is None <==> index.value() > M::measure_of(flatten(frags@)),
        match res {
            Some(at) => byte_index::<M>(flatten(frags@), index.value()) == Some(at as int),
            None => byte_index::<M>(flatten(frags@), index.value()) is None,
        },
{
    let ghost text = flatten(frags@);
    let ghost k = index.value();
    proof {
        lemma_flatten_valid(frags@);
        crate::metric::lemma_byte_index_exists::<M>(text, k);
        crate::metric::lemma_byte_index_zero::<M>(text);
        assert(frags@.take(0) =~= Seq::<&str>::empty());
        M::lemma_measure_bound(Seq::<u8>::empty());
    }
    if index.le(M::zero()) {
        return Some(0);
    }
    let mut rest = index;
    let mut base: usize = 0;
    let mut i: usize = 0;
    while i < frags.len()
        invariant
            i <= frags.len(),
            text == flatten(frags@),
            text.len() <= usize::MAX,
            k == index.value(),
            base == flatten(frags@.take(i as int)).len(),
            k == M::measure_of(flatten(frags@.take(i as int))) + rest.value(),
            rest.value() > 0,
        decreases frags.len() - i,
    {
        let frag = frags[i];
        let ghost head = flatten(frags@.take(i as int));
        let ghost tail = flatten(frags@.skip(i + 1));
        proof {
            assert(frags@.take(i + 1) =~= frags@.take(i as int).push(frag));
            lemma_flatten_push(frags@.take(i as int), frag);
            assert(frags@ =~= frags@.take(i + 1) + frags@.skip(i + 1));
            lemma_flatten_concat(frags@.take(i + 1), frags@.skip(i + 1));
            lemma_flatten_valid(frags@.take(i as int));
            lemma_flatten_valid(frags@.take(i + 1));
            lemma_flatten_valid(frags@.skip(i + 1));
            vstd::utf8::encode_utf8_valid_utf8(frag@);
            // The text is what lies before the fragment, the fragment, and
            // what lies after it.
            crate::metric::lemma_byte_index_concat::<M>(head + encode_utf8(frag@), tail, k);
            crate::metric::lemma_byte_index_concat::<M>(head, encode_utf8(frag@), k);
            M::lemma_measure_concat(head, encode_utf8(frag@));
            M::lemma_measure_concat(head + encode_utf8(frag@), tail);
        }
        match M::str_to_byte_index(frag, rest) {
            Some(at) => {
                proof {
                    crate::metric::lemma_byte_index_is::<M>(
                        encode_utf8(frag@),
                        rest.value(),
                        at as int,
                    );
                    M::lemma_position_range(encode_utf8(frag@), at as int);
                }
                return Some(base + at);
            },
            None => {
                rest = rest.minus(M::measure_str(frag));
                base = base + frag.as_bytes().len();
                i = i + 1;
            },
        }
    }
    proof {
        assert(frags@.take(i as int) =~= frags@);
    }
    None
}

} // verus!
