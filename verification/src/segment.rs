//! Words, grapheme clusters and the like.
//!
//! Where the boundaries between grapheme clusters and between words fall is
//! for the Unicode tables to say. This module asks for them fragment by
//! fragment and puts the answers together: a piece never reaches across two
//! fragments, and an offset counts from the start of the whole text.

use unicode_segmentation::UnicodeSegmentation;
use vstd::prelude::*;
use vstd::utf8::encode_utf8;
use crate::walk::{flatten, lemma_flatten_push, texts};

verus! {

/// The extended grapheme clusters of `text`, in order.
pub uninterp spec fn grapheme_list(text: Seq<char>) -> Seq<Seq<char>>;

/// The extended grapheme clusters of `text`, each with its byte offset.
pub uninterp spec fn grapheme_index_list(text: Seq<char>) -> Seq<(int, Seq<char>)>;

/// The words of `text`: the pieces between word boundaries that hold a
/// letter or a digit.
pub uninterp spec fn unicode_word_list(text: Seq<char>) -> Seq<Seq<char>>;

/// The pieces of `text` between word boundaries.
pub uninterp spec fn word_bound_list(text: Seq<char>) -> Seq<Seq<char>>;

/// The pieces of `text` between word boundaries, each with its byte offset.
pub uninterp spec fn word_bound_index_list(text: Seq<char>) -> Seq<(int, Seq<char>)>;

/// The pieces of `text` between runs of white space.
pub uninterp spec fn whitespace_split_list(text: Seq<char>) -> Seq<Seq<char>>;

/// Offsets and texts of pieces that come with their offsets.
pub open spec fn indexed(items: Seq<(usize, &str)>) -> Seq<(int, Seq<char>)> {
    Seq::new(items.len(), |i: int| (items[i].0 as int, items[i].1@))
}

/// `UnicodeSegmentation::graphemes` with extended clusters: the grapheme
/// clusters of `s`, in order.
#[verifier::external_body]
fn graphemes_of_str<'a>(s: &'a str) -> (res: Vec<&'a str>)
    ensures
        texts(res@) == grapheme_list(s@),
{
    UnicodeSegmentation::graphemes(s, true).collect()
}

/// `UnicodeSegmentation::grapheme_indices` with extended clusters: the
/// grapheme clusters of `s` with their byte offsets. Each cluster lies
/// within `s`.
#[verifier::external_body]
fn grapheme_indices_of_str<'a>(s: &'a str) -> (res: Vec<(usize, &'a str)>)
    ensures
        indexed(res@) == grapheme_index_list(s@),
        forall|i: int|
            0 <= i < res@.len() ==> (#[trigger] res@[i]).0 + encode_utf8(res@[i].1@).len()
                <= encode_utf8(s@).len(),
{
    UnicodeSegmentation::grapheme_indices(s, true).collect()
}

/// `UnicodeSegmentation::unicode_words`: the words of `s`, in order.
#[verifier::external_body]
fn unicode_words_of_str<'a>(s: &'a str) -> (res: Vec<&'a str>)
    ensures
        texts(res@) == unicode_word_list(s@),
{
    UnicodeSegmentation::unicode_words(s).collect()
}

/// `UnicodeSegmentation::split_word_bounds`: the pieces of `s` between word
/// boundaries, in order.
#[verifier::external_body]
fn word_bounds_of_str<'a>(s: &'a str) -> (res: Vec<&'a str>)
    ensures
        texts(res@) == word_bound_list(s@),
{
    UnicodeSegmentation::split_word_bounds(s).collect()
}

/// `UnicodeSegmentation::split_word_bound_indices`: the pieces of `s`
/// between word boundaries with their byte offsets. Each piece lies within
/// `s`.
#[verifier::external_body]
fn word_bound_indices_of_str<'a>(s: &'a str) -> (res: Vec<(usize, &'a str)>)
    ensures
        indexed(res@) == word_bound_index_list(s@),
        forall|i: int|
            0 <= i < res@.len() ==> (#[trigger] res@[i]).0 + encode_utf8(res@[i].1@).len()
                <= encode_utf8(s@).len(),
{
    UnicodeSegmentation::split_word_bound_indices(s).collect()
}

/// `str::split_whitespace`: the pieces of `s` between runs of white space,
/// in order.
#[verifier::external_body]
fn whitespace_split_of_str<'a>(s: &'a str) -> (res: Vec<&'a str>)
    ensures
        texts(res@) == whitespace_split_list(s@),
{
    s.split_whitespace().collect()
}

/// A way of cutting text into pieces.
#[derive(Clone, Copy, Debug, PartialEq, Eq)]
pub enum Pieces {
    /// Extended grapheme clusters.
    Graphemes,
    /// Words: the pieces between word boundaries that hold a letter or a digit.
    UnicodeWords,
    /// All the pieces between word boundaries.
    WordBounds,
    /// The pieces between runs of white space.
    Whitespace,
}

/// A way of cutting text into pieces that come with their byte offsets.
#[derive(Clone, Copy, Debug, PartialEq, Eq)]
pub enum IndexedPieces {
    /// Extended grapheme clusters.
    Graphemes,
    /// All the pieces between word boundaries.
    WordBounds,
}

impl Pieces {
    /// The pieces of one fragment.
    pub open spec fn list(self, text: Seq<char>) -> Seq<Seq<char>> {
        match self {
            Pieces::Graphemes => grapheme_list(text),
            Pieces::UnicodeWords => unicode_word_list(text),
            Pieces::WordBounds => word_bound_list(text),
            Pieces::Whitespace => whitespace_split_list(text),
        }
    }

    /// Cuts one fragment into pieces.
    fn cut<'a>(self, s: &'a str) -> (res: Vec<&'a str>)
        ensures
            texts(res@) == self.list(s@),
    {
        match self {
            Pieces::Graphemes => graphemes_of_str(s),
            Pieces::UnicodeWords => unicode_words_of_str(s),
            Pieces::WordBounds => word_bounds_of_str(s),
            Pieces::Whitespace => whitespace_split_of_str(s),
        }
    }
}

impl IndexedPieces {
    /// The pieces of one fragment with their byte offsets in it.
    pub open spec fn list(self, text: Seq<char>) -> Seq<(int, Seq<char>)> {
        match self {
            IndexedPieces::Graphemes => grapheme_index_list(text),
            IndexedPieces::WordBounds => word_bound_index_list(text),
        }
    }

    /// Cuts one fragment into pieces and gives each its byte offset in the
    /// fragment. Each piece lies within the fragment.
    fn cut<'a>(self, s: &'a str) -> (res: Vec<(usize, &'a str)>)
        ensures
            indexed(res@) == self.list(s@),
            forall|i: int|
                0 <= i < res@.len() ==> (#[trigger] res@[i]).0 + encode_utf8(res@[i].1@).len()
                    <= encode_utf8(s@).len(),
    {
        match self {
            IndexedPieces::Graphemes => grapheme_indices_of_str(s),
            IndexedPieces::WordBounds => word_bound_indices_of_str(s),
        }
    }
}

/// The number of bytes that the fragments encode to, all together.
pub open spec fn total_len(frags: Seq<Seq<char>>) -> nat
    decreases frags.len(),
{
    if frags.len() == 0 {
        0
    } else {
        total_len(frags.drop_last()) + encode_utf8(frags.last()).len()
    }
}

/// The pieces of each of the fragments, one fragment after the other.
pub open spec fn pieces_of(frags: Seq<Seq<char>>, kind: Pieces) -> Seq<Seq<char>>
    decreases frags.len(),
{
    if frags.len() == 0 {
        Seq::empty()
    } else {
        pieces_of(frags.drop_last(), kind) + kind.list(frags.last())
    }
}

/// The same pieces, each with `by` added to its offset.
pub open spec fn shifted(items: Seq<(int, Seq<char>)>, by: int) -> Seq<(int, Seq<char>)> {
    Seq::new(items.len(), |i: int| (items[i].0 + by, items[i].1))
}

/// The pieces of each of the fragments, one fragment after the other, with
/// the offsets that they have in the text that the fragments make up.
pub open spec fn indexed_pieces_of(frags: Seq<Seq<char>>, kind: IndexedPieces) -> Seq<
    (int, Seq<char>),
>
    decreases frags.len(),
{
    if frags.len() == 0 {
        Seq::empty()
    } else {
        indexed_pieces_of(frags.drop_last(), kind) + shifted(
            kind.list(frags.last()),
            total_len(frags.drop_last()) as int,
        )
    }
}

/// The fragments encode to as many bytes as their texts do.
pub proof fn lemma_total_len(frags: Seq<&str>)
    ensures
        total_len(texts(frags)) == flatten(frags).len(),
    decreases frags.len(),
{
    if frags.len() > 0 {
        assert(texts(frags).drop_last() =~= texts(frags.drop_last()));
        lemma_total_len(frags.drop_last());
    }
}

/// Cuts each fragment into pieces and hands back the pieces of them all.
pub fn pieces<'a>(frags: &[&'a str], kind: Pieces) -> (res: Vec<&'a str>)
    ensures
        texts(res@) == pieces_of(texts(frags@), kind),
{
    let mut out: Vec<&'a str> = Vec::new();
    let mut i: usize = 0;
    assert(texts(frags@.take(0)) =~= Seq::<Seq<char>>::empty());
    assert(texts(out@) =~= Seq::<Seq<char>>::empty());
    while i < frags.len()
        invariant
            i <= frags.len(),
            texts(out@) == pieces_of(texts(frags@.take(i as int)), kind),
        decreases frags.len() - i,
    {
        let mut found = kind.cut(frags[i]);
        proof {
            let upto = texts(frags@.take(i + 1));
            assert(upto.drop_last() =~= texts(frags@.take(i as int)));
            assert(upto.last() == frags@[i as int]@);
            assert(texts(out@ + found@) =~= texts(out@) + texts(found@));
        }
        out.append(&mut found);
        i = i + 1;
    }
    assert(frags@.take(i as int) =~= frags@);
    out
}

/// Appends the pieces `found` to `out`, each with `base` added to its
/// offset: the pieces of a fragment that lies at offset `base` of a text
/// become pieces of that text.
pub fn push_shifted<'a>(found: &[(usize, &'a str)], base: usize, out: &mut Vec<(usize, &'a str)>)
    requires
        forall|n: int| 0 <= n < found@.len() ==> base + (#[trigger] found@[n]).0 <= usize::MAX,
    ensures
        indexed(final(out)@) == indexed(old(out)@) + shifted(indexed(found@), base as int),
{
    let mut k: usize = 0;
    assert(indexed(out@) =~= indexed(old(out)@) + shifted(indexed(found@).take(0), base as int));
    while k < found.len()
        invariant
            k <= found.len(),
            forall|n: int| 0 <= n < found@.len() ==> base + (#[trigger] found@[n]).0 <= usize::MAX,
            indexed(out@) == indexed(old(out)@) + shifted(
                indexed(found@).take(k as int),
                base as int,
            ),
        decreases found.len() - k,
    {
        let (at, piece) = found[k];
        proof {
            assert(indexed(out@.push((((base + at) as usize), piece))) =~= indexed(out@)
                + seq![(base + at, piece@)]);
            assert(shifted(indexed(found@).take(k + 1), base as int) =~= shifted(
                indexed(found@).take(k as int),
                base as int,
            ) + seq![(base + at, piece@)]);
        }
        out.push((base + at, piece));
        k = k + 1;
    }
    assert(indexed(found@).take(k as int) =~= indexed(found@));
}

/// Cuts each fragment into pieces and hands back the pieces of them all,
/// each with its byte offset in the text that the fragments make up.
pub fn indexed_pieces<'a>(frags: &[&'a str], kind: IndexedPieces) -> (res: Vec<(usize, &'a str)>)
    requires
        flatten(frags@).len() <= usize::MAX,
    ensures
        indexed(res@) == indexed_pieces_of(texts(frags@), kind),
{
    let mut out: Vec<(usize, &'a str)> = Vec::new();
    let mut base: usize = 0;
    let mut i: usize = 0;
    assert(texts(frags@.take(0)) =~= Seq::<Seq<char>>::empty());
    assert(indexed(out@) =~= Seq::<(int, Seq<char>)>::empty());
    while i < frags.len()
        invariant
            i <= frags.len(),
            flatten(frags@).len() <= usize::MAX,
            base == flatten(frags@.take(i as int)).len(),
            indexed(out@) == indexed_pieces_of(texts(frags@.take(i as int)), kind),
        decreases frags.len() - i,
    {
        let frag = frags[i];
        let found = kind.cut(frag);
        proof {
            assert(frags@.take(i + 1) =~= frags@.take(i as int).push(frag));
            lemma_flatten_push(frags@.take(i as int), frag);
            crate::walk::lemma_flatten_prefix(frags@, i + 1);
            lemma_total_len(frags@.take(i as int));
            let upto = texts(frags@.take(i + 1));
            assert(upto.drop_last() =~= texts(frags@.take(i as int)));
            assert(upto.last() == frag@);
        }
        push_shifted(found.as_slice(), base, &mut out);
        base = base + frag.as_bytes().len();
        i = i + 1;
    }
    assert(frags@.take(i as int) =~= frags@);
    out
}

} // verus!
