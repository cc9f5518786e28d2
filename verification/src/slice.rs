//! A view of part of a rope.
//!
//! A [`RopeSlice`] borrows the tree of a rope together with a range of byte
//! offsets. It copies no text. Offsets handed to a slice count from its own
//! start; the slice adds its start before it goes down the tree.

use std::ops::Range;
use vstd::prelude::*;
use vstd::std_specs::cmp::PartialEqSpecImpl;
use vstd::utf8::{decode_utf8, encode_utf8, valid_utf8};
use crate::metric::{byte_index, Chars, Metric};
use crate::node::NodeLink;
use crate::rope::Rope;
use crate::segment::{
    indexed, indexed_pieces, indexed_pieces_of, pieces, pieces_of, IndexedPieces, Pieces,
};
use crate::text::{char_boundary, lemma_line_start_is_boundary, lemma_valid_cut};
use crate::walk::{
    byte_index_in, bytes_of, char_indices_of, chars_of, flatten, fragments_eq, line_begin,
    line_count, line_end, line_spans_of, texts,
};

verus! {

/// The bytes from offset `start` up to offset `end` of the text of a tree.
#[derive(Clone, Copy, Debug)]
pub struct RopeSlice<'a> {
    root: &'a NodeLink,
    start: usize,
    end: usize,
}

impl<'a> View for RopeSlice<'a> {
    type V = Seq<u8>;

    /// The bytes that the slice shows.
    closed spec fn view(&self) -> Seq<u8> {
        self.root@.subrange(self.start as int, self.end as int)
    }
}

impl<'a> RopeSlice<'a> {
    /// True when the slice lies within its tree and starts and ends between
    /// characters. Every slice that executable code holds does.
    #[verifier::type_invariant]
    pub closed spec fn wf(&self) -> bool {
        &&& self.root.wf()
        &&& self.start <= self.end <= self.root@.len()
        &&& char_boundary(self.root@, self.start as int)
        &&& char_boundary(self.root@, self.end as int)
    }

    /// The fragments that the text of the slice is kept in, left to right.
    pub closed spec fn fragments(&self) -> Seq<Seq<char>> {
        self.root.fragments_between(self.start as int, self.end as int)
    }

    /// The characters that the slice shows.
    pub open spec fn text(&self) -> Seq<char> {
        decode_utf8(self@)
    }

    /// What a slice shows is valid UTF-8 of a length that `usize` holds.
    pub proof fn lemma_valid(&self)
        requires
            self.wf(),
        ensures
            valid_utf8(self@),
            self@.len() <= usize::MAX,
    {
        self.root.lemma_valid();
        lemma_valid_cut(self.root@, self.end as int);
        let upto = self.root@.take(self.end as int);
        lemma_valid_cut(upto, self.start as int);
        assert(upto.skip(self.start as int) =~= self@);
    }

    /// The slice of the text under `root` from byte offset `range.start` up
    /// to byte offset `range.end`.
    pub fn new(root: &'a NodeLink, range: Range<usize>) -> (res: RopeSlice<'a>)
        requires
            range.start <= range.end <= root@.len(),
            char_boundary(root@, range.start as int),
            char_boundary(root@, range.end as int),
        ensures
            res@ == root@.subrange(range.start as int, range.end as int),
    {
        proof {
            use_type_invariant(root);
        }
        RopeSlice { root, start: range.start, end: range.end }
    }

    /// The length of the slice in bytes.
    pub fn len(&self) -> (res: usize)
        ensures
            res == self@.len(),
    {
        proof {
            use_type_invariant(self);
        }
        self.end - self.start
    }

    /// True when the slice shows no text.
    pub fn is_empty(&self) -> (res: bool)
        ensures
            res == (self@.len() == 0),
    {
        self.len() == 0
    }

    /// Tells whether the slice may be cut at byte offset `at`, counted from
    /// its start, without cutting a character in two.
    pub fn is_char_boundary(&self, at: usize) -> (res: bool)
        ensures
            res == char_boundary(self@, at as int),
    {
        proof {
            use_type_invariant(self);
        }
        if at > self.end - self.start {
            false
        } else {
            self.root.is_char_boundary(self.start + at)
        }
    }

    /// The one-byte character at byte offset `i`, counted from the start of
    /// the slice.
    pub fn index(&self, i: usize) -> (res: &'a str)
        requires
            i < self@.len(),
            char_boundary(self@, i as int),
            char_boundary(self@, i + 1),
        ensures
            encode_utf8(res@) == self@.subrange(i as int, i + 1),
    {
        proof {
            use_type_invariant(self);
            assert(self@.subrange(i as int, i + 1) =~= self.root@.subrange(
                self.start + i,
                self.start + i + 1,
            ));
        }
        self.root.index(self.start + i)
    }

    /// The part of this slice from byte offset `range.start` up to byte
    /// offset `range.end`, both counted from the start of this slice.
    pub fn slice(&self, range: Range<usize>) -> (res: RopeSlice<'a>)
        requires
            range.start <= range.end <= self@.len(),
            char_boundary(self@, range.start as int),
            char_boundary(self@, range.end as int),
        ensures
            res@ == self@.subrange(range.start as int, range.end as int),
    {
        proof {
            use_type_invariant(self);
            assert(self@.subrange(range.start as int, range.end as int) =~= self.root@.subrange(
                self.start + range.start,
                self.start + range.end,
            ));
        }
        RopeSlice { root: self.root, start: self.start + range.start, end: self.start + range.end }
    }

    /// The part of this slice from byte offset `start`, counted from the
    /// start of this slice, to its end.
    pub fn slice_from(&self, start: usize) -> (res: RopeSlice<'a>)
        requires
            char_boundary(self@, start as int),
        ensures
            res@ == self@.skip(start as int),
    {
        assert(self@.skip(start as int) =~= self@.subrange(start as int, self@.len() as int));
        self.slice(start..self.len())
    }

    /// The part of this slice from its start up to byte offset `end`,
    /// counted from the start of this slice.
    pub fn slice_to(&self, end: usize) -> (res: RopeSlice<'a>)
        requires
            char_boundary(self@, end as int),
        ensures
            res@ == self@.take(end as int),
    {
        proof {
            use_type_invariant(self);
            self.lemma_valid();
            if self@.len() > 0 {
                crate::text::lemma_valid_starts_char(self@);
            }
            assert(self@.take(end as int) =~= self@.subrange(0, end as int));
        }
        self.slice(0..end)
    }

    /// The fragments of the text that the slice shows, left to right. None
    /// is empty.
    pub fn strings(&self) -> (res: Vec<&'a str>)
        ensures
            flatten(res@) == self@,
            texts(res@) == self.fragments(),
            forall|i: int| 0 <= i < res@.len() ==> encode_utf8((#[trigger] res@[i])@).len() > 0,
    {
        proof {
            use_type_invariant(self);
        }
        self.root.strings_between(self.start, self.end)
    }

    /// The extended grapheme clusters of each fragment, one fragment after
    /// the other.
    pub fn graphemes(&self) -> (res: Vec<&'a str>)
        ensures
            texts(res@) == pieces_of(self.fragments(), Pieces::Graphemes),
    {
        let frags = self.strings();
        pieces(frags.as_slice(), Pieces::Graphemes)
    }

    /// The words of each fragment, one fragment after the other.
    pub fn unicode_words(&self) -> (res: Vec<&'a str>)
        ensures
            texts(res@) == pieces_of(self.fragments(), Pieces::UnicodeWords),
    {
        let frags = self.strings();
        pieces(frags.as_slice(), Pieces::UnicodeWords)
    }

    /// The pieces between the word boundaries of each fragment, one fragment
    /// after the other.
    pub fn split_word_bounds(&self) -> (res: Vec<&'a str>)
        ensures
            texts(res@) == pieces_of(self.fragments(), Pieces::WordBounds),
    {
        let frags = self.strings();
        pieces(frags.as_slice(), Pieces::WordBounds)
    }

    /// The pieces between runs of white space of each fragment, one fragment
    /// after the other.
    pub fn split_whitespace(&self) -> (res: Vec<&'a str>)
        ensures
            texts(res@) == pieces_of(self.fragments(), Pieces::Whitespace),
    {
        let frags = self.strings();
        pieces(frags.as_slice(), Pieces::Whitespace)
    }

    /// The extended grapheme clusters of each fragment, one fragment after
    /// the other, each with its byte offset counted from the start of the
    /// slice.
    pub fn grapheme_indices(&self) -> (res: Vec<(usize, &'a str)>)
        ensures
            indexed(res@) == indexed_pieces_of(self.fragments(), IndexedPieces::Graphemes),
    {
        let frags = self.strings();
        proof {
            use_type_invariant(self);
            self.lemma_valid();
        }
        indexed_pieces(frags.as_slice(), IndexedPieces::Graphemes)
    }

    /// The pieces between the word boundaries of each fragment, one fragment
    /// after the other, each with its byte offset counted from the start of
    /// the slice.
    pub fn split_word_bound_indices(&self) -> (res: Vec<(usize, &'a str)>)
        ensures
            indexed(res@) == indexed_pieces_of(self.fragments(), IndexedPieces::WordBounds),
    {
        let frags = self.strings();
        proof {
            use_type_invariant(self);
            self.lemma_valid();
        }
        indexed_pieces(frags.as_slice(), IndexedPieces::WordBounds)
    }

    /// The text that the slice shows as one string.
    pub fn to_string(&self) -> (res: String)
        ensures
            res@ == self.text(),
            encode_utf8(res@) == self@,
    {
        let frags = self.strings();
        proof {
            crate::walk::lemma_flatten_encodes(frags@);
            vstd::utf8::encode_utf8_decode_utf8(crate::walk::flatten_chars(frags@));
        }
        crate::walk::join(frags.as_slice())
    }

    /// The measure of the text that the slice shows.
    pub fn measure<M: Metric>(&self) -> (res: M)
        ensures
            res.value() == M::measure_of(self@),
    {
        let frags = self.strings();
        let mut total: usize = 0;
        let mut i: usize = 0;
        proof {
            use_type_invariant(self);
            self.lemma_valid();
            M::lemma_measure_bound(Seq::<u8>::empty());
        }
        while i < frags.len()
            invariant
                i <= frags.len(),
                flatten(frags@).len() <= usize::MAX,
                total == M::measure_of(flatten(frags@.take(i as int))),
            decreases frags.len() - i,
        {
            proof {
                assert(frags@.take(i + 1) =~= frags@.take(i as int).push(frags@[i as int]));
                crate::walk::lemma_flatten_push(frags@.take(i as int), frags@[i as int]);
                crate::walk::lemma_flatten_prefix(frags@, i + 1);
                M::lemma_measure_concat(
                    flatten(frags@.take(i as int)),
                    encode_utf8(frags@[i as int]@),
                );
                M::lemma_measure_bound(flatten(frags@.take(i + 1)));
            }
            total = total + M::measure_str(frags[i]).get();
            i = i + 1;
        }
        assert(frags@.take(i as int) =~= frags@);
        M::new(total)
    }

    /// The byte offset of position `index`, counted from the start of the
    /// slice, or `None` when the slice is shorter than that.
    pub fn to_byte_index<M: Metric>(&self, index: M) -> (res: Option<usize>)
        ensures
            res is None <==> index.value() > M::measure_of(self@),
            match res {
                Some(at) => byte_index::<M>(self@, index.value()) == Some(at as int),
                None => byte_index::<M>(self@, index.value()) is None,
            },
    {
        let frags = self.strings();
        proof {
            use_type_invariant(self);
            self.lemma_valid();
        }
        byte_index_in(frags.as_slice(), index)
    }

    /// A rope of its own with the text that the slice shows.
    pub fn to_rope(&self) -> (res: Rope)
        ensures
            res.balanced(),
            res@ == self@,
    {
        Rope::from(self.to_string())
    }

    /// The bytes that the slice shows.
    pub fn bytes(&self) -> (res: Vec<u8>)
        ensures
            res@ == self@,
    {
        let frags = self.strings();
        bytes_of(frags.as_slice())
    }

    /// The characters that the slice shows.
    pub fn chars(&self) -> (res: Vec<char>)
        ensures
            res@ == self.text(),
    {
        let frags = self.strings();
        proof {
            crate::walk::lemma_flatten_encodes(frags@);
            vstd::utf8::encode_utf8_decode_utf8(crate::walk::flatten_chars(frags@));
        }
        chars_of(frags.as_slice())
    }

    /// The characters that the slice shows, each with the byte offset at
    /// which it starts, counted from the start of the slice.
    pub fn char_indices(&self) -> (res: Vec<(usize, char)>)
        ensures
            res@.len() == self.text().len(),
            forall|n: int|
                0 <= n < res@.len() ==> (#[trigger] res@[n]).1 == self.text()[n]
                    && byte_index::<Chars>(self@, n as nat) == Some(res@[n].0 as int),
    {
        let frags = self.strings();
        proof {
            use_type_invariant(self);
            self.lemma_valid();
            crate::walk::lemma_flatten_encodes(frags@);
            vstd::utf8::encode_utf8_decode_utf8(crate::walk::flatten_chars(frags@));
        }
        char_indices_of(frags.as_slice())
    }

    /// The lines of the text that the slice shows, each as a slice of its
    /// own. The line feed that ends a line is not part of it; what follows
    /// the last line feed is a line if it is not empty.
    pub fn lines(&self) -> (res: Vec<RopeSlice<'a>>)
        ensures
            res@.len() == line_count(self@),
            forall|j: int|
                0 <= j < res@.len() ==> (#[trigger] res@[j])@ == self@.subrange(
                    line_begin(self@, j as nat),
                    line_end(self@, j as nat),
                ),
    {
        let frags = self.strings();
        proof {
            use_type_invariant(self);
            self.lemma_valid();
        }
        let spans = line_spans_of(frags.as_slice());
        let mut out: Vec<RopeSlice<'a>> = Vec::new();
        let mut j: usize = 0;
        while j < spans.len()
            invariant
                j <= spans.len(),
                out@.len() == j,
                self.wf(),
                valid_utf8(self@),
                forall|k: int|
                    0 <= k < spans@.len() ==> {
                        &&& (#[trigger] spans@[k]).0 == line_begin(self@, k as nat)
                        &&& spans@[k].1 == line_end(self@, k as nat)
                        &&& spans@[k].0 <= spans@[k].1 <= self@.len()
                        &&& crate::text::line_start(self@, spans@[k].0 as int)
                        &&& char_boundary(self@, spans@[k].1 as int)
                    },
                forall|k: int|
                    0 <= k < out@.len() ==> (#[trigger] out@[k])@ == self@.subrange(
                        line_begin(self@, k as nat),
                        line_end(self@, k as nat),
                    ),
            decreases spans.len() - j,
        {
            let (from, to) = spans[j];
            proof {
                lemma_line_start_is_boundary(self@, from as int);
            }
            let line = self.slice(from..to);
            out.push(line);
            j = j + 1;
        }
        out
    }

    /// Tells whether the slice shows exactly the text `s`.
    pub fn eq_str(&self, s: &str) -> (res: bool)
        ensures
            res == (self@ == encode_utf8(s@)),
    {
        let bytes = s.as_bytes();
        if self.len() != bytes.len() {
            return false;
        }
        if bytes.len() == 0 {
            assert(self@ =~= encode_utf8(s@));
            return true;
        }
        let mine = self.strings();
        let mut theirs: Vec<&str> = Vec::new();
        theirs.push(s);
        proof {
            reveal_with_fuel(flatten, 2);
            assert(theirs@.drop_last() =~= Seq::<&str>::empty());
            assert(flatten(theirs@) =~= encode_utf8(s@));
        }
        fragments_eq(mine.as_slice(), theirs.as_slice())
    }
}

impl<'a> PartialEq for RopeSlice<'a> {
    /// Two slices are equal when they show the same bytes.
    fn eq(&self, other: &RopeSlice<'a>) -> (res: bool) {
        if self.len() == other.len() {
            let mine = self.strings();
            let theirs = other.strings();
            fragments_eq(mine.as_slice(), theirs.as_slice())
        } else {
            false
        }
    }
}

impl<'a> PartialEqSpecImpl for RopeSlice<'a> {
    open spec fn obeys_eq_spec() -> bool {
        true
    }

    open spec fn eq_spec(&self, other: &RopeSlice<'a>) -> bool {
        self@ == other@
    }
}

impl<'a> PartialEq<str> for RopeSlice<'a> {
    /// A slice is equal to a string that holds the bytes it shows.
    fn eq(&self, other: &str) -> (res: bool) {
        self.eq_str(other)
    }
}

impl<'a> PartialEqSpecImpl<str> for RopeSlice<'a> {
    open spec fn obeys_eq_spec() -> bool {
        true
    }

    open spec fn eq_spec(&self, other: &str) -> bool {
        self@ == encode_utf8(other@)
    }
}

} // verus!
