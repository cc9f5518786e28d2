//! Reading a rope: its fragments and what is read off them.

use std::ops::Range;
use vstd::prelude::*;
use vstd::string::StringExecFns;
use vstd::utf8::encode_utf8;
use crate::metric::{byte_index, Chars, Metric};
use crate::rope::Rope;
use crate::segment::{
    indexed, indexed_pieces, indexed_pieces_of, pieces, pieces_of, IndexedPieces, Pieces,
};
use crate::slice::RopeSlice;
use crate::text::char_boundary;
use crate::walk::{
    bytes_of, char_indices_of, chars_of, flatten, join, line_begin, line_count, line_end, texts,
};

verus! {

impl Rope {
    /// The one-byte character at byte offset `i`.
    pub fn index(&self, i: usize) -> (res: &str)
        requires
            i < self@.len(),
            char_boundary(self@, i as int),
            char_boundary(self@, i + 1),
        ensures
            encode_utf8(res@) == self@.subrange(i as int, i + 1),
    {
        self.root.index(i)
    }

    /// The fragments of the text, left to right. None is empty.
    pub fn strings(&self) -> (res: Vec<&str>)
        ensures
            flatten(res@) == self@,
            texts(res@) == self.fragments(),
            forall|i: int| 0 <= i < res@.len() ==> encode_utf8((#[trigger] res@[i])@).len() > 0,
    {
        self.root.strings()
    }

    /// The extended grapheme clusters of each fragment, one fragment after
    /// the other.
    pub fn graphemes(&self) -> (res: Vec<&str>)
        ensures
            texts(res@) == pieces_of(self.fragments(), Pieces::Graphemes),
    {
        let frags = self.root.strings();
        pieces(frags.as_slice(), Pieces::Graphemes)
    }

    /// The words of each fragment, one fragment after the other.
    pub fn unicode_words(&self) -> (res: Vec<&str>)
        ensures
            texts(res@) == pieces_of(self.fragments(), Pieces::UnicodeWords),
    {
        let frags = self.root.strings();
        pieces(frags.as_slice(), Pieces::UnicodeWords)
    }

    /// The pieces between the word boundaries of each fragment, one fragment
    /// after the other.
    pub fn split_word_bounds(&self) -> (res: Vec<&str>)
        ensures
            texts(res@) == pieces_of(self.fragments(), Pieces::WordBounds),
    {
        let frags = self.root.strings();
        pieces(frags.as_slice(), Pieces::WordBounds)
    }

    /// The pieces between runs of white space of each fragment, one fragment
    /// after the other.
    pub fn split_whitespace(&self) -> (res: Vec<&str>)
        ensures
            texts(res@) == pieces_of(self.fragments(), Pieces::Whitespace),
    {
        let frags = self.root.strings();
        pieces(frags.as_slice(), Pieces::Whitespace)
    }

    /// The extended grapheme clusters of each fragment, one fragment after
    /// the other, each with its byte offset in the text.
    pub fn grapheme_indices(&self) -> (res: Vec<(usize, &str)>)
        ensures
            indexed(res@) == indexed_pieces_of(self.fragments(), IndexedPieces::Graphemes),
    {
        let frags = self.root.strings();
        proof {
            use_type_invariant(self);
            self.lemma_valid();
        }
        indexed_pieces(frags.as_slice(), IndexedPieces::Graphemes)
    }

    /// The pieces between the word boundaries of each fragment, one fragment
    /// after the other, each with its byte offset in the text.
    pub fn split_word_bound_indices(&self) -> (res: Vec<(usize, &str)>)
        ensures
            indexed(res@) == indexed_pieces_of(self.fragments(), IndexedPieces::WordBounds),
    {
        let frags = self.root.strings();
        proof {
            use_type_invariant(self);
            self.lemma_valid();
        }
        indexed_pieces(frags.as_slice(), IndexedPieces::WordBounds)
    }

    /// The measure of what lies to the left of the root of the tree.
    pub fn measure_weight<M: Metric>(&self) -> (res: M)
        ensures
            res.value() == M::measure_of(self.left_text()),
            res.value() <= M::measure_of(self@),
    {
        self.root.measure_weight()
    }

    /// The rope written out for looking at: its text in quotes and square
    /// brackets after the word `Rope`, then the shape of its tree.
    pub fn debug_string(&self) -> (res: String)
        ensures
            res@ == "Rope[\""@ + self.text() + "\"] "@ + self.rendering(),
    {
        let mut out = String::new();
        out.append("Rope[\"");
        let text = self.to_string();
        out.append(text.as_str());
        out.append("\"] ");
        let tree = self.root.debug_string();
        out.append(tree.as_str());
        assert((((Seq::<char>::empty() + "Rope[\""@) + self.text()) + "\"] "@)
            + self.rendering() =~= "Rope[\""@ + self.text() + "\"] "@ + self.rendering());
        out
    }

    /// The whole text as one string.
    pub fn to_string(&self) -> (res: String)
        ensures
            res@ == self.text(),
            encode_utf8(res@) == self@,
    {
        let frags = self.root.strings();
        let text = join(frags.as_slice());
        proof {
            crate::walk::lemma_flatten_encodes(frags@);
        }
        text
    }

    /// The bytes of the text.
    pub fn bytes(&self) -> (res: Vec<u8>)
        ensures
            res@ == self@,
    {
        let frags = self.root.strings();
        bytes_of(frags.as_slice())
    }

    /// The characters of the text.
    pub fn chars(&self) -> (res: Vec<char>)
        ensures
            res@ == self.text(),
    {
        let frags = self.root.strings();
        chars_of(frags.as_slice())
    }

    /// The characters of the text, each with the byte offset at which it
    /// starts.
    pub fn char_indices(&self) -> (res: Vec<(usize, char)>)
        ensures
            res@.len() == self.text().len(),
            forall|n: int|
                0 <= n < res@.len() ==> (#[trigger] res@[n]).1 == self.text()[n]
                    && byte_index::<Chars>(self@, n as nat) == Some(res@[n].0 as int),
    {
        let frags = self.root.strings();
        proof {
            use_type_invariant(self);
            self.lemma_valid();
        }
        char_indices_of(frags.as_slice())
    }

    /// The slice of the text from byte offset `range.start` up to byte
    /// offset `range.end`.
    pub fn slice(&self, range: Range<usize>) -> (res: RopeSlice<'_>)
        requires
            range.start <= range.end <= self@.len(),
            char_boundary(self@, range.start as int),
            char_boundary(self@, range.end as int),
        ensures
            res@ == self@.subrange(range.start as int, range.end as int),
    {
        RopeSlice::new(&self.root, range)
    }

    /// The slice of the text from byte offset `start` to its end.
    pub fn slice_from(&self, start: usize) -> (res: RopeSlice<'_>)
        requires
            char_boundary(self@, start as int),
        ensures
            res@ == self@.skip(start as int),
    {
        assert(self@.skip(start as int) =~= self@.subrange(start as int, self@.len() as int));
        self.slice(start..self.len())
    }

    /// The slice of the text from its start up to byte offset `end`.
    pub fn slice_to(&self, end: usize) -> (res: RopeSlice<'_>)
        requires
            char_boundary(self@, end as int),
        ensures
            res@ == self@.take(end as int),
    {
        proof {
            use_type_invariant(self);
            self.lemma_valid();
            if self@.len() > 0 {
                crate::text::lemma_valid_starts_char(self@);
            }
            assert(self@.take(end as int) =~= self@.subrange(0, end as int));
        }
        self.slice(0..end)
    }

    /// The slice that shows the whole text.
    pub fn slice_all(&self) -> (res: RopeSlice<'_>)
        ensures
            res@ == self@,
    {
        proof {
            use_type_invariant(self);
            self.lemma_valid();
            if self@.len() > 0 {
                crate::text::lemma_valid_starts_char(self@);
            }
            assert(self@ =~= self@.subrange(0, self@.len() as int));
        }
        self.slice(0..self.len())
    }

    /// The lines of the text, each as a slice. The line feed that ends a
    /// line is not part of it; what follows the last line feed is a line if
    /// it is not empty.
    pub fn lines(&self) -> (res: Vec<RopeSlice<'_>>)
        ensures
            res@.len() == line_count(self@),
            forall|j: int|
                0 <= j < res@.len() ==> (#[trigger] res@[j])@ == self@.subrange(
                    line_begin(self@, j as nat),
                    line_end(self@, j as nat),
                ),
    {
        let whole = self.slice_all();
        whole.lines()
    }

    /// Tells whether the text and `other` hold the same bytes as far as the
    /// shorter of the two goes.
    pub fn bytes_eq(&self, other: &[u8]) -> (res: bool)
        ensures
            res == ({
                let n = if self@.len() <= other@.len() {
                    self@.len() as int
                } else {
                    other@.len() as int
                };
                self@.take(n) == other@.take(n)
            }),
    {
        self.root.bytes_eq(other)
    }

    /// Tells whether the rope holds exactly the text `s`.
    pub fn eq_str(&self, s: &str) -> (res: bool)
        ensures
            res == (self@ == encode_utf8(s@)),
    {
        let bytes = s.as_bytes();
        if self.len() == bytes.len() {
            assert(self@.take(self@.len() as int) =~= self@);
            assert(bytes@.take(bytes@.len() as int) =~= bytes@);
            self.root.bytes_eq(bytes)
        } else {
            false
        }
    }
}

} // verus!
