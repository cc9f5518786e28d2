//! The ways in which a position or a range can be wrong for a rope.
//!
//! The editing operations of a rope ask of their callers that positions
//! exist and fall between characters. The functions here test that, say
//! which fault an input has, and offer each edit in a form that hands back
//! the fault instead of asking.

use std::ops::Range;
use vstd::prelude::*;
use vstd::utf8::encode_utf8;
use crate::decode::string_of_char;
use crate::metric::{lemma_byte_index_exists, Metric};
use crate::node::{can_cut, cut_point};
use crate::rope::{can_insert, deleted, inserted_at, Rope};
use crate::slice::RopeSlice;
use crate::text::char_boundary;

verus! {

/// What is wrong with a position or a range.
#[derive(Clone, Copy, Debug, PartialEq, Eq)]
pub enum Fault {
    /// A position lies beyond the end of the text.
    Bounds,
    /// A range starts after its end.
    Order,
    /// A position falls inside a character.
    Boundary,
    /// The text that an edit asks for is longer than `usize` can count.
    TooLong,
}

/// The fault of position `k` of metric `M` in `text`, if it has one.
pub open spec fn fault_at<M: Metric>(text: Seq<u8>, k: nat) -> Option<Fault> {
    if k > M::measure_of(text) {
        Some(Fault::Bounds)
    } else if !char_boundary(text, cut_point::<M>(text, k)) {
        Some(Fault::Boundary)
    } else {
        None
    }
}

/// The fault of position `k` of metric `M` as a position to insert at in
/// `text`, if it has one. The start of the text and the position of its
/// measure take an insertion wherever they fall.
pub open spec fn insert_fault_at<M: Metric>(text: Seq<u8>, k: nat) -> Option<Fault> {
    if k > M::measure_of(text) {
        Some(Fault::Bounds)
    } else if k == 0 || k == M::measure_of(text) {
        None
    } else if !char_boundary(text, cut_point::<M>(text, k)) {
        Some(Fault::Boundary)
    } else {
        None
    }
}

/// The fault of putting the text of a rope, `other`, in at position `k`: none
/// if there is nothing to put in, else that of the position, else `TooLong`
/// if the two texts are too long together.
pub open spec fn insert_rope_fault<M: Metric>(text: Seq<u8>, k: nat, other: Seq<u8>) -> Option<
    Fault,
> {
    if other.len() == 0 {
        None
    } else if insert_fault_at::<M>(text, k) is Some {
        insert_fault_at::<M>(text, k)
    } else if text.len() + other.len() > usize::MAX {
        Some(Fault::TooLong)
    } else {
        None
    }
}

/// The fault of putting the string or character `other` in at position
/// `k`: `Bounds` beyond the measure of the text whatever is put in, else
/// that of the position if there is something to put in, else `TooLong` if
/// the two texts are too long together.
pub open spec fn insert_text_fault<M: Metric>(text: Seq<u8>, k: nat, other: Seq<u8>) -> Option<
    Fault,
> {
    if k > M::measure_of(text) {
        Some(Fault::Bounds)
    } else if other.len() > 0 && insert_fault_at::<M>(text, k) is Some {
        insert_fault_at::<M>(text, k)
    } else if text.len() + other.len() > usize::MAX {
        Some(Fault::TooLong)
    } else {
        None
    }
}

/// The fault of the range of positions from `start` to `end` of metric `M`
/// in `text`, if it has one. A range in the wrong order is that first of
/// all; then a position beyond the end counts before one inside a character.
pub open spec fn fault_in<M: Metric>(text: Seq<u8>, start: nat, end: nat) -> Option<Fault> {
    if start > end {
        Some(Fault::Order)
    } else if end > M::measure_of(text) {
        Some(Fault::Bounds)
    } else if !char_boundary(text, cut_point::<M>(text, start)) || !char_boundary(
        text,
        cut_point::<M>(text, end),
    ) {
        Some(Fault::Boundary)
    } else {
        None
    }
}

/// The fault of the range of byte offsets from `start` to `end` in `text`,
/// if it has one.
pub open spec fn byte_fault_in(text: Seq<u8>, start: int, end: int) -> Option<Fault> {
    if start > end {
        Some(Fault::Order)
    } else if end > text.len() {
        Some(Fault::Bounds)
    } else if !char_boundary(text, start) || !char_boundary(text, end) {
        Some(Fault::Boundary)
    } else {
        None
    }
}

impl Rope {
    /// The byte offset of position `index`, or what is wrong with it.
    pub fn locate<M: Metric>(&self, index: M) -> (res: Result<usize, Fault>)
        ensures
            res is Ok <==> can_cut::<M>(self@, index.value()),
            match res {
                Ok(at) => at == cut_point::<M>(self@, index.value()),
                Err(fault) => fault_at::<M>(self@, index.value()) == Some(fault),
            },
    {
        match self.to_byte_index(index) {
            None => Err(Fault::Bounds),
            Some(at) => {
                if self.is_char_boundary(at) {
                    Ok(at)
                } else {
                    Err(Fault::Boundary)
                }
            },
        }
    }

    /// The byte offsets of the two ends of `range`, or what is wrong with it.
    pub fn locate_range<M: Metric>(&self, range: &Range<M>) -> (res: Result<(usize, usize), Fault>)
        ensures
            res is Ok <==> range.start.value() <= range.end.value() && can_cut::<M>(
                self@,
                range.start.value(),
            ) && can_cut::<M>(self@, range.end.value()),
            match res {
                Ok((from, to)) => from == cut_point::<M>(self@, range.start.value()) && to
                    == cut_point::<M>(self@, range.end.value()),
                Err(fault) => fault_in::<M>(self@, range.start.value(), range.end.value())
                    == Some(fault),
            },
    {
        if !range.start.le(range.end) {
            return Err(Fault::Order);
        }
        let from = self.to_byte_index(range.start);
        let to = self.to_byte_index(range.end);
        match (from, to) {
            (Some(from), Some(to)) => {
                if self.is_char_boundary(from) && self.is_char_boundary(to) {
                    Ok((from, to))
                } else {
                    Err(Fault::Boundary)
                }
            },
            _ => Err(Fault::Bounds),
        }
    }

    /// `split`, or the fault of `index`.
    pub fn try_split<M: Metric>(&self, index: M) -> (res: Result<(Rope, Rope), Fault>)
        ensures
            res is Ok <==> can_cut::<M>(self@, index.value()),
            match res {
                Ok((head, tail)) => {
                    &&& head.balanced()
                    &&& tail.balanced()
                    &&& head@ == self@.take(cut_point::<M>(self@, index.value()))
                    &&& tail@ == self@.skip(cut_point::<M>(self@, index.value()))
                },
                Err(fault) => fault_at::<M>(self@, index.value()) == Some(fault),
            },
    {
        match self.locate(index) {
            Ok(_) => Ok(self.split(index)),
            Err(fault) => Err(fault),
        }
    }

    /// What is wrong with `index` as a position to insert at, if anything.
    pub fn insertion_fault<M: Metric>(&self, index: M) -> (res: Option<Fault>)
        ensures
            res == insert_fault_at::<M>(self@, index.value()),
            res is None <==> index.value() <= M::measure_of(self@) && can_insert::<M>(
                self@,
                index.value(),
            ),
    {
        proof {
            use_type_invariant(self);
            self.lemma_valid();
            lemma_byte_index_exists::<M>(self@, index.value());
        }
        let len: M = self.measure();
        if !index.le(len) {
            Some(Fault::Bounds)
        } else if index.le(M::zero()) || len.le(index) {
            None
        } else {
            match self.locate(index) {
                Ok(_) => None,
                Err(fault) => Some(fault),
            }
        }
    }

    /// `insert_rope`, or the fault that `insert_rope_fault` names. An empty
    /// `rope` goes in at any `index`.
    pub fn try_insert_rope<M: Metric>(&self, index: M, rope: &Rope) -> (res: Result<Rope, Fault>)
        ensures
            res is Ok <==> insert_rope_fault::<M>(self@, index.value(), rope@) is None,
            match res {
                Ok(new) => {
                    &&& new.balanced()
                    &&& rope@.len() == 0 ==> new@ == self@
                    &&& rope@.len() > 0 ==> new@ == inserted_at::<M>(
                        self@,
                        index.value(),
                        rope@,
                    )
                },
                Err(fault) => insert_rope_fault::<M>(self@, index.value(), rope@) == Some(fault),
            },
    {
        proof {
            use_type_invariant(self);
            self.lemma_valid();
        }
        if rope.is_empty() {
            return Ok(self.insert_rope(index, rope));
        }
        match self.insertion_fault(index) {
            Some(fault) => Err(fault),
            None => {
                if rope.len() > usize::MAX - self.len() {
                    Err(Fault::TooLong)
                } else {
                    Ok(self.insert_rope(index, rope))
                }
            },
        }
    }

    /// `insert`, or the fault that `insert_text_fault` names.
    pub fn try_insert<M: Metric>(&self, index: M, ch: char) -> (res: Result<Rope, Fault>)
        ensures
            res is Ok <==> insert_text_fault::<M>(self@, index.value(), encode_utf8(seq![ch]))
                is None,
            match res {
                Ok(new) => new.balanced() && new@ == inserted_at::<M>(
                    self@,
                    index.value(),
                    encode_utf8(seq![ch]),
                ),
                Err(fault) => insert_text_fault::<M>(
                    self@,
                    index.value(),
                    encode_utf8(seq![ch]),
                ) == Some(fault),
            },
    {
        let s = string_of_char(ch);
        self.try_insert_str(index, s.as_str())
    }

    /// `insert_str`, or the fault that `insert_text_fault` names.
    pub fn try_insert_str<M: Metric>(&self, index: M, s: &str) -> (res: Result<Rope, Fault>)
        ensures
            res is Ok <==> insert_text_fault::<M>(self@, index.value(), encode_utf8(s@)) is None,
            match res {
                Ok(new) => new.balanced() && new@ == inserted_at::<M>(
                    self@,
                    index.value(),
                    encode_utf8(s@),
                ),
                Err(fault) => insert_text_fault::<M>(self@, index.value(), encode_utf8(s@))
                    == Some(fault),
            },
    {
        proof {
            use_type_invariant(self);
            self.lemma_valid();
        }
        let size = s.as_bytes().len();
        let len: M = self.measure();
        if !index.le(len) {
            return Err(Fault::Bounds);
        }
        if size > 0 {
            if let Some(fault) = self.insertion_fault(index) {
                return Err(fault);
            }
        }
        if size > usize::MAX - self.len() {
            Err(Fault::TooLong)
        } else {
            Ok(self.insert_str(index, s))
        }
    }

    /// `delete`, or the fault of `range`.
    pub fn try_delete<M: Metric>(&self, range: Range<M>) -> (res: Result<Rope, Fault>)
        ensures
            res is Ok <==> fault_in::<M>(self@, range.start.value(), range.end.value()) is None,
            match res {
                Ok(new) => new.balanced() && new@ == deleted(
                    self@,
                    cut_point::<M>(self@, range.start.value()),
                    cut_point::<M>(self@, range.end.value()),
                ),
                Err(fault) => fault_in::<M>(self@, range.start.value(), range.end.value())
                    == Some(fault),
            },
    {
        proof {
            use_type_invariant(self);
            self.lemma_valid();
            lemma_byte_index_exists::<M>(self@, range.start.value());
            lemma_byte_index_exists::<M>(self@, range.end.value());
        }
        match self.locate_range(&range) {
            Ok(_) => Ok(self.delete(range)),
            Err(fault) => Err(fault),
        }
    }

    /// `slice`, or the fault of `range`.
    pub fn try_slice(&self, range: Range<usize>) -> (res: Result<RopeSlice<'_>, Fault>)
        ensures
            res is Ok <==> byte_fault_in(self@, range.start as int, range.end as int) is None,
            match res {
                Ok(slice) => slice@ == self@.subrange(range.start as int, range.end as int),
                Err(fault) => byte_fault_in(self@, range.start as int, range.end as int) == Some(
                    fault,
                ),
            },
    {
        if range.start > range.end {
            Err(Fault::Order)
        } else if range.end > self.len() {
            Err(Fault::Bounds)
        } else if !self.is_char_boundary(range.start) || !self.is_char_boundary(range.end) {
            Err(Fault::Boundary)
        } else {
            Ok(self.slice(range))
        }
    }
}

} // verus!
