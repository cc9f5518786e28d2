//! The rope: text kept as a balanced tree of fragments.
//!
//! A [`Rope`] owns the root of a tree. Editing a rope never changes the tree
//! it has: the persistent operations hand back a new rope that shares what
//! was not touched, and the in-place operations put such a new tree in the
//! place of the old root. Every rope that an operation hands back is
//! balanced.

pub mod convert;
pub mod read;

use std::ops::Range;
use vstd::prelude::*;
use vstd::utf8::{decode_utf8, encode_utf8, valid_utf8};
use crate::balance::fib_balanced;
use crate::decode::string_of_char;
use crate::metric::{
    byte_index, lemma_byte_index_concat, lemma_byte_index_exists, lemma_byte_index_zero, Metric,
};
use crate::node::{can_cut, cut_point, Node, NodeLink};
use crate::rebuild::{ceil_log2, coalesced};
use crate::text::{char_boundary, lemma_valid_cut};

verus! {

/// `text` with `other` put in at byte offset `at`.
pub open spec fn inserted(text: Seq<u8>, at: int, other: Seq<u8>) -> Seq<u8> {
    text.take(at) + other + text.skip(at)
}

/// True when `text` takes an insertion at position `k` of metric `M`: at
/// its start, at the position of its measure, or where it can be cut.
pub open spec fn can_insert<M: Metric>(text: Seq<u8>, k: nat) -> bool {
    k == 0 || k == M::measure_of(text) || can_cut::<M>(text, k)
}

/// `text` with `other` put in at position `k` of metric `M`. Position zero
/// is before the text and the position of the measure of the text is
/// after it, wherever the metric has that position fall; any other
/// position is where it cuts the text.
pub open spec fn inserted_at<M: Metric>(text: Seq<u8>, k: nat, other: Seq<u8>) -> Seq<u8> {
    if k == 0 {
        other + text
    } else if k == M::measure_of(text) {
        text + other
    } else {
        inserted(text, cut_point::<M>(text, k), other)
    }
}

/// `text` without the bytes from offset `start` up to offset `end`.
pub open spec fn deleted(text: Seq<u8>, start: int, end: int) -> Seq<u8> {
    text.take(start) + text.skip(end)
}

/// Text as a balanced tree of fragments.
#[derive(Debug)]
pub struct Rope {
    root: NodeLink,
}

impl View for Rope {
    type V = Seq<u8>;

    /// The bytes of the text, which are valid UTF-8.
    closed spec fn view(&self) -> Seq<u8> {
        self.root@
    }
}

impl Rope {
    /// True when the tree of this rope is well formed. Every rope that
    /// executable code holds is.
    #[verifier::type_invariant]
    pub closed spec fn wf(&self) -> bool {
        self.root.wf()
    }

    /// True when every subtree of this rope holds enough bytes for its depth.
    pub closed spec fn balanced(&self) -> bool {
        self.root.balanced()
    }

    /// True when `sub` is the tree of this rope or a subtree of it.
    pub closed spec fn has_subtree(&self, sub: NodeLink) -> bool {
        self.root.has_subtree(sub)
    }

    /// The tree that holds the text.
    pub closed spec fn tree(&self) -> NodeLink {
        self.root
    }

    /// The fragments that the text is kept in, left to right.
    pub closed spec fn fragments(&self) -> Seq<Seq<char>> {
        self.root.fragments()
    }

    /// The text to the left of the root of the tree: that of the left child
    /// of a branch, the whole text of a leaf.
    pub closed spec fn left_text(&self) -> Seq<u8> {
        self.root.left_text()
    }

    /// The shape of the tree of this rope as text.
    pub closed spec fn rendering(&self) -> Seq<char> {
        self.root.rendering()
    }

    /// The characters of the text.
    pub open spec fn text(&self) -> Seq<char> {
        decode_utf8(self@)
    }

    /// The depth of the tree of this rope.
    pub closed spec fn depth(&self) -> nat {
        self.root.depth()
    }

    /// The text of a rope is valid UTF-8 of a length that `usize` holds.
    pub proof fn lemma_valid(&self)
        requires
            self.wf(),
        ensures
            valid_utf8(self@),
            self@.len() <= usize::MAX,
    {
        self.root.lemma_valid();
        self.root.lemma_len();
    }

    /// What is said of a rope is said of its tree: the two have the same
    /// text, depth, balance, fragments and subtrees. The tree of a rope
    /// that executable code holds is well formed.
    pub proof fn lemma_tree(&self)
        ensures
            self.tree()@ == self@,
            self.tree().depth() == self.depth(),
            self.tree().balanced() == self.balanced(),
            self.tree().fragments() == self.fragments(),
            self.tree().left_text() == self.left_text(),
            self.tree().rendering() == self.rendering(),
            self.tree().wf() == self.wf(),
            self.has_subtree(self.tree()),
            forall|sub: NodeLink| #[trigger] self.has_subtree(sub) == self.tree().has_subtree(sub),
    {
        self.root.lemma_subtrees(self.root);
    }

    /// A rope is balanced exactly when each subtree of its tree, the whole
    /// tree among them, holds enough bytes for its depth.
    pub proof fn lemma_balanced_iff(&self)
        ensures
            self.balanced() <==> forall|sub: NodeLink|
                self.has_subtree(sub) ==> fib_balanced(sub.depth(), sub@.len()),
    {
        self.root.lemma_balanced_iff();
        if self.balanced() {
            assert forall|sub: NodeLink| self.has_subtree(sub) implies fib_balanced(
                sub.depth(),
                sub@.len(),
            ) by {
                self.root.lemma_subtrees_balanced(sub);
            }
        }
        if forall|sub: NodeLink| self.has_subtree(sub) ==> fib_balanced(sub.depth(), sub@.len()) {
            assert forall|sub: NodeLink| self.root.has_subtree(sub) implies fib_balanced(
                sub.depth(),
                sub@.len(),
            ) by {
                assert(self.has_subtree(sub));
            }
        }
    }

    /// In a balanced rope every subtree of depth `d` holds `fib(d + 2) - 1`
    /// bytes or more.
    pub proof fn lemma_balanced(&self, sub: NodeLink)
        requires
            self.balanced(),
            self.has_subtree(sub),
        ensures
            fib_balanced(sub.depth(), sub@.len()),
    {
        self.root.lemma_subtrees_balanced(sub);
    }

    /// A rope with the text under `root`: on `root` itself if it is
    /// balanced, on a tree built anew from its fragments if it is not.
    pub fn from_link(root: NodeLink) -> (res: Rope)
        ensures
            res.balanced(),
            res@ == root@,
            root.balanced() ==> res.tree() == root,
            !root.balanced() ==> res.fragments() == coalesced(root.fragments()) && res.depth()
                == ceil_log2(res.fragments().len()),
    {
        let root = root.rebalance();
        proof {
            use_type_invariant(&root);
        }
        Rope { root }
    }

    /// A rope without text.
    pub fn new() -> (res: Rope)
        ensures
            res.balanced(),
            res@ == Seq::<u8>::empty(),
    {
        Rope::from_link(Node::empty())
    }

    /// The length of the text in bytes.
    pub fn len(&self) -> (res: usize)
        ensures
            res == self@.len(),
    {
        self.root.len()
    }

    /// True when the rope holds no text.
    pub fn is_empty(&self) -> (res: bool)
        ensures
            res == (self@.len() == 0),
    {
        self.len() == 0
    }

    /// The depth of the tree.
    pub fn height(&self) -> (res: usize)
        ensures
            res == self.depth(),
    {
        self.root.height()
    }

    /// Tells whether every subtree holds enough bytes for its depth.
    pub fn is_balanced(&self) -> (res: bool)
        ensures
            res == self.balanced(),
            res <==> forall|sub: NodeLink|
                self.has_subtree(sub) ==> fib_balanced(sub.depth(), sub@.len()),
    {
        proof {
            self.lemma_balanced_iff();
        }
        self.root.is_balanced()
    }

    /// The measure of the text under metric `M`.
    pub fn measure<M: Metric>(&self) -> (res: M)
        ensures
            res.value() == M::measure_of(self@),
    {
        self.root.measure()
    }

    /// The byte offset of position `index`, or `None` when the text is
    /// shorter than that.
    pub fn to_byte_index<M: Metric>(&self, index: M) -> (res: Option<usize>)
        ensures
            res is None <==> index.value() > M::measure_of(self@),
            match res {
                Some(at) => byte_index::<M>(self@, index.value()) == Some(at as int),
                None => byte_index::<M>(self@, index.value()) is None,
            },
    {
        self.root.to_byte_index(index)
    }

    /// Tells whether the text may be cut at byte offset `at` without cutting
    /// a character in two.
    pub fn is_char_boundary(&self, at: usize) -> (res: bool)
        ensures
            res == char_boundary(self@, at as int),
    {
        self.root.is_char_boundary(at)
    }

    /// The text of this rope followed by that of `other`, as a new rope.
    pub fn append(&self, other: &Rope) -> (res: Rope)
        requires
            self@.len() + other@.len() <= usize::MAX,
        ensures
            res.balanced(),
            res@ == self@ + other@,
            other@.len() == 0 && self.balanced() ==> res == *self,
            other@.len() > 0 ==> if NodeLink::join_balanced(self.tree(), other.tree()) {
                res.fragments() == self.fragments() + other.fragments()
            } else {
                res.fragments() == coalesced(self.fragments() + other.fragments()) && res.depth()
                    == ceil_log2(res.fragments().len())
            },
    {
        if !other.is_empty() {
            let root = NodeLink::concatenate(self.root.clone(), other.root.clone());
            proof {
                use_type_invariant(&root);
            }
            Rope { root }
        } else {
            assert(self@ + other@ =~= self@);
            Rope::from_link(self.root.clone())
        }
    }

    /// The text of `other` followed by that of this rope, as a new rope.
    pub fn prepend(&self, other: &Rope) -> (res: Rope)
        requires
            self@.len() + other@.len() <= usize::MAX,
        ensures
            res.balanced(),
            res@ == other@ + self@,
            other@.len() == 0 && self.balanced() ==> res == *self,
            other@.len() > 0 ==> if NodeLink::join_balanced(other.tree(), self.tree()) {
                res.fragments() == other.fragments() + self.fragments()
            } else {
                res.fragments() == coalesced(other.fragments() + self.fragments()) && res.depth()
                    == ceil_log2(res.fragments().len())
            },
    {
        if !other.is_empty() {
            let root = NodeLink::concatenate(other.root.clone(), self.root.clone());
            proof {
                use_type_invariant(&root);
            }
            Rope { root }
        } else {
            assert(other@ + self@ =~= self@);
            Rope::from_link(self.root.clone())
        }
    }

    /// The two parts of the text before and after position `index`, each as
    /// a rope of its own.
    pub fn split<M: Metric>(&self, index: M) -> (res: (Rope, Rope))
        requires
            can_cut::<M>(self@, index.value()),
        ensures
            res.0.balanced(),
            res.1.balanced(),
            res.0@ == self@.take(cut_point::<M>(self@, index.value())),
            res.1@ == self@.skip(cut_point::<M>(self@, index.value())),
            M::measure_of(res.0@) == index.value(),
            self.balanced() && cut_point::<M>(self@, index.value()) == 0 ==> res.1 == *self,
            self.balanced() && cut_point::<M>(self@, index.value()) == self@.len() ==> res.0
                == *self,
    {
        let (l, r) = self.root.split(index);
        (Rope::from_link(l), Rope::from_link(r))
    }

    /// This rope with the text of `rope` put in at position `index`: before
    /// the text at position zero, after it at the position of its measure,
    /// and where the position cuts it otherwise. With an empty `rope` the
    /// result is this rope, whatever `index` is.
    pub fn insert_rope<M: Metric>(&self, index: M, rope: &Rope) -> (res: Rope)
        requires
            self@.len() + rope@.len() <= usize::MAX,
            rope@.len() > 0 ==> can_insert::<M>(self@, index.value()),
        ensures
            res.balanced(),
            rope@.len() == 0 ==> res@ == self@,
            rope@.len() == 0 && self.balanced() ==> res == *self,
            rope@.len() > 0 ==> res@ == inserted_at::<M>(self@, index.value(), rope@),
    {
        if rope.is_empty() {
            return Rope::from_link(self.root.clone());
        }
        let len: M = self.measure();
        if index.le(M::zero()) {
            self.prepend(rope)
        } else if index.le(len) && len.le(index) {
            self.append(rope)
        } else {
            let (left, right) = self.root.split(index);
            let head = Node::new_branch(left, rope.root.clone());
            proof {
                use_type_invariant(self);
                self.lemma_valid();
                lemma_byte_index_exists::<M>(self@, index.value());
            }
            Rope::from_link(Node::new_branch(head, right))
        }
    }

    /// This rope with `s` put in at position `index`, as `insert_rope` puts
    /// in a rope.
    pub fn insert_str<M: Metric>(&self, index: M, s: &str) -> (res: Rope)
        requires
            self@.len() + encode_utf8(s@).len() <= usize::MAX,
            index.value() <= M::measure_of(self@),
            encode_utf8(s@).len() > 0 ==> can_insert::<M>(self@, index.value()),
        ensures
            res.balanced(),
            res@ == inserted_at::<M>(self@, index.value(), encode_utf8(s@)),
    {
        let other = Rope::from_link(Node::new_leaf(s.to_owned()));
        proof {
            use_type_invariant(self);
            self.lemma_valid();
            lemma_inserted_nothing::<M>(self@, index.value());
        }
        self.insert_rope(index, &other)
    }

    /// This rope without what lies between the positions `range.start` and
    /// `range.end`.
    pub fn delete<M: Metric>(&self, range: Range<M>) -> (res: Rope)
        requires
            range.start.value() <= range.end.value(),
            can_cut::<M>(self@, range.start.value()),
            can_cut::<M>(self@, range.end.value()),
        ensures
            res.balanced(),
            res@ == deleted(
                self@,
                cut_point::<M>(self@, range.start.value()),
                cut_point::<M>(self@, range.end.value()),
            ),
    {
        let ghost from = cut_point::<M>(self@, range.start.value());
        let ghost to = cut_point::<M>(self@, range.end.value());
        let (left, rest) = self.root.split(range.start);
        let span = range.end.minus(range.start);
        proof {
            use_type_invariant(self);
            self.lemma_valid();
            lemma_cut_after::<M>(self@, range.start.value(), range.end.value());
            use_type_invariant(&rest);
            rest.lemma_len();
        }
        let (_, right) = rest.split(span);
        assert(self@.skip(from).skip(to - from) =~= self@.skip(to));
        Rope::from_link(Node::new_branch(left, right))
    }

    /// This rope with `ch` put in at position `index`, as `insert_rope`
    /// puts in a rope.
    pub fn insert<M: Metric>(&self, index: M, ch: char) -> (res: Rope)
        requires
            self@.len() + encode_utf8(seq![ch]).len() <= usize::MAX,
            can_insert::<M>(self@, index.value()),
        ensures
            res.balanced(),
            res@ == inserted_at::<M>(self@, index.value(), encode_utf8(seq![ch])),
    {
        proof {
            use_type_invariant(self);
            self.lemma_valid();
            lemma_byte_index_exists::<M>(self@, index.value());
        }
        let s = string_of_char(ch);
        self.insert_str(index, s.as_str())
    }

    /// Puts the text of `other` after the text of this rope.
    pub fn append_in_place(&mut self, other: &Rope)
        requires
            old(self)@.len() + other@.len() <= usize::MAX,
        ensures
            final(self).balanced(),
            final(self)@ == old(self)@ + other@,
    {
        let res = self.append(other);
        *self = res;
    }

    /// Puts the text of `other` before the text of this rope.
    pub fn prepend_in_place(&mut self, other: &Rope)
        requires
            old(self)@.len() + other@.len() <= usize::MAX,
        ensures
            final(self).balanced(),
            final(self)@ == other@ + old(self)@,
    {
        let res = self.prepend(other);
        *self = res;
    }

    /// Puts the text of `rope` in at position `index`.
    pub fn insert_rope_in_place<M: Metric>(&mut self, index: M, rope: &Rope)
        requires
            old(self)@.len() + rope@.len() <= usize::MAX,
            rope@.len() > 0 ==> can_insert::<M>(old(self)@, index.value()),
        ensures
            final(self).balanced(),
            rope@.len() == 0 ==> final(self)@ == old(self)@,
            rope@.len() > 0 ==> final(self)@ == inserted_at::<M>(
                old(self)@,
                index.value(),
                rope@,
            ),
    {
        let res = self.insert_rope(index, rope);
        *self = res;
    }

    /// Puts `s` in at position `index`.
    pub fn insert_str_in_place<M: Metric>(&mut self, index: M, s: &str)
        requires
            old(self)@.len() + encode_utf8(s@).len() <= usize::MAX,
            index.value() <= M::measure_of(old(self)@),
            encode_utf8(s@).len() > 0 ==> can_insert::<M>(old(self)@, index.value()),
        ensures
            final(self).balanced(),
            final(self)@ == inserted_at::<M>(old(self)@, index.value(), encode_utf8(s@)),
    {
        let res = self.insert_str(index, s);
        *self = res;
    }

    /// Puts `ch` in at position `index`.
    pub fn insert_in_place<M: Metric>(&mut self, index: M, ch: char)
        requires
            old(self)@.len() + encode_utf8(seq![ch]).len() <= usize::MAX,
            can_insert::<M>(old(self)@, index.value()),
        ensures
            final(self).balanced(),
            final(self)@ == inserted_at::<M>(old(self)@, index.value(), encode_utf8(seq![ch])),
    {
        let res = self.insert(index, ch);
        *self = res;
    }

    /// Takes out what lies between the positions `range.start` and
    /// `range.end`.
    pub fn delete_in_place<M: Metric>(&mut self, range: Range<M>)
        requires
            range.start.value() <= range.end.value(),
            can_cut::<M>(old(self)@, range.start.value()),
            can_cut::<M>(old(self)@, range.end.value()),
        ensures
            final(self).balanced(),
            final(self)@ == deleted(
                old(self)@,
                cut_point::<M>(old(self)@, range.start.value()),
                cut_point::<M>(old(self)@, range.end.value()),
            ),
    {
        let res = self.delete(range);
        *self = res;
    }

    /// Rebuilds the tree if it is not balanced: its fragments are coalesced
    /// and made the leaves of a tree that is as shallow as can be. The text
    /// stays as it is, and a balanced rope stays as it is altogether.
    pub fn rebalance(&mut self)
        ensures
            final(self).balanced(),
            final(self)@ == old(self)@,
            old(self).balanced() ==> *final(self) == *old(self),
            !old(self).balanced() ==> final(self).fragments() == coalesced(old(self).fragments())
                && final(self).depth() == ceil_log2(final(self).fragments().len()),
    {
        let res = Rope::from_link(self.root.clone());
        *self = res;
    }
}

/// Putting in nothing at a position that the text has leaves the text as
/// it is.
pub proof fn lemma_inserted_nothing<M: Metric>(text: Seq<u8>, k: nat)
    requires
        valid_utf8(text),
        k <= M::measure_of(text),
    ensures
        inserted_at::<M>(text, k, Seq::<u8>::empty()) == text,
{
    lemma_byte_index_exists::<M>(text, k);
    let at = cut_point::<M>(text, k);
    assert(text.take(at) + Seq::<u8>::empty() + text.skip(at) =~= text);
    assert(Seq::<u8>::empty() + text =~= text);
    assert(text + Seq::<u8>::empty() =~= text);
}

/// What lies after a position has the later positions of the text, each
/// moved down by the offset of that position.
pub proof fn lemma_cut_after<M: Metric>(text: Seq<u8>, first: nat, second: nat)
    requires
        valid_utf8(text),
        first <= second,
        can_cut::<M>(text, first),
        can_cut::<M>(text, second),
    ensures
        cut_point::<M>(text, first) <= cut_point::<M>(text, second) <= text.len(),
        can_cut::<M>(text.skip(cut_point::<M>(text, first)), (second - first) as nat),
        cut_point::<M>(text.skip(cut_point::<M>(text, first)), (second - first) as nat)
            == cut_point::<M>(text, second) - cut_point::<M>(text, first),
{
    let from = cut_point::<M>(text, first);
    let to = cut_point::<M>(text, second);
    lemma_byte_index_exists::<M>(text, first);
    lemma_byte_index_exists::<M>(text, second);
    lemma_valid_cut(text, from);
    let head = text.take(from);
    let tail = text.skip(from);
    assert(text =~= head + tail);
    lemma_byte_index_concat::<M>(head, tail, second);
    lemma_byte_index_exists::<M>(tail, (second - first) as nat);
    if second == first {
        lemma_byte_index_zero::<M>(tail);
    }
}

} // verus!
