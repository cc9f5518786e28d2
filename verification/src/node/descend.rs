//! Going down the tree to a position: measuring, locating, cutting.

use vstd::prelude::*;
use vstd::utf8::encode_utf8;
use crate::metric::{
    byte_index, lemma_byte_index_concat, lemma_byte_index_exists, lemma_byte_index_is,
    lemma_byte_index_zero, Metric,
};
use crate::node::{lemma_node_depth, lemma_node_valid, Node, NodeLink};
use crate::text::{char_boundary, lemma_char_boundary_is_std, lemma_valid_cut};

verus! {

/// The offset at which position `k` of metric `M` cuts `text`; meaningful
/// when `text` reaches that far.
pub open spec fn cut_point<M: Metric>(text: Seq<u8>, k: nat) -> int {
    byte_index::<M>(text, k)->0
}

/// True when `text` may be cut at position `k` of metric `M`: the position
/// exists and does not fall inside a character.
pub open spec fn can_cut<M: Metric>(text: Seq<u8>, k: nat) -> bool {
    byte_index::<M>(text, k) is Some && char_boundary(text, cut_point::<M>(text, k))
}

impl NodeLink {
    /// The measure of the text under this link.
    pub fn measure<M: Metric>(&self) -> (res: M)
        ensures
            res.value() == M::measure_of(self@),
    {
        proof {
            use_type_invariant(self);
        }
        match &*self.node {
            Node::Empty => {
                proof {
                    M::lemma_measure_bound(self@);
                }
                M::zero()
            },
            Node::Leaf(s) => M::measure_str(s.as_str()),
            Node::Branch(b) => {
                proof {
                    M::lemma_cached(b.total, self@);
                }
                M::weight(&b.total)
            },
        }
    }

    /// The measure of what lies to the left of the root: of the left subtree
    /// of a branch, of the whole of a leaf.
    pub fn measure_weight<M: Metric>(&self) -> (res: M)
        ensures
            res.value() == M::measure_of(self.left_text()),
            res.value() <= M::measure_of(self@),
    {
        proof {
            use_type_invariant(self);
        }
        match &*self.node {
            Node::Branch(b) => {
                proof {
                    M::lemma_cached(b.weight, b.left@);
                    M::lemma_measure_concat(b.left@, b.right@);
                }
                M::weight(&b.weight)
            },
            _ => self.measure::<M>(),
        }
    }

    /// The byte offset of position `index`, or `None` when the text is
    /// shorter than that.
    pub fn to_byte_index<M: Metric>(&self, index: M) -> (res: Option<usize>)
        ensures
            res is None <==> index.value() > M::measure_of(self@),
            match res {
                Some(at) => byte_index::<M>(self@, index.value()) == Some(at as int),
                None => byte_index::<M>(self@, index.value()) is None,
            },
        decreases self,
    {
        let k = index.get();
        proof {
            use_type_invariant(self);
            lemma_node_valid(&self.node);
            lemma_byte_index_exists::<M>(self@, k as nat);
        }
        match &*self.node {
            Node::Empty => {
                proof {
                    M::lemma_measure_bound(self@);
                    lemma_byte_index_zero::<M>(self@);
                }
                if index.le(M::zero()) {
                    Some(0)
                } else {
                    None
                }
            },
            Node::Leaf(s) => {
                let found = M::str_to_byte_index(s.as_str(), index);
                proof {
                    if let Some(at) = found {
                        lemma_byte_index_is::<M>(self@, k as nat, at as int);
                    }
                }
                found
            },
            Node::Branch(b) => {
                proof {
                    M::lemma_cached(b.weight, b.left@);
                    lemma_node_valid(&b.left.node);
                    lemma_node_valid(&b.right.node);
                    lemma_byte_index_concat::<M>(b.left@, b.right@, k as nat);
                    M::lemma_measure_concat(b.left@, b.right@);
                }
                let w = M::weight(&b.weight);
                if index.le(w) {
                    b.left.to_byte_index(index)
                } else {
                    match b.right.to_byte_index(index.minus(w)) {
                        Some(at) => {
                            proof {
                                lemma_byte_index_exists::<M>(b.right@, (k - w.value()) as nat);
                            }
                            Some(b.weight.bytes + at)
                        },
                        None => None,
                    }
                }
            },
        }
    }

    /// Tells whether the text may be cut at byte offset `at` without cutting
    /// a character in two.
    pub fn is_char_boundary(&self, at: usize) -> (res: bool)
        ensures
            res == char_boundary(self@, at as int),
        decreases self,
    {
        proof {
            use_type_invariant(self);
        }
        match &*self.node {
            Node::Empty => at == 0,
            Node::Leaf(s) => {
                proof {
                    lemma_node_valid(&self.node);
                    lemma_char_boundary_is_std(self@, at as int);
                }
                s.as_str().is_char_boundary(at)
            },
            Node::Branch(b) => {
                if at < b.weight.bytes {
                    b.left.is_char_boundary(at)
                } else {
                    b.right.is_char_boundary(at - b.weight.bytes)
                }
            },
        }
    }

    /// Cuts the text at byte offset `at`: the first link holds what lies
    /// before it, the second holds the rest. New nodes are built along the
    /// cut only: a part that is the whole tree, or a whole child of its
    /// root, is that tree or child itself, and under a branch that is cut
    /// the child on the other side of the cut is kept as it is.
    pub fn split_at(&self, at: usize) -> (res: (NodeLink, NodeLink))
        requires
            char_boundary(self@, at as int),
        ensures
            res.0@ == self@.take(at as int),
            res.1@ == self@.skip(at as int),
            at == 0 ==> res.1 == *self,
            at == self@.len() ==> res.0 == *self,
            self.is_branch() && at == self.left()@.len() ==> res.0 == self.left() && res.1
                == self.right(),
            self.is_branch() && 0 < at < self.left()@.len() ==> res.1.is_branch()
                && res.1.right() == self.right(),
            self.is_branch() && self.left()@.len() < at < self@.len() ==> res.0.is_branch()
                && res.0.left() == self.left(),
        decreases self,
    {
        proof {
            use_type_invariant(self);
            lemma_node_valid(&self.node);
            lemma_node_depth(&self.node);
            if let Node::Branch(b) = &*self.node {
                lemma_node_depth(&b.left.node);
                lemma_node_depth(&b.right.node);
            }
        }
        if self.len() == 0 {
            assert(self@.take(0) =~= self@);
            assert(self@.skip(0) =~= self@);
            return (self.clone(), self.clone());
        }
        if at == 0 {
            assert(self@.take(0) =~= Seq::<u8>::empty());
            assert(self@.skip(0) =~= self@);
            return (Node::empty(), self.clone());
        }
        if at == self.len() {
            assert(self@.take(at as int) =~= self@);
            assert(self@.skip(at as int) =~= Seq::<u8>::empty());
            return (self.clone(), Node::empty());
        }
        match &*self.node {
            Node::Empty => (self.clone(), self.clone()),
            Node::Leaf(s) => {
                proof {
                    lemma_char_boundary_is_std(self@, at as int);
                }
                let (head, tail) = s.as_str().split_at(at);
                assert(self@.take(at as int) =~= self@.subrange(0, at as int));
                assert(self@.skip(at as int) =~= self@.subrange(at as int, self@.len() as int));
                (Node::new_leaf(head.to_owned()), Node::new_leaf(tail.to_owned()))
            },
            Node::Branch(b) => {
                let w = b.weight.bytes;
                if at == w {
                    assert(self@.take(at as int) =~= b.left@);
                    assert(self@.skip(at as int) =~= b.right@);
                    (b.left.clone(), b.right.clone())
                } else if at < w {
                    let (head, mid) = b.left.split_at(at);
                    assert(self@.take(at as int) =~= b.left@.take(at as int));
                    assert(self@.skip(at as int) =~= b.left@.skip(at as int) + b.right@);
                    (head, Node::new_branch(mid, b.right.clone()))
                } else {
                    let (mid, tail) = b.right.split_at(at - w);
                    assert(self@.take(at as int) =~= b.left@ + b.right@.take(at - w));
                    assert(self@.skip(at as int) =~= b.right@.skip(at - w));
                    (Node::new_branch(b.left.clone(), mid), tail)
                }
            },
        }
    }

    /// Cuts the text at position `point`: the first link holds what lies
    /// before it and measures exactly `point`, the second holds the rest.
    /// The cut is that of `split_at` at the byte offset of `point`.
    pub fn split<M: Metric>(&self, point: M) -> (res: (NodeLink, NodeLink))
        requires
            can_cut::<M>(self@, point.value()),
        ensures
            res.0@ == self@.take(cut_point::<M>(self@, point.value())),
            res.1@ == self@.skip(cut_point::<M>(self@, point.value())),
            M::measure_of(res.0@) == point.value(),
            cut_point::<M>(self@, point.value()) == 0 ==> res.1 == *self,
            cut_point::<M>(self@, point.value()) == self@.len() ==> res.0 == *self,
    {
        proof {
            use_type_invariant(self);
            lemma_node_valid(&self.node);
            lemma_byte_index_exists::<M>(self@, point.value());
        }
        match self.to_byte_index(point) {
            Some(at) => self.split_at(at),
            None => (self.clone(), Node::empty()),
        }
    }

    /// The one-byte character at byte offset `i`, as a slice of the leaf
    /// that holds it.
    pub fn index(&self, i: usize) -> (res: &str)
        requires
            i < self@.len(),
            char_boundary(self@, i as int),
            char_boundary(self@, i + 1),
        ensures
            encode_utf8(res@) == self@.subrange(i as int, i + 1),
        decreases self,
    {
        proof {
            use_type_invariant(self);
        }
        match &*self.node {
            Node::Empty => "",
            Node::Leaf(s) => {
                proof {
                    lemma_node_valid(&self.node);
                    lemma_char_boundary_is_std(self@, i as int);
                    lemma_valid_cut(self@, i as int);
                    lemma_char_boundary_is_std(self@.skip(i as int), 1);
                    assert(self@.skip(i as int) =~= self@.subrange(i as int, self@.len() as int));
                }
                let (_, tail) = s.as_str().split_at(i);
                let (one, _) = tail.split_at(1);
                assert(self@.subrange(i as int, self@.len() as int).subrange(0, 1)
                    =~= self@.subrange(i as int, i + 1));
                one
            },
            Node::Branch(b) => {
                if i < b.weight.bytes {
                    assert(self@.subrange(i as int, i + 1) =~= b.left@.subrange(i as int, i + 1));
                    b.left.index(i)
                } else {
                    let ghost j = i - b.left@.len();
                    assert(self@.subrange(i as int, i + 1) =~= b.right@.subrange(j, j + 1));
                    b.right.index(i - b.weight.bytes)
                }
            },
        }
    }
}

} // verus!
