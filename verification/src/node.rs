//! The tree behind a rope: leaves of text joined by branches.
//!
//! Nodes are never changed once built. Every operation that edits text builds
//! new nodes along the path it touches and shares the rest with the tree it
//! started from, through the reference-counted [`NodeLink`].

pub mod descend;
pub mod leaves;
pub mod render;

use std::sync::Arc;
use vstd::prelude::*;
use vstd::utf8::{decode_utf8, encode_utf8, valid_utf8};
use crate::balance::{fib_balanced, is_fib_balanced};
use crate::metric::{Chars, Lines, Metric, Weight};
use crate::text::{
    lemma_count_chars_bound, lemma_count_chars_concat, lemma_count_lines_bound,
    lemma_count_lines_concat,
};

pub use crate::node::descend::{can_cut, cut_point};

verus! {

/// One cell of the tree.
#[derive(Debug)]
pub enum Node {
    /// No text at all.
    Empty,
    /// A fragment of text. In a well-formed tree it is never empty.
    Leaf(String),
    /// Two subtrees, the text of the left one before that of the right one.
    Branch(Branch),
}

/// The two children of a branch and what it caches about them.
#[derive(Debug)]
pub struct Branch {
    left: NodeLink,
    right: NodeLink,
    /// The measures of the left subtree.
    weight: Weight,
    /// The measures of the whole subtree.
    total: Weight,
    depth: usize,
    balanced: bool,
}

/// A shared handle to a node. Cloning it shares the node.
#[derive(Debug)]
pub struct NodeLink {
    node: Arc<Node>,
}

impl Node {
    /// The bytes of the text under this node, left to right.
    pub closed spec fn bytes(&self) -> Seq<u8>
        decreases self,
    {
        match self {
            Node::Empty => Seq::empty(),
            Node::Leaf(s) => encode_utf8(s@),
            Node::Branch(b) => b.left.node.bytes() + b.right.node.bytes(),
        }
    }

    /// The texts of the leaves under this node, left to right.
    pub closed spec fn fragments(&self) -> Seq<Seq<char>>
        decreases self,
    {
        match self {
            Node::Empty => Seq::empty(),
            Node::Leaf(s) => seq![s@],
            Node::Branch(b) => b.left.node.fragments() + b.right.node.fragments(),
        }
    }

    /// The texts of the parts of the leaves under this node that lie between
    /// the byte offsets `start` and `end`, left to right.
    pub closed spec fn fragments_between(&self, start: int, end: int) -> Seq<Seq<char>>
        decreases self,
    {
        match self {
            Node::Empty => Seq::empty(),
            Node::Leaf(s) => if start < end {
                seq![decode_utf8(encode_utf8(s@).subrange(start, end))]
            } else {
                Seq::empty()
            },
            Node::Branch(b) => {
                let w = b.left.node.bytes().len() as int;
                let head = if start < w {
                    b.left.node.fragments_between(
                        start,
                        if end < w {
                            end
                        } else {
                            w
                        },
                    )
                } else {
                    Seq::empty()
                };
                let tail = if end > w {
                    b.right.node.fragments_between(
                        if start > w {
                            start - w
                        } else {
                            0
                        },
                        end - w,
                    )
                } else {
                    Seq::empty()
                };
                head + tail
            },
        }
    }

    /// The number of branches on the longest way down to a leaf.
    pub closed spec fn depth(&self) -> nat
        decreases self,
    {
        match self {
            Node::Empty => 0,
            Node::Leaf(_) => 0,
            Node::Branch(b) => {
                let l = b.left.node.depth();
                let r = b.right.node.depth();
                if l >= r {
                    l + 1
                } else {
                    r + 1
                }
            },
        }
    }

    /// True when this subtree and each subtree below it holds enough bytes
    /// for its depth.
    pub closed spec fn balanced(&self) -> bool
        decreases self,
    {
        match self {
            Node::Empty => true,
            Node::Leaf(_) => true,
            Node::Branch(b) => {
                &&& fib_balanced(self.depth(), self.bytes().len())
                &&& b.left.node.balanced()
                &&& b.right.node.balanced()
            },
        }
    }

    /// True when `sub` is this node or a node somewhere below it.
    pub closed spec fn contains(&self, sub: Node) -> bool
        decreases self,
    {
        *self == sub || match self {
            Node::Branch(b) => b.left.node.contains(sub) || b.right.node.contains(sub),
            _ => false,
        }
    }

    /// True when no leaf is empty, no branch has an empty child, and every
    /// branch caches what its subtrees hold.
    pub closed spec fn wf(&self) -> bool
        decreases self,
    {
        match self {
            Node::Empty => true,
            Node::Leaf(s) => 0 < encode_utf8(s@).len() <= usize::MAX,
            Node::Branch(b) => {
                &&& b.left.node.wf()
                &&& b.right.node.wf()
                &&& !(*b.left.node is Empty)
                &&& !(*b.right.node is Empty)
                &&& b.weight.measures(b.left.node.bytes())
                &&& b.total.measures(self.bytes())
                &&& b.depth == self.depth()
                &&& b.balanced == self.balanced()
            },
        }
    }
}

impl Branch {
    /// The left child.
    pub closed spec fn left_child(&self) -> NodeLink {
        self.left
    }

    /// The right child.
    pub closed spec fn right_child(&self) -> NodeLink {
        self.right
    }

    /// What the branch caches as the measures of its left subtree.
    pub closed spec fn left_weight(&self) -> Weight {
        self.weight
    }

    /// The left child.
    pub fn left(&self) -> (res: &NodeLink)
        ensures
            *res == self.left_child(),
    {
        &self.left
    }

    /// The right child.
    pub fn right(&self) -> (res: &NodeLink)
        ensures
            *res == self.right_child(),
    {
        &self.right
    }

    /// The measures of the left subtree in every coordinate system.
    pub fn weight(&self) -> (res: Weight)
        ensures
            res == self.left_weight(),
    {
        self.weight
    }
}

impl View for NodeLink {
    type V = Seq<u8>;

    /// The bytes of the text under this link.
    closed spec fn view(&self) -> Seq<u8> {
        self.node.bytes()
    }
}

impl NodeLink {
    /// True when the tree under this link is well formed. Every link that
    /// executable code holds is.
    #[verifier::type_invariant]
    pub closed spec fn wf(&self) -> bool {
        self.node.wf()
    }

    /// The depth of the tree under this link.
    pub closed spec fn depth(&self) -> nat {
        self.node.depth()
    }

    /// True when every subtree under this link holds enough bytes for its depth.
    pub closed spec fn balanced(&self) -> bool {
        self.node.balanced()
    }

    /// The characters of the text under this link.
    pub open spec fn text(&self) -> Seq<char> {
        decode_utf8(self@)
    }

    /// The texts of the leaves under this link, left to right: the fragments
    /// that the text is kept in.
    pub closed spec fn fragments(&self) -> Seq<Seq<char>> {
        self.node.fragments()
    }

    /// The texts of the parts of the leaves under this link that lie between
    /// the byte offsets `start` and `end`, left to right.
    pub closed spec fn fragments_between(&self, start: int, end: int) -> Seq<Seq<char>> {
        self.node.fragments_between(start, end)
    }

    /// True when this link leads to a leaf or to nothing.
    pub closed spec fn is_flat(&self) -> bool {
        !(*self.node is Branch)
    }

    /// True when this link leads to a branch.
    pub open spec fn is_branch(&self) -> bool {
        !self.is_flat()
    }

    /// The left child of the branch that this link leads to.
    pub closed spec fn left(&self) -> NodeLink {
        self.node->Branch_0.left
    }

    /// The right child of the branch that this link leads to.
    pub closed spec fn right(&self) -> NodeLink {
        self.node->Branch_0.right
    }

    /// The text to the left of the root: that of the left child of a branch,
    /// the whole text of a leaf.
    pub open spec fn left_text(&self) -> Seq<u8> {
        if self.is_branch() {
            self.left()@
        } else {
            self@
        }
    }

    /// True when the tree that `new_branch` makes of `left` and `right` is
    /// balanced: the branch over the two, or the one of them that is not
    /// empty.
    pub open spec fn join_balanced(left: NodeLink, right: NodeLink) -> bool {
        if left@.len() == 0 {
            right.balanced()
        } else if right@.len() == 0 {
            left.balanced()
        } else {
            &&& left.balanced()
            &&& right.balanced()
            &&& fib_balanced(
                if left.depth() >= right.depth() {
                    left.depth() + 1
                } else {
                    right.depth() + 1
                },
                left@.len() + right@.len(),
            )
        }
    }

    /// True when `sub` is the tree under this link or a subtree of it.
    pub closed spec fn has_subtree(&self, sub: NodeLink) -> bool {
        self.node.contains(*sub.node)
    }

    /// The subtrees of a tree are the tree itself and, under a branch, the
    /// subtrees of its two children.
    pub proof fn lemma_subtrees(&self, sub: NodeLink)
        ensures
            self.has_subtree(sub) <==> *self == sub || (self.is_branch() && (
            self.left().has_subtree(sub) || self.right().has_subtree(sub))),
            self.has_subtree(*self),
            self.is_branch() ==> self@ == self.left()@ + self.right()@,
            self.is_branch() ==> self.has_subtree(self.left()) && self.has_subtree(self.right()),
    {
        reveal_with_fuel(Node::contains, 2);
    }

    /// In a balanced tree every subtree holds enough bytes for its depth.
    pub proof fn lemma_subtrees_balanced(&self, sub: NodeLink)
        requires
            self.balanced(),
            self.has_subtree(sub),
        ensures
            sub.balanced(),
            fib_balanced(sub.depth(), sub@.len()),
    {
        lemma_node_subtrees_balanced(&self.node, &sub.node);
        sub.lemma_balanced();
    }

    /// A tree is balanced exactly when each of its subtrees, itself among
    /// them, holds enough bytes for its depth.
    pub proof fn lemma_balanced_iff(&self)
        ensures
            self.balanced() <==> forall|sub: NodeLink|
                self.has_subtree(sub) ==> fib_balanced(sub.depth(), sub@.len()),
    {
        if self.balanced() {
            assert forall|sub: NodeLink| self.has_subtree(sub) implies fib_balanced(
                sub.depth(),
                sub@.len(),
            ) by {
                self.lemma_subtrees_balanced(sub);
            }
        }
        if forall|sub: NodeLink| self.has_subtree(sub) ==> fib_balanced(sub.depth(), sub@.len()) {
            lemma_link_balanced_from_subtrees(self);
        }
    }

    /// The text of a well-formed tree is valid UTF-8.
    pub proof fn lemma_valid(&self)
        requires
            self.wf(),
        ensures
            valid_utf8(self@),
    {
        lemma_node_valid(&self.node);
    }

    /// A well-formed tree with text holds more bytes than it is deep.
    pub proof fn lemma_depth(&self)
        requires
            self.wf(),
        ensures
            self@.len() > 0 ==> self.depth() < self@.len(),
            self@.len() == 0 ==> self.depth() == 0,
    {
        lemma_node_depth(&self.node);
    }

    /// The text of a well-formed tree has a length that `usize` can hold.
    pub proof fn lemma_len(&self)
        requires
            self.wf(),
        ensures
            self@.len() <= usize::MAX,
    {
    }

    /// What `balanced` promises of the tree as a whole.
    pub proof fn lemma_balanced(&self)
        requires
            self.balanced(),
        ensures
            fib_balanced(self.depth(), self@.len()),
    {
        reveal_with_fuel(crate::balance::fib, 3);
    }

    /// A tree without branches is balanced, whatever it holds.
    pub proof fn lemma_flat_balanced(&self)
        requires
            self.is_flat(),
        ensures
            self.balanced(),
            self.depth() == 0,
    {
    }
}

proof fn lemma_node_subtrees_balanced(node: &Node, sub: &Node)
    requires
        node.balanced(),
        node.contains(*sub),
    ensures
        sub.balanced(),
    decreases node,
{
    if *node != *sub {
        match node {
            Node::Branch(b) => {
                if b.left.node.contains(*sub) {
                    lemma_node_subtrees_balanced(&b.left.node, sub);
                } else {
                    lemma_node_subtrees_balanced(&b.right.node, sub);
                }
            },
            _ => {},
        }
    }
}

proof fn lemma_link_balanced_from_subtrees(link: &NodeLink)
    requires
        forall|sub: NodeLink| link.has_subtree(sub) ==> fib_balanced(sub.depth(), sub@.len()),
    ensures
        link.balanced(),
    decreases link,
{
    link.lemma_subtrees(*link);
    match &*link.node {
        Node::Branch(b) => {
            assert forall|sub: NodeLink| b.left.has_subtree(sub) implies fib_balanced(
                sub.depth(),
                sub@.len(),
            ) by {
                link.lemma_subtrees(sub);
            }
            assert forall|sub: NodeLink| b.right.has_subtree(sub) implies fib_balanced(
                sub.depth(),
                sub@.len(),
            ) by {
                link.lemma_subtrees(sub);
            }
            lemma_link_balanced_from_subtrees(&b.left);
            lemma_link_balanced_from_subtrees(&b.right);
        },
        _ => {},
    }
}

proof fn lemma_node_valid(node: &Node)
    requires
        node.wf(),
    ensures
        valid_utf8(node.bytes()),
    decreases node,
{
    match node {
        Node::Empty => {},
        Node::Leaf(s) => {
            vstd::utf8::encode_utf8_valid_utf8(s@);
        },
        Node::Branch(b) => {
            lemma_node_valid(&b.left.node);
            lemma_node_valid(&b.right.node);
            vstd::utf8::valid_utf8_concat(b.left.node.bytes(), b.right.node.bytes());
        },
    }
}

proof fn lemma_node_depth(node: &Node)
    requires
        node.wf(),
    ensures
        !(node is Empty) ==> node.depth() < node.bytes().len(),
        node is Empty ==> node.depth() == 0 && node.bytes().len() == 0,
    decreases node,
{
    match node {
        Node::Empty => {},
        Node::Leaf(s) => {},
        Node::Branch(b) => {
            lemma_node_depth(&b.left.node);
            lemma_node_depth(&b.right.node);
        },
    }
}

/// Shares a node: `Arc::clone` hands back a handle to the same node.
#[verifier::external_body]
fn share(node: &Arc<Node>) -> (res: Arc<Node>)
    ensures
        res == *node,
{
    Arc::clone(node)
}

impl Clone for NodeLink {
    /// Another handle to the same tree. Nothing is copied.
    fn clone(&self) -> (res: Self)
        ensures
            res == *self,
    {
        proof {
            use_type_invariant(self);
        }
        NodeLink { node: share(&self.node) }
    }
}

impl Node {
    /// A link to a node without text.
    pub fn empty() -> (res: NodeLink)
        ensures
            res@ == Seq::<u8>::empty(),
            res.is_flat(),
            res.fragments() == Seq::<Seq<char>>::empty(),
    {
        NodeLink { node: Arc::new(Node::Empty) }
    }

    /// A link to a leaf that holds `text`, or to the empty node when `text`
    /// is empty.
    pub fn new_leaf(text: String) -> (res: NodeLink)
        ensures
            res@ == encode_utf8(text@),
            res.is_flat(),
            res.fragments() == if encode_utf8(text@).len() == 0 {
                Seq::<Seq<char>>::empty()
            } else {
                seq![text@]
            },
    {
        if text.as_str().as_bytes().len() == 0 {
            NodeLink { node: Arc::new(Node::Empty) }
        } else {
            NodeLink { node: Arc::new(Node::Leaf(text)) }
        }
    }

    /// A link to the tree that holds the text of `left` followed by that of
    /// `right`. When one of the two is empty the result is the other one.
    pub fn new_branch(left: NodeLink, right: NodeLink) -> (res: NodeLink)
        requires
            left@.len() + right@.len() <= usize::MAX,
        ensures
            res@ == left@ + right@,
            left@.len() == 0 ==> res == right,
            left@.len() != 0 && right@.len() == 0 ==> res == left,
            left@.len() != 0 && right@.len() != 0 ==> res.depth() == 1 + if left.depth()
                >= right.depth() {
                left.depth()
            } else {
                right.depth()
            },
            res.balanced() == NodeLink::join_balanced(left, right),
            left@.len() != 0 && right@.len() != 0 ==> res.is_branch() && res.left() == left
                && res.right() == right,
            res.fragments() == left.fragments() + right.fragments(),
    {
        proof {
            use_type_invariant(&left);
            use_type_invariant(&right);
            lemma_node_depth(&left.node);
            lemma_node_depth(&right.node);
        }
        if left.is_empty() {
            assert(left@ + right@ =~= right@);
            assert(left.fragments() + right.fragments() =~= right.fragments());
            return right;
        }
        if right.is_empty() {
            assert(left@ + right@ =~= left@);
            assert(left.fragments() + right.fragments() =~= left.fragments());
            return left;
        }
        let weight = left.total();
        let rest = right.total();
        proof {
            lemma_count_chars_concat(left@, right@);
            lemma_count_lines_concat(left@, right@);
            lemma_count_chars_bound(left@ + right@);
            lemma_count_lines_bound(left@ + right@);
        }
        let total = Weight {
            bytes: weight.bytes + rest.bytes,
            chars: weight.chars + rest.chars,
            lines: weight.lines + rest.lines,
        };
        let ld = left.height();
        let rd = right.height();
        let depth = if ld >= rd {
            ld + 1
        } else {
            rd + 1
        };
        let balanced = left.is_balanced() && right.is_balanced() && is_fib_balanced(
            depth,
            total.bytes,
        );
        NodeLink {
            node: Arc::new(Node::Branch(Branch { left, right, weight, total, depth, balanced })),
        }
    }
}

impl NodeLink {
    /// The node that this link leads to.
    pub fn node(&self) -> (res: &Node)
        ensures
            res.bytes() == self@,
            res.wf(),
            res is Branch <==> self.is_branch(),
            res matches Node::Branch(b) ==> b.left_child() == self.left() && b.right_child()
                == self.right() && b.left_weight().measures(self.left()@),
    {
        proof {
            use_type_invariant(self);
        }
        &*self.node
    }

    /// True when there is no text under this link.
    pub fn is_empty(&self) -> (res: bool)
        ensures
            res == (self@.len() == 0),
    {
        proof {
            use_type_invariant(self);
        }
        proof {
            lemma_node_depth(&self.node);
        }
        match &*self.node {
            Node::Empty => true,
            _ => false,
        }
    }

    /// The number of bytes of text under this link.
    pub fn len(&self) -> (res: usize)
        ensures
            res == self@.len(),
    {
        proof {
            use_type_invariant(self);
        }
        match &*self.node {
            Node::Empty => 0,
            Node::Leaf(s) => s.as_str().as_bytes().len(),
            Node::Branch(b) => b.total.bytes,
        }
    }

    /// The depth of the tree under this link.
    pub fn height(&self) -> (res: usize)
        ensures
            res == self.depth(),
    {
        proof {
            use_type_invariant(self);
        }
        match &*self.node {
            Node::Empty => 0,
            Node::Leaf(_) => 0,
            Node::Branch(b) => b.depth,
        }
    }

    /// Tells whether every subtree under this link holds enough bytes for
    /// its depth.
    pub fn is_balanced(&self) -> (res: bool)
        ensures
            res == self.balanced(),
            res <==> forall|sub: NodeLink|
                self.has_subtree(sub) ==> fib_balanced(sub.depth(), sub@.len()),
    {
        proof {
            use_type_invariant(self);
            self.lemma_balanced_iff();
        }
        match &*self.node {
            Node::Empty => true,
            Node::Leaf(_) => true,
            Node::Branch(b) => b.balanced,
        }
    }

    /// The measures of the text under this link in every coordinate system.
    pub fn total(&self) -> (res: Weight)
        ensures
            res.measures(self@),
    {
        proof {
            use_type_invariant(self);
        }
        match &*self.node {
            Node::Empty => Weight { bytes: 0, chars: 0, lines: 0 },
            Node::Leaf(s) => Weight {
                bytes: s.as_str().as_bytes().len(),
                chars: Chars::measure_str(s.as_str()).get(),
                lines: Lines::measure_str(s.as_str()).get(),
            },
            Node::Branch(b) => b.total,
        }
    }
}

} // verus!
