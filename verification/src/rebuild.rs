//! Rebuilding a tree so that it is balanced.
//!
//! The fragments of the old tree are read off left to right, short
//! neighbours are joined, and the new leaves are merged in pairs, level by
//! level, until one tree is left. That tree is as shallow as a binary tree
//! over its leaves can be, and it meets the balance criterion.

use vstd::prelude::*;
use vstd::string::StringExecFns;
use vstd::utf8::encode_utf8;
use crate::balance::{lemma_fib_pow2, lemma_pow2_positive, pow2};
use crate::node::{Node, NodeLink};
use crate::walk::{flatten, lemma_encode_concat, texts};

verus! {

/// Fragments are joined on rebuilding while the joined fragment stays within
/// this many bytes.
pub const COALESCE_LIMIT: usize = 64;

/// The bytes under a sequence of links, one after the other.
spec fn concat_links(links: Seq<NodeLink>) -> Seq<u8>
    decreases links.len(),
{
    if links.len() == 0 {
        Seq::empty()
    } else {
        concat_links(links.drop_last()) + links.last()@
    }
}

proof fn lemma_concat_links_push(links: Seq<NodeLink>, last: NodeLink)
    ensures
        concat_links(links.push(last)) == concat_links(links) + last@,
{
    assert(links.push(last).drop_last() =~= links);
}

proof fn lemma_concat_links_concat(a: Seq<NodeLink>, b: Seq<NodeLink>)
    ensures
        concat_links(a + b) == concat_links(a) + concat_links(b),
    decreases b.len(),
{
    if b.len() == 0 {
        assert(a + b =~= a);
        assert(concat_links(a) + concat_links(b) =~= concat_links(a));
    } else {
        assert((a + b).drop_last() =~= a + b.drop_last());
        lemma_concat_links_concat(a, b.drop_last());
        assert(concat_links(a + b) =~= concat_links(a) + concat_links(b));
    }
}

/// The fragments under a sequence of links, one link after the other.
spec fn all_fragments(links: Seq<NodeLink>) -> Seq<Seq<char>>
    decreases links.len(),
{
    if links.len() == 0 {
        Seq::empty()
    } else {
        all_fragments(links.drop_last()) + links.last().fragments()
    }
}

proof fn lemma_all_fragments_push(links: Seq<NodeLink>, last: NodeLink)
    ensures
        all_fragments(links.push(last)) == all_fragments(links) + last.fragments(),
{
    assert(links.push(last).drop_last() =~= links);
}

/// Links that each hold one fragment hold as many fragments as they are.
proof fn lemma_all_fragments_len(links: Seq<NodeLink>)
    requires
        forall|i: int| 0 <= i < links.len() ==> (#[trigger] links[i]).fragments().len() == 1,
    ensures
        all_fragments(links).len() == links.len(),
    decreases links.len(),
{
    if links.len() > 0 {
        lemma_all_fragments_len(links.drop_last());
    }
}

/// The least `d` with `n <= pow2(d)`: the depth of the shallowest binary
/// tree with `n` leaves.
pub open spec fn ceil_log2(n: nat) -> nat
    decreases n,
{
    if n <= 1 {
        0
    } else {
        1 + ceil_log2((n + 1) / 2)
    }
}

/// What coalescing has done after one more fragment: `done` are the
/// fragments that are finished and `held` is the one that may still grow.
/// The fragment `frag` is joined to `held` unless that would make more than
/// `COALESCE_LIMIT` bytes of a fragment that is not empty.
pub open spec fn coalesce_step(done: Seq<Seq<char>>, held: Seq<char>, frag: Seq<char>) -> (
    Seq<Seq<char>>,
    Seq<char>,
) {
    if encode_utf8(held).len() > 0 && encode_utf8(held).len() + encode_utf8(frag).len()
        > COALESCE_LIMIT {
        (done.push(held), frag)
    } else {
        (done, held + frag)
    }
}

/// What coalescing has done after all of `frags`.
pub open spec fn coalesce_state(frags: Seq<Seq<char>>) -> (Seq<Seq<char>>, Seq<char>)
    decreases frags.len(),
{
    if frags.len() == 0 {
        (Seq::empty(), Seq::empty())
    } else {
        let before = coalesce_state(frags.drop_last());
        coalesce_step(before.0, before.1, frags.last())
    }
}

/// The fragments that coalescing makes of `frags`: neighbours are joined,
/// left to right, while the joined fragment stays within `COALESCE_LIMIT`
/// bytes.
pub open spec fn coalesced(frags: Seq<Seq<char>>) -> Seq<Seq<char>> {
    let state = coalesce_state(frags);
    if encode_utf8(state.1).len() > 0 {
        state.0.push(state.1)
    } else {
        state.0
    }
}

/// Two neighbours in a sequence of links hold no more bytes than the whole.
proof fn lemma_concat_links_pair(links: Seq<NodeLink>, i: int)
    requires
        0 <= i,
        i + 1 < links.len(),
    ensures
        concat_links(links.take(i + 2)) == concat_links(links.take(i)) + links[i]@ + links[i + 1]@,
        concat_links(links.take(i + 2)).len() <= concat_links(links).len(),
{
    assert(links.take(i + 1) =~= links.take(i).push(links[i]));
    assert(links.take(i + 2) =~= links.take(i + 1).push(links[i + 1]));
    lemma_concat_links_push(links.take(i), links[i]);
    lemma_concat_links_push(links.take(i + 1), links[i + 1]);
    assert(links =~= links.take(i + 2) + links.skip(i + 2));
    lemma_concat_links_concat(links.take(i + 2), links.skip(i + 2));
}

/// True when every link of a level is a balanced, non-empty
/// tree of depth `k` at most, and each but the last is of depth `k` exactly
/// and holds `pow2(k)` bytes or more.
spec fn is_level(links: Seq<NodeLink>, k: nat) -> bool {
    &&& forall|i: int|
        0 <= i < links.len() ==> {
            &&& (#[trigger] links[i]).balanced()
            &&& links[i]@.len() > 0
            &&& links[i].depth() <= k
        }
    &&& forall|i: int|
        0 <= i < links.len() - 1 ==> (#[trigger] links[i]).depth() == k && links[i]@.len() >= pow2(
            k,
        )
}

/// Makes leaves of the fragments, joining neighbours while the joined
/// fragment stays within `COALESCE_LIMIT` bytes.
fn coalesce(frags: &Vec<&str>) -> (res: Vec<NodeLink>)
    ensures
        concat_links(res@) == flatten(frags@),
        is_level(res@, 0),
        all_fragments(res@) == coalesced(texts(frags@)),
        forall|j: int| 0 <= j < res@.len() ==> (#[trigger] res@[j]).fragments().len() == 1,
{
    let mut out: Vec<NodeLink> = Vec::new();
    let mut buf = String::new();
    let mut i: usize = 0;
    assert(encode_utf8(buf@) =~= Seq::<u8>::empty());
    assert(texts(frags@.take(0)) =~= Seq::<Seq<char>>::empty());
    while i < frags.len()
        invariant
            i <= frags.len(),
            concat_links(out@) + encode_utf8(buf@) == flatten(frags@.take(i as int)),
            coalesce_state(texts(frags@.take(i as int))) == (all_fragments(out@), buf@),
            forall|j: int| 0 <= j < out@.len() ==> (#[trigger] out@[j]).fragments().len() == 1,
            is_level(out@, 0),
            forall|j: int|
                0 <= j < out@.len() ==> (#[trigger] out@[j]).depth() == 0 && out@[j]@.len() >= 1,
        decreases frags.len() - i,
    {
        let frag = frags[i];
        let held = buf.as_str().as_bytes().len();
        let more = frag.as_bytes().len();
        proof {
            assert(frags@.take(i + 1) =~= frags@.take(i as int).push(frag));
            crate::walk::lemma_flatten_push(frags@.take(i as int), frag);
            let upto = texts(frags@.take(i + 1));
            assert(upto.drop_last() =~= texts(frags@.take(i as int)));
            assert(upto.last() == frag@);
        }
        if held > 0 && (more > COALESCE_LIMIT || held > COALESCE_LIMIT - more) {
            let leaf = Node::new_leaf(buf);
            proof {
                leaf.lemma_flat_balanced();
                lemma_concat_links_push(out@, leaf);
                lemma_all_fragments_push(out@, leaf);
                reveal_with_fuel(pow2, 1);
            }
            out.push(leaf);
            buf = frag.to_owned();
        } else {
            proof {
                lemma_encode_concat(buf@, frag@);
                assert(concat_links(out@) + (encode_utf8(buf@) + encode_utf8(frag@)) =~= (
                concat_links(out@) + encode_utf8(buf@)) + encode_utf8(frag@));
            }
            buf.append(frag);
        }
        i = i + 1;
    }
    assert(frags@.take(i as int) =~= frags@);
    if buf.as_str().as_bytes().len() > 0 {
        let leaf = Node::new_leaf(buf);
        proof {
            leaf.lemma_flat_balanced();
            lemma_concat_links_push(out@, leaf);
            lemma_all_fragments_push(out@, leaf);
        }
        out.push(leaf);
    } else {
        assert(concat_links(out@) + encode_utf8(buf@) =~= concat_links(out@));
    }
    out
}

/// Merges the links of one level in pairs; an odd one at the end is carried
/// over as it is.
fn merge_pairs(level: &Vec<NodeLink>, Ghost(k): Ghost<nat>) -> (res: Vec<NodeLink>)
    requires
        is_level(level@, k),
        concat_links(level@).len() <= usize::MAX,
    ensures
        is_level(res@, k + 1),
        concat_links(res@) == concat_links(level@),
        all_fragments(res@) == all_fragments(level@),
        res@.len() == (level@.len() + 1) / 2,
        level@.len() == 2 ==> res@[0].depth() == k + 1,
{
    let mut out: Vec<NodeLink> = Vec::new();
    let mut i: usize = 0;
    while i + 1 < level.len()
        invariant
            i <= level.len(),
            i % 2 == 0,
            out@.len() == i / 2,
            is_level(level@, k),
            concat_links(level@).len() <= usize::MAX,
            concat_links(out@) == concat_links(level@.take(i as int)),
            all_fragments(out@) == all_fragments(level@.take(i as int)),
            forall|j: int|
                0 <= j < out@.len() ==> {
                    &&& (#[trigger] out@[j]).balanced()
                    &&& out@[j]@.len() > 0
                    &&& out@[j].depth() == k + 1
                    &&& (2 * j + 2 < level@.len() ==> out@[j]@.len() >= pow2(k + 1))
                },
        decreases level.len() - i,
    {
        let left = level[i].clone();
        let right = level[i + 1].clone();
        proof {
            lemma_concat_links_pair(level@, i as int);
            lemma_fib_pow2(k);
            lemma_pow2_positive(k);
            reveal_with_fuel(pow2, 2);
        }
        let merged = Node::new_branch(left, right);
        proof {
            lemma_all_fragments_push(out@, merged);
            lemma_all_fragments_push(level@.take(i as int), level@[i as int]);
            lemma_all_fragments_push(level@.take(i + 1), level@[i + 1]);
            assert(level@.take(i + 1) =~= level@.take(i as int).push(level@[i as int]));
            assert(level@.take(i + 2) =~= level@.take(i + 1).push(level@[i + 1]));
            let done = all_fragments(level@.take(i as int));
            let first = level@[i as int].fragments();
            let second = level@[i + 1].fragments();
            assert(done + (first + second) =~= done + first + second);
            lemma_concat_links_push(out@, merged);
            assert(concat_links(level@.take(i as int)) + (level@[i as int]@ + level@[i + 1]@)
                =~= concat_links(level@.take(i as int)) + level@[i as int]@ + level@[i + 1]@);
        }
        out.push(merged);
        i = i + 2;
    }
    if i < level.len() {
        let last = level[i].clone();
        proof {
            lemma_concat_links_push(out@, last);
            lemma_all_fragments_push(out@, last);
            lemma_all_fragments_push(level@.take(i as int), level@[i as int]);
            assert(level@.take(i + 1) =~= level@.take(i as int).push(level@[i as int]));
            lemma_concat_links_push(level@.take(i as int), level@[i as int]);
            assert(level@.take(i + 1) =~= level@);
        }
        out.push(last);
    } else {
        assert(level@.take(i as int) =~= level@);
    }
    out
}

/// Merges leaves into one balanced tree, pair by pair and level by level.
fn merge_all(leaves: Vec<NodeLink>) -> (res: NodeLink)
    requires
        is_level(leaves@, 0),
        concat_links(leaves@).len() <= usize::MAX,
        forall|j: int| 0 <= j < leaves@.len() ==> (#[trigger] leaves@[j]).depth() == 0,
    ensures
        res.balanced(),
        res@ == concat_links(leaves@),
        res.fragments() == all_fragments(leaves@),
        res.depth() == ceil_log2(leaves@.len()),
{
    if leaves.len() == 0 {
        let res = Node::empty();
        proof {
            res.lemma_flat_balanced();
        }
        return res;
    }
    let mut level = leaves;
    let ghost mut k: nat = 0;
    while level.len() > 1
        invariant
            level@.len() >= 1,
            is_level(level@, k),
            concat_links(level@) == concat_links(leaves@),
            all_fragments(level@) == all_fragments(leaves@),
            concat_links(leaves@).len() <= usize::MAX,
            ceil_log2(level@.len()) + k == ceil_log2(leaves@.len()),
            level@.len() == 1 ==> level@[0].depth() == k,
        decreases level@.len(),
    {
        level = merge_pairs(&level, Ghost(k));
        proof {
            k = k + 1;
        }
    }
    proof {
        reveal_with_fuel(concat_links, 2);
        reveal_with_fuel(all_fragments, 2);
        assert(all_fragments(level@) =~= level@[0].fragments());
        assert(level@.drop_last() =~= Seq::<NodeLink>::empty());
        assert(level@.last() == level@[0]);
        assert(concat_links(level@) =~= level@[0]@);
    }
    level[0].clone()
}

impl NodeLink {
    /// A balanced tree with the text of `left` followed by that of `right`:
    /// the branch over the two if that is balanced, and else a tree built
    /// anew from its fragments.
    pub fn concatenate(left: NodeLink, right: NodeLink) -> (res: NodeLink)
        requires
            left@.len() + right@.len() <= usize::MAX,
        ensures
            res.balanced(),
            res@ == left@ + right@,
            NodeLink::join_balanced(left, right) ==> {
                &&& res.fragments() == left.fragments() + right.fragments()
                &&& left@.len() == 0 ==> res == right
                &&& left@.len() != 0 && right@.len() == 0 ==> res == left
                &&& left@.len() != 0 && right@.len() != 0 ==> res.is_branch() && res.left()
                    == left && res.right() == right
            },
            !NodeLink::join_balanced(left, right) ==> {
                &&& res.fragments() == coalesced(left.fragments() + right.fragments())
                &&& res.depth() == ceil_log2(res.fragments().len())
            },
    {
        Node::new_branch(left, right).rebalance()
    }

    /// A balanced tree with the text of this one, built anew from its
    /// fragments.
    pub fn rebuild(&self) -> (res: NodeLink)
        ensures
            res.balanced(),
            res@ == self@,
            res.fragments() == coalesced(self.fragments()),
            res.depth() == ceil_log2(res.fragments().len()),
    {
        proof {
            use_type_invariant(self);
            self.lemma_len();
        }
        let frags = self.strings();
        let leaves = coalesce(&frags);
        proof {
            lemma_all_fragments_len(leaves@);
        }
        merge_all(leaves)
    }

    /// A balanced tree with the text of this one: this tree itself when it
    /// is balanced, and one built anew when it is not.
    pub fn rebalance(&self) -> (res: NodeLink)
        ensures
            res.balanced(),
            res@ == self@,
            self.balanced() ==> res == *self,
            !self.balanced() ==> res.fragments() == coalesced(self.fragments()) && res.depth()
                == ceil_log2(res.fragments().len()),
    {
        if self.is_balanced() {
            self.clone()
        } else {
            self.rebuild()
        }
    }
}

} // verus!
