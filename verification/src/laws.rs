//! What holds of the operations of a rope taken together.
//!
//! Each function here is a theorem about the texts that the operations hand
//! back, stated over the same models that their contracts use: `take` and
//! `skip` for the two parts of a split, `+` for concatenation, [`inserted`]
//! and [`deleted`] for the edits.

use vstd::prelude::*;
use vstd::std_specs::cmp::PartialEqSpec;
use crate::metric::{
    lemma_byte_index_exists, lemma_byte_index_is, lemma_byte_index_zero, locates, Chars, Lines,
    Metric,
};
use crate::balance::fib;
use crate::node::{can_cut, cut_point, NodeLink};
use crate::rope::{can_insert, deleted, inserted, inserted_at, Rope};
use crate::text::{
    char_boundary, count_chars, count_line_feeds, count_lines, lemma_count_chars_decoded,
    lemma_count_lines_decoded, lemma_line_start_is_boundary, lemma_valid_cut,
    lemma_valid_starts_char,
};
use vstd::utf8::{encode_utf8, valid_utf8};

verus! {

/// Splitting and concatenating again gives the text back: the two parts of
/// a rope cut at any position that it can be cut at make up the rope.
pub proof fn law_split_concat<M: Metric>(r: Rope, index: nat)
    requires
        r.wf(),
        can_cut::<M>(r@, index),
    ensures
        r@.take(cut_point::<M>(r@, index)) + r@.skip(cut_point::<M>(r@, index)) == r@,
{
    r.lemma_valid();
    lemma_byte_index_exists::<M>(r@, index);
    let at = cut_point::<M>(r@, index);
    assert(r@.take(at) + r@.skip(at) =~= r@);
}

/// Under the metrics that count characters and lines, a rope can be cut at
/// every position up to its measure; under the metric that counts bytes, at
/// every offset that is a character boundary.
pub proof fn law_positions_can_cut(r: Rope, index: nat)
    requires
        r.wf(),
    ensures
        index <= count_chars(r@) ==> can_cut::<Chars>(r@, index),
        index <= count_lines(r@) ==> can_cut::<Lines>(r@, index),
        char_boundary(r@, index as int) ==> can_cut::<usize>(r@, index)
            && cut_point::<usize>(r@, index) == index,
{
    r.lemma_valid();
    lemma_byte_index_exists::<Chars>(r@, index);
    lemma_byte_index_exists::<Lines>(r@, index);
    if index <= count_lines(r@) {
        lemma_line_start_is_boundary(r@, cut_point::<Lines>(r@, index));
    }
    if char_boundary(r@, index as int) {
        lemma_byte_index_is::<usize>(r@, index, index as int);
    }
}

/// Inserting at position zero is prepending, under every metric.
pub proof fn law_insert_at_start<M: Metric>(r: Rope, x: Rope)
    ensures
        can_insert::<M>(r@, 0),
        inserted_at::<M>(r@, 0, x@) == x@ + r@,
{
}

/// Position zero falls on the start of the text, so that putting a text in
/// there, as at any position, is putting it in at the offset of the
/// position.
pub proof fn law_position_zero<M: Metric>(r: Rope, x: Rope)
    requires
        r.wf(),
    ensures
        can_cut::<M>(r@, 0),
        cut_point::<M>(r@, 0) == 0,
        inserted_at::<M>(r@, 0, x@) == inserted(r@, cut_point::<M>(r@, 0), x@),
{
    r.lemma_valid();
    lemma_byte_index_zero::<M>(r@);
    if r@.len() > 0 {
        lemma_valid_starts_char(r@);
    }
    assert(inserted(r@, 0, x@) =~= x@ + r@);
}

/// Inserting at the position of the measure of the text is appending,
/// unless that position is position zero of a text that is not empty:
/// there, insertion at zero comes first and prepends. Only a metric under
/// which a text can hold bytes and measure nothing has such texts.
pub proof fn law_insert_at_end<M: Metric>(r: Rope, x: Rope)
    requires
        M::measure_of(r@) > 0 || r@.len() == 0,
    ensures
        can_insert::<M>(r@, M::measure_of(r@)),
        inserted_at::<M>(r@, M::measure_of(r@), x@) == r@ + x@,
{
    if r@.len() == 0 {
        assert(x@ + r@ =~= r@ + x@);
    }
}

/// Counted in bytes or in characters, a text that is not empty measures
/// more than nothing.
pub proof fn law_text_has_measure(text: Seq<u8>)
    requires
        valid_utf8(text),
        text.len() > 0,
    ensures
        <usize as Metric>::measure_of(text) > 0,
        <Chars as Metric>::measure_of(text) > 0,
{
    lemma_valid_starts_char(text);
    crate::text::lemma_count_chars_step(text, 0);
    crate::text::lemma_count_chars_prefix(text, 1, text.len() as int);
    assert(text.take(text.len() as int) =~= text);
}

/// Under the byte metric and the character metric, inserting at the
/// position of the measure of the text is appending, whatever the text.
pub proof fn law_insert_at_end_bytes_chars(r: Rope, x: Rope)
    requires
        r.wf(),
    ensures
        inserted_at::<usize>(r@, r@.len(), x@) == r@ + x@,
        inserted_at::<Chars>(r@, count_chars(r@), x@) == r@ + x@,
{
    r.lemma_valid();
    if r@.len() > 0 {
        law_text_has_measure(r@);
    }
    law_insert_at_end::<usize>(r, x);
    law_insert_at_end::<Chars>(r, x);
}

/// Deleting a range and inserting what it held at the position where it
/// started gives the text back. Left out are the ranges after which the
/// text goes on without measuring anything more: the position where such
/// a range started is then the position of the measure of what is left,
/// where insertion appends.
pub proof fn law_delete_insert<M: Metric>(r: Rope, start: nat, end: nat)
    requires
        r.wf(),
        start <= end,
        can_cut::<M>(r@, start),
        can_cut::<M>(r@, end),
        ({
            let to = cut_point::<M>(r@, end);
            ||| start == 0
            ||| cut_point::<M>(r@, start) == to
            ||| to == r@.len()
            ||| M::measure_of(r@.skip(to)) > 0
        }),
    ensures
        ({
            let from = cut_point::<M>(r@, start);
            let to = cut_point::<M>(r@, end);
            let rest = deleted(r@, from, to);
            &&& from <= to <= r@.len()
            &&& can_cut::<M>(rest, start)
            &&& cut_point::<M>(rest, start) == from
            &&& inserted_at::<M>(rest, start, r@.subrange(from, to)) == r@
        }),
{
    r.lemma_valid();
    let text = r@;
    let from = cut_point::<M>(text, start);
    let to = cut_point::<M>(text, end);
    lemma_byte_index_exists::<M>(text, start);
    lemma_byte_index_exists::<M>(text, end);
    if to < from {
        M::lemma_position_increasing(text, to, from);
    }
    let head = text.take(from);
    let tail = text.skip(to);
    let rest = deleted(text, from, to);
    let mid = text.subrange(from, to);
    lemma_valid_cut(text, from);
    lemma_valid_cut(text, to);
    // `from` is a position of the head, and so of the head followed by the tail.
    assert(text =~= head + text.skip(from));
    M::lemma_position_concat(head, text.skip(from), from);
    M::lemma_position_concat(head, tail, from);
    assert(rest.take(from) =~= head);
    assert(head.take(from) =~= head);
    assert(locates::<M>(rest, start, from));
    lemma_byte_index_is::<M>(rest, start, from);
    if tail.len() > 0 {
        lemma_valid_starts_char(tail);
    }
    assert(inserted(rest, from, mid) =~= text);
    M::lemma_measure_concat(head, tail);
    if start == 0 {
        lemma_byte_index_zero::<M>(text);
        assert(mid + rest =~= text);
    } else if start == M::measure_of(rest) {
        assert(M::measure_of(tail) == 0);
        assert(rest + mid =~= text);
    }
}

/// Under the byte metric and the character metric, deleting any range and
/// inserting what it held at the position where it started gives the text
/// back.
pub proof fn law_delete_insert_bytes_chars(r: Rope, start: nat, end: nat)
    requires
        r.wf(),
        start <= end,
    ensures
        can_cut::<usize>(r@, start) && can_cut::<usize>(r@, end) ==> inserted_at::<usize>(
            deleted(r@, start as int, end as int),
            start,
            r@.subrange(start as int, end as int),
        ) == r@,
        end <= count_chars(r@) ==> inserted_at::<Chars>(
            deleted(r@, cut_point::<Chars>(r@, start), cut_point::<Chars>(r@, end)),
            start,
            r@.subrange(cut_point::<Chars>(r@, start), cut_point::<Chars>(r@, end)),
        ) == r@,
{
    r.lemma_valid();
    law_positions_can_cut(r, start);
    law_positions_can_cut(r, end);
    if can_cut::<usize>(r@, start) && can_cut::<usize>(r@, end) {
        lemma_byte_index_exists::<usize>(r@, start);
        lemma_byte_index_exists::<usize>(r@, end);
        let to = cut_point::<usize>(r@, end);
        lemma_valid_cut(r@, to);
        if to < r@.len() {
            law_text_has_measure(r@.skip(to));
        }
        law_delete_insert::<usize>(r, start, end);
    }
    if end <= count_chars(r@) {
        lemma_byte_index_exists::<Chars>(r@, end);
        let to = cut_point::<Chars>(r@, end);
        lemma_valid_cut(r@, to);
        if to < r@.len() {
            law_text_has_measure(r@.skip(to));
        }
        law_delete_insert::<Chars>(r, start, end);
    }
}

/// A rope is balanced exactly when every subtree of its tree, the whole
/// tree among them, holds `fib(d + 2) - 1` bytes or more for its depth `d`.
pub proof fn law_balanced_iff(r: Rope)
    ensures
        r.has_subtree(r.tree()),
        r.tree()@ == r@,
        r.tree().depth() == r.depth(),
        r.balanced() <==> forall|sub: NodeLink|
            r.has_subtree(sub) ==> sub@.len() + 1 >= fib(sub.depth() + 2),
{
    r.lemma_tree();
    r.lemma_balanced_iff();
}

/// After rebalancing, and after any operation that hands back a balanced
/// rope, every subtree of depth `d` holds `fib(d + 2) - 1` bytes or more.
pub proof fn law_balanced_subtrees(r: Rope, sub: NodeLink)
    requires
        r.balanced(),
        r.has_subtree(sub),
    ensures
        sub@.len() + 1 >= fib(sub.depth() + 2),
{
    r.lemma_balanced(sub);
}

/// The subtrees of a tree are the tree itself and, under a branch, the
/// subtrees of its two children, whose texts make up its own.
pub proof fn law_subtrees(tree: NodeLink, sub: NodeLink)
    ensures
        tree.has_subtree(tree),
        tree.has_subtree(sub) <==> tree == sub || (tree.is_branch() && (tree.left().has_subtree(
            sub,
        ) || tree.right().has_subtree(sub))),
        tree.is_branch() ==> tree@ == tree.left()@ + tree.right()@,
{
    tree.lemma_subtrees(sub);
}

/// A tree with text holds more bytes than it is deep: each of its leaves
/// holds a byte at least.
pub proof fn law_depth_below_length(tree: NodeLink)
    requires
        tree.wf(),
    ensures
        tree@.len() > 0 ==> tree.depth() < tree@.len(),
        tree@.len() == 0 ==> tree.depth() == 0,
{
    tree.lemma_depth();
}

/// The character metric counts characters: the text of `chars` measures as
/// many as `chars` is long, and its position `k` lies where the first `k`
/// characters end.
pub proof fn law_chars_count_characters(chars: Seq<char>, k: nat)
    requires
        k <= chars.len(),
    ensures
        count_chars(encode_utf8(chars)) == chars.len(),
        cut_point::<Chars>(encode_utf8(chars), k) == encode_utf8(chars.take(k as int)).len(),
        can_cut::<Chars>(encode_utf8(chars), k),
{
    let text = encode_utf8(chars);
    let head = chars.take(k as int);
    let tail = chars.skip(k as int);
    assert(chars =~= head + tail);
    crate::walk::lemma_encode_concat(head, tail);
    vstd::utf8::encode_utf8_valid_utf8(chars);
    vstd::utf8::encode_utf8_valid_utf8(head);
    vstd::utf8::encode_utf8_valid_utf8(tail);
    vstd::utf8::encode_utf8_decode_utf8(chars);
    vstd::utf8::encode_utf8_decode_utf8(head);
    lemma_count_chars_decoded(text);
    lemma_count_chars_decoded(encode_utf8(head));
    let at = encode_utf8(head).len() as int;
    crate::text::lemma_joint_is_boundary(encode_utf8(head), encode_utf8(tail));
    assert(text.take(at) =~= encode_utf8(head));
    lemma_byte_index_is::<Chars>(text, k, at);
}

/// The line metric counts line feeds: the text of `chars` measures as many
/// lines as `chars` has line feed characters.
pub proof fn law_lines_count_line_feeds(chars: Seq<char>)
    ensures
        count_lines(encode_utf8(chars)) == count_line_feeds(chars),
{
    vstd::utf8::encode_utf8_valid_utf8(chars);
    vstd::utf8::encode_utf8_decode_utf8(chars);
    lemma_count_lines_decoded(encode_utf8(chars));
}

/// A rope is equal to itself.
pub proof fn law_eq_reflexive(a: Rope)
    ensures
        a.eq_spec(&a),
{
}

/// If one rope is equal to another, the other is equal to the one.
pub proof fn law_eq_symmetric(a: Rope, b: Rope)
    ensures
        a.eq_spec(&b) == b.eq_spec(&a),
{
}

/// Ropes are equal exactly when they hold the same bytes, however their
/// trees are shaped; ropes of different lengths are never equal.
pub proof fn law_eq_by_bytes(a: Rope, b: Rope)
    ensures
        a.eq_spec(&b) <==> a@ == b@,
        a@.len() != b@.len() ==> !a.eq_spec(&b),
{
}

} // verus!
