//! The fragments under a tree, read off left to right.

use vstd::prelude::*;
use vstd::utf8::encode_utf8;
use crate::node::{lemma_node_valid, Node, NodeLink};
use crate::text::{char_boundary, lemma_char_boundary_is_std, lemma_valid_cut};
use crate::walk::{
    flatten, flatten_chars, lemma_flatten_encodes, lemma_flatten_prefix, lemma_flatten_push, texts,
};

verus! {

impl NodeLink {
    /// Appends the fragments under this link to `out`, left to right.
    fn push_strings<'a>(&'a self, out: &mut Vec<&'a str>)
        ensures
            flatten(final(out)@) == flatten(old(out)@) + self@,
            texts(final(out)@) == texts(old(out)@) + self.fragments(),
            final(out)@.len() >= old(out)@.len(),
            forall|i: int| 0 <= i < old(out)@.len() ==> final(out)@[i] == old(out)@[i],
            forall|i: int|
                old(out)@.len() <= i < final(out)@.len() ==> encode_utf8(
                    (#[trigger] final(out)@[i])@,
                ).len() > 0,
        decreases self,
    {
        proof {
            use_type_invariant(self);
        }
        match &*self.node {
            Node::Empty => {
                assert(flatten(old(out)@) + self@ =~= flatten(old(out)@));
                assert(texts(old(out)@) + self.fragments() =~= texts(old(out)@));
            },
            Node::Leaf(s) => {
                let frag = s.as_str();
                proof {
                    lemma_flatten_push(out@, frag);
                    assert(texts(out@.push(frag)) =~= texts(out@) + seq![frag@]);
                }
                out.push(frag);
            },
            Node::Branch(b) => {
                b.left.push_strings(out);
                b.right.push_strings(out);
                assert((flatten(old(out)@) + b.left@) + b.right@ =~= flatten(old(out)@) + self@);
                assert((texts(old(out)@) + b.left.fragments()) + b.right.fragments() =~= texts(
                    old(out)@,
                ) + self.fragments());
            },
        }
    }

    /// The fragments of text under this link, left to right. None is empty.
    pub fn strings(&self) -> (res: Vec<&str>)
        ensures
            flatten(res@) == self@,
            flatten_chars(res@) == self.text(),
            texts(res@) == self.fragments(),
            forall|i: int| 0 <= i < res@.len() ==> encode_utf8((#[trigger] res@[i])@).len() > 0,
    {
        let mut out: Vec<&str> = Vec::new();
        self.push_strings(&mut out);
        proof {
            assert(flatten(Seq::<&str>::empty()) + self@ =~= self@);
            assert(texts(Seq::<&str>::empty()) + self.fragments() =~= self.fragments());
            lemma_flatten_encodes(out@);
            vstd::utf8::encode_utf8_decode_utf8(flatten_chars(out@));
        }
        out
    }

    /// The whole text under this link in one leaf.
    pub fn collapse(&self) -> (res: NodeLink)
        ensures
            res@ == self@,
            res.is_flat(),
    {
        proof {
            use_type_invariant(self);
        }
        let frags = self.strings();
        let text = crate::walk::join(frags.as_slice());
        proof {
            lemma_flatten_encodes(frags@);
        }
        Node::new_leaf(text)
    }

    /// Appends to `out` the fragments of what lies between the byte offsets
    /// `start` and `end`, left to right.
    fn push_strings_between<'a>(&'a self, start: usize, end: usize, out: &mut Vec<&'a str>)
        requires
            start <= end <= self@.len(),
            char_boundary(self@, start as int),
            char_boundary(self@, end as int),
        ensures
            flatten(final(out)@) == flatten(old(out)@) + self@.subrange(start as int, end as int),
            texts(final(out)@) == texts(old(out)@) + self.fragments_between(
                start as int,
                end as int,
            ),
            final(out)@.len() >= old(out)@.len(),
            forall|i: int| 0 <= i < old(out)@.len() ==> final(out)@[i] == old(out)@[i],
            forall|i: int|
                old(out)@.len() <= i < final(out)@.len() ==> encode_utf8(
                    (#[trigger] final(out)@[i])@,
                ).len() > 0,
        decreases self,
    {
        proof {
            use_type_invariant(self);
            lemma_node_valid(&self.node);
        }
        let ghost part = self@.subrange(start as int, end as int);
        match &*self.node {
            Node::Empty => {
                assert(flatten(old(out)@) + part =~= flatten(old(out)@));
                assert(texts(old(out)@) + self.fragments_between(start as int, end as int)
                    =~= texts(old(out)@));
            },
            Node::Leaf(s) => {
                if start < end {
                    proof {
                        lemma_char_boundary_is_std(self@, start as int);
                        lemma_valid_cut(self@, start as int);
                        lemma_char_boundary_is_std(self@.skip(start as int), end - start);
                        assert(self@.skip(start as int) =~= self@.subrange(
                            start as int,
                            self@.len() as int,
                        ));
                    }
                    let (_, tail) = s.as_str().split_at(start);
                    let (mid, _) = tail.split_at(end - start);
                    proof {
                        assert(self@.subrange(start as int, self@.len() as int).subrange(
                            0,
                            end - start,
                        ) =~= part);
                        lemma_flatten_push(out@, mid);
                        vstd::utf8::encode_utf8_decode_utf8(mid@);
                        assert(texts(out@.push(mid)) =~= texts(out@) + seq![mid@]);
                    }
                    out.push(mid);
                } else {
                    assert(flatten(old(out)@) + part =~= flatten(old(out)@));
                    assert(texts(old(out)@) + self.fragments_between(start as int, end as int)
                        =~= texts(old(out)@));
                }
            },
            Node::Branch(b) => {
                proof {
                    lemma_node_valid(&b.right.node);
                    if b.right@.len() > 0 {
                        crate::text::lemma_valid_starts_char(b.right@);
                    }
                }
                let w = b.weight.bytes;
                let ghost stop = if end < w {
                    end as int
                } else {
                    w as int
                };
                let ghost head = if start < w {
                    b.left.fragments_between(start as int, stop)
                } else {
                    Seq::empty()
                };
                let ghost tail = if end > w {
                    b.right.fragments_between(if start > w { start - w } else { 0 }, end - w)
                } else {
                    Seq::empty()
                };
                if start < w {
                    let stop = if end < w {
                        end
                    } else {
                        w
                    };
                    b.left.push_strings_between(start, stop, out);
                }
                if end > w {
                    let from = if start > w {
                        start - w
                    } else {
                        0
                    };
                    b.right.push_strings_between(from, end - w, out);
                }
                proof {
                    let l = b.left@;
                    let r = b.right@;
                    let lo = if start < w { start as int } else { w as int };
                    let hi = if end > w { end as int } else { w as int };
                    assert(part =~= l.subrange(lo, if end < w { end as int } else { w as int })
                        + r.subrange(if start > w { start - w } else { 0 }, hi - w));
                    assert(l.subrange(w as int, w as int) =~= Seq::<u8>::empty());
                    assert(r.subrange(0, 0) =~= Seq::<u8>::empty());
                    assert(flatten(final(out)@) =~= flatten(old(out)@) + part);
                    assert(texts(final(out)@) =~= (texts(old(out)@) + head) + tail);
                    assert((texts(old(out)@) + head) + tail =~= texts(old(out)@) + (head + tail));
                }
            },
        }
    }

    /// The fragments of what lies between the byte offsets `start` and
    /// `end`, left to right. None is empty.
    pub fn strings_between(&self, start: usize, end: usize) -> (res: Vec<&str>)
        requires
            start <= end <= self@.len(),
            char_boundary(self@, start as int),
            char_boundary(self@, end as int),
        ensures
            flatten(res@) == self@.subrange(start as int, end as int),
            texts(res@) == self.fragments_between(start as int, end as int),
            forall|i: int| 0 <= i < res@.len() ==> encode_utf8((#[trigger] res@[i])@).len() > 0,
    {
        let mut out: Vec<&str> = Vec::new();
        self.push_strings_between(start, end, &mut out);
        assert(texts(Seq::<&str>::empty()) + self.fragments_between(start as int, end as int)
            =~= self.fragments_between(start as int, end as int));
        assert(flatten(Seq::<&str>::empty()) + self@.subrange(start as int, end as int)
            =~= self@.subrange(start as int, end as int));
        out
    }

    /// Tells whether the text and `other` hold the same bytes as far as the
    /// shorter of the two goes.
    pub fn bytes_eq(&self, other: &[u8]) -> (res: bool)
        ensures
            res == ({
                let n = if self@.len() <= other@.len() {
                    self@.len() as int
                } else {
                    other@.len() as int
                };
                self@.take(n) == other@.take(n)
            }),
    {
        let frags = self.strings();
        let mut p: usize = 0;
        let mut i: usize = 0;
        while i < frags.len()
            invariant
                i <= frags.len(),
                flatten(frags@) == self@,
                p == flatten(frags@.take(i as int)).len(),
                p <= other@.len(),
                self@.take(p as int) == other@.take(p as int),
            decreases frags.len() - i,
        {
            let bytes = frags[i].as_bytes();
            let ghost base = p;
            proof {
                assert(frags@.take(i + 1) =~= frags@.take(i as int).push(frags@[i as int]));
                lemma_flatten_push(frags@.take(i as int), frags@[i as int]);
                lemma_flatten_prefix(frags@, i + 1);
                let upto = flatten(frags@.take(i + 1));
                assert(upto.subrange(base as int, base + bytes@.len()) =~= bytes@);
                assert(self@.subrange(base as int, base + bytes@.len()) =~= upto.subrange(
                    base as int,
                    base + bytes@.len(),
                ));
            }
            let mut x: usize = 0;
            while x < bytes.len()
                invariant
                    x <= bytes.len(),
                    p == base + x,
                    p <= other@.len(),
                    base + bytes@.len() <= self@.len(),
                    self@.subrange(base as int, base + bytes@.len()) == bytes@,
                    self@.take(p as int) == other@.take(p as int),
                decreases bytes.len() - x,
            {
                if p == other.len() {
                    return true;
                }
                let ghost here = self@.subrange(base as int, base + bytes@.len());
                assert(self@[p as int] == here[x as int]);
                if bytes[x] != other[p] {
                    proof {
                        let n = if self@.len() <= other@.len() {
                            self@.len() as int
                        } else {
                            other@.len() as int
                        };
                        assert(self@.take(n)[p as int] != other@.take(n)[p as int]);
                    }
                    return false;
                }
                assert(self@.take(p + 1) =~= self@.take(p as int).push(self@[p as int]));
                assert(other@.take(p + 1) =~= other@.take(p as int).push(other@[p as int]));
                p = p + 1;
                x = x + 1;
            }
            i = i + 1;
        }
        assert(frags@.take(i as int) =~= frags@);
        true
    }
}

} // verus!
