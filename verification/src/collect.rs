//! Building a rope from many pieces.

use vstd::prelude::*;
use vstd::string::StringExecFns;
use vstd::utf8::encode_utf8;
use crate::decode::string_of_char;
use crate::rope::Rope;

verus! {

/// The pieces one after the other.
pub open spec fn concat(parts: Seq<Seq<u8>>) -> Seq<u8>
    decreases parts.len(),
{
    if parts.len() == 0 {
        Seq::empty()
    } else {
        concat(parts.drop_last()) + parts.last()
    }
}

/// The bytes of each of the strings `frags`.
pub open spec fn str_parts(frags: Seq<&str>) -> Seq<Seq<u8>> {
    Seq::new(frags.len(), |i: int| encode_utf8(frags[i]@))
}

/// The bytes of each of the strings `frags`.
pub open spec fn string_parts(frags: Seq<String>) -> Seq<Seq<u8>> {
    Seq::new(frags.len(), |i: int| encode_utf8(frags[i]@))
}

/// The bytes of each of the ropes `ropes`.
pub open spec fn rope_parts(ropes: Seq<Rope>) -> Seq<Seq<u8>> {
    Seq::new(ropes.len(), |i: int| ropes[i]@)
}

/// The pieces up to and with the `i`-th are the pieces before it and it.
pub proof fn lemma_concat_step(parts: Seq<Seq<u8>>, i: int)
    requires
        0 <= i < parts.len(),
    ensures
        concat(parts.take(i + 1)) == concat(parts.take(i)) + parts[i],
        concat(parts.take(i)).len() + parts[i].len() <= concat(parts).len(),
{
    assert(parts.take(i + 1).drop_last() =~= parts.take(i));
    lemma_concat_prefix(parts, i + 1);
}

/// Some of the pieces are no longer than all of them.
pub proof fn lemma_concat_prefix(parts: Seq<Seq<u8>>, i: int)
    requires
        0 <= i <= parts.len(),
    ensures
        concat(parts.take(i)).len() <= concat(parts).len(),
    decreases parts.len() - i,
{
    if i < parts.len() {
        assert(parts.take(i + 1).drop_last() =~= parts.take(i));
        lemma_concat_prefix(parts, i + 1);
    } else {
        assert(parts.take(i) =~= parts);
    }
}

impl Rope {
    /// Puts each of the strings `frags`, in turn, after the text of this rope.
    pub fn extend_strs(&mut self, frags: &[&str])
        requires
            old(self)@.len() + concat(str_parts(frags@)).len() <= usize::MAX,
        ensures
            final(self).balanced(),
            final(self)@ == old(self)@ + concat(str_parts(frags@)),
    {
        let ghost parts = str_parts(frags@);
        let mut i: usize = 0;
        assert(parts.take(0) =~= Seq::<Seq<u8>>::empty());
        assert(old(self)@ + concat(parts.take(0)) =~= old(self)@);
        self.rebalance();
        while i < frags.len()
            invariant
                i <= frags.len(),
                parts == str_parts(frags@),
                self.balanced(),
                self@ == old(self)@ + concat(parts.take(i as int)),
                old(self)@.len() + concat(parts).len() <= usize::MAX,
            decreases frags.len() - i,
        {
            proof {
                lemma_concat_step(parts, i as int);
                assert((old(self)@ + concat(parts.take(i as int))) + parts[i as int] =~= old(self)@
                    + (concat(parts.take(i as int)) + parts[i as int]));
            }
            let piece = Rope::from(frags[i]);
            self.append_in_place(&piece);
            i = i + 1;
        }
        assert(parts.take(i as int) =~= parts);
    }

    /// Puts each of the strings `frags`, in turn, after the text of this rope.
    pub fn extend_strings(&mut self, frags: &[String])
        requires
            old(self)@.len() + concat(string_parts(frags@)).len() <= usize::MAX,
        ensures
            final(self).balanced(),
            final(self)@ == old(self)@ + concat(string_parts(frags@)),
    {
        let ghost parts = string_parts(frags@);
        let mut i: usize = 0;
        assert(parts.take(0) =~= Seq::<Seq<u8>>::empty());
        assert(old(self)@ + concat(parts.take(0)) =~= old(self)@);
        self.rebalance();
        while i < frags.len()
            invariant
                i <= frags.len(),
                parts == string_parts(frags@),
                self.balanced(),
                self@ == old(self)@ + concat(parts.take(i as int)),
                old(self)@.len() + concat(parts).len() <= usize::MAX,
            decreases frags.len() - i,
        {
            proof {
                lemma_concat_step(parts, i as int);
                assert((old(self)@ + concat(parts.take(i as int))) + parts[i as int] =~= old(self)@
                    + (concat(parts.take(i as int)) + parts[i as int]));
            }
            let piece = Rope::from(frags[i].as_str());
            self.append_in_place(&piece);
            i = i + 1;
        }
        assert(parts.take(i as int) =~= parts);
    }

    /// Puts the text of each of the ropes `ropes`, in turn, after the text of
    /// this rope.
    pub fn extend_ropes(&mut self, ropes: &[Rope])
        requires
            old(self)@.len() + concat(rope_parts(ropes@)).len() <= usize::MAX,
        ensures
            final(self).balanced(),
            final(self)@ == old(self)@ + concat(rope_parts(ropes@)),
    {
        let ghost parts = rope_parts(ropes@);
        let mut i: usize = 0;
        assert(parts.take(0) =~= Seq::<Seq<u8>>::empty());
        assert(old(self)@ + concat(parts.take(0)) =~= old(self)@);
        self.rebalance();
        while i < ropes.len()
            invariant
                i <= ropes.len(),
                parts == rope_parts(ropes@),
                self.balanced(),
                self@ == old(self)@ + concat(parts.take(i as int)),
                old(self)@.len() + concat(parts).len() <= usize::MAX,
            decreases ropes.len() - i,
        {
            proof {
                lemma_concat_step(parts, i as int);
                assert((old(self)@ + concat(parts.take(i as int))) + parts[i as int] =~= old(self)@
                    + (concat(parts.take(i as int)) + parts[i as int]));
            }
            self.append_in_place(&ropes[i]);
            i = i + 1;
        }
        assert(parts.take(i as int) =~= parts);
    }

    /// Puts the characters `chars` after the text of this rope.
    pub fn extend_chars(&mut self, chars: &[char])
        requires
            old(self)@.len() + encode_utf8(chars@).len() <= usize::MAX,
        ensures
            final(self).balanced(),
            final(self)@ == old(self)@ + encode_utf8(chars@),
    {
        let piece = Rope::from_chars(chars);
        self.append_in_place(&piece);
    }

    /// The rope of the characters `chars`.
    pub fn from_chars(chars: &[char]) -> (res: Rope)
        ensures
            res.balanced(),
            res@ == encode_utf8(chars@),
    {
        let mut text = String::new();
        let mut i: usize = 0;
        while i < chars.len()
            invariant
                i <= chars.len(),
                text@ == chars@.take(i as int),
            decreases chars.len() - i,
        {
            let one = string_of_char(chars[i]);
            text.append(one.as_str());
            assert(chars@.take(i + 1) =~= chars@.take(i as int) + seq![chars@[i as int]]);
            i = i + 1;
        }
        assert(chars@.take(i as int) =~= chars@);
        Rope::from(text)
    }

    /// The rope of the strings `frags`, one after the other.
    pub fn from_strs(frags: &[&str]) -> (res: Rope)
        requires
            concat(str_parts(frags@)).len() <= usize::MAX,
        ensures
            res.balanced(),
            res@ == concat(str_parts(frags@)),
    {
        let mut rope = Rope::new();
        rope.extend_strs(frags);
        assert(Seq::<u8>::empty() + concat(str_parts(frags@)) =~= concat(str_parts(frags@)));
        rope
    }

    /// The rope of the strings `frags`, one after the other.
    pub fn from_strings(frags: &[String]) -> (res: Rope)
        requires
            concat(string_parts(frags@)).len() <= usize::MAX,
        ensures
            res.balanced(),
            res@ == concat(string_parts(frags@)),
    {
        let mut rope = Rope::new();
        rope.extend_strings(frags);
        assert(Seq::<u8>::empty() + concat(string_parts(frags@)) =~= concat(
            string_parts(frags@),
        ));
        rope
    }

    /// The rope of the texts of the ropes `ropes`, one after the other.
    pub fn from_ropes(ropes: &[Rope]) -> (res: Rope)
        requires
            concat(rope_parts(ropes@)).len() <= usize::MAX,
        ensures
            res.balanced(),
            res@ == concat(rope_parts(ropes@)),
    {
        let mut rope = Rope::new();
        rope.extend_ropes(ropes);
        assert(Seq::<u8>::empty() + concat(rope_parts(ropes@)) =~= concat(rope_parts(ropes@)));
        rope
    }
}

} // verus!
