//! Ropes from strings and bytes, and the traits of the standard library
//! that a rope has.

use std::ops::Add;
use vstd::prelude::*;
use vstd::std_specs::cmp::PartialEqSpecImpl;
use vstd::std_specs::convert::FromSpecImpl;
use vstd::std_specs::ops::AddSpecImpl;
use vstd::utf8::{encode_utf8, valid_utf8};
use crate::decode::{string_from_utf16, string_from_utf8, utf16_text, DecodeFault};
use crate::node::{Node, NodeLink};
use crate::rope::Rope;
use crate::walk::fragments_eq;

verus! {

impl Rope {
    /// The rope of the text that `bytes` encode, or the fault when they are
    /// not valid UTF-8.
    pub fn from_utf8(bytes: Vec<u8>) -> (res: Result<Rope, DecodeFault>)
        ensures
            res is Ok <==> valid_utf8(bytes@),
            res matches Ok(rope) ==> rope.balanced() && rope@ == bytes@,
            res matches Err(fault) ==> fault == DecodeFault::Utf8,
    {
        match string_from_utf8(bytes) {
            Ok(s) => Ok(Rope::from(s)),
            Err(_) => Err(DecodeFault::Utf8),
        }
    }

    /// The rope of the text that the UTF-16 code units `units` stand for,
    /// or the fault when they are not valid UTF-16.
    pub fn from_utf16(units: &[u16]) -> (res: Result<Rope, DecodeFault>)
        ensures
            res is Ok <==> utf16_text(units@) is Some,
            res matches Ok(rope) ==> rope.balanced() && rope@ == encode_utf8(
                utf16_text(units@)->0,
            ),
            res matches Err(fault) ==> fault == DecodeFault::Utf16,
    {
        match string_from_utf16(units) {
            Ok(s) => Ok(Rope::from(s)),
            Err(_) => Err(DecodeFault::Utf16),
        }
    }
}

impl Clone for Rope {
    /// Another rope on the same tree. No text is copied.
    fn clone(&self) -> (res: Self)
        ensures
            res == *self,
    {
        let root = self.root.clone();
        proof {
            use_type_invariant(&root);
        }
        Rope { root }
    }
}

impl From<String> for Rope {
    /// The rope that holds `text`.
    fn from(text: String) -> (res: Rope)
        ensures
            res.balanced(),
            res@ == encode_utf8(text@),
    {
        Rope::from_link(Node::new_leaf(text))
    }
}

impl FromSpecImpl<String> for Rope {
    open spec fn obeys_from_spec() -> bool {
        false
    }

    open spec fn from_spec(text: String) -> Rope {
        arbitrary()
    }
}

impl<'a> From<&'a str> for Rope {
    /// The rope that holds a copy of `text`.
    fn from(text: &'a str) -> (res: Rope)
        ensures
            res.balanced(),
            res@ == encode_utf8(text@),
    {
        Rope::from_link(Node::new_leaf(text.to_owned()))
    }
}

impl<'a> FromSpecImpl<&'a str> for Rope {
    open spec fn obeys_from_spec() -> bool {
        false
    }

    open spec fn from_spec(text: &'a str) -> Rope {
        arbitrary()
    }
}

impl From<NodeLink> for Rope {
    /// The rope that holds the text under `root`.
    fn from(root: NodeLink) -> (res: Rope)
        ensures
            res.balanced(),
            res@ == root@,
    {
        Rope::from_link(root)
    }
}

impl FromSpecImpl<NodeLink> for Rope {
    open spec fn obeys_from_spec() -> bool {
        false
    }

    open spec fn from_spec(root: NodeLink) -> Rope {
        arbitrary()
    }
}

impl PartialEq for Rope {
    /// Two ropes are equal when they hold the same bytes, whatever the shape
    /// of their trees.
    fn eq(&self, other: &Rope) -> (res: bool) {
        if self.len() == other.len() {
            let mine = self.root.strings();
            let theirs = other.root.strings();
            fragments_eq(mine.as_slice(), theirs.as_slice())
        } else {
            false
        }
    }
}

impl Eq for Rope {

}

impl PartialEqSpecImpl for Rope {
    open spec fn obeys_eq_spec() -> bool {
        true
    }

    open spec fn eq_spec(&self, other: &Rope) -> bool {
        self@ == other@
    }
}

impl Default for Rope {
    /// A rope without text.
    fn default() -> (res: Rope)
        ensures
            res.balanced(),
            res@ == Seq::<u8>::empty(),
    {
        Rope::new()
    }
}

impl PartialEq<str> for Rope {
    /// A rope is equal to a string that holds the same bytes.
    fn eq(&self, other: &str) -> (res: bool) {
        self.eq_str(other)
    }
}

impl PartialEqSpecImpl<str> for Rope {
    open spec fn obeys_eq_spec() -> bool {
        true
    }

    open spec fn eq_spec(&self, other: &str) -> bool {
        self@ == encode_utf8(other@)
    }
}

impl PartialEq<String> for Rope {
    /// A rope is equal to a string that holds the same bytes.
    fn eq(&self, other: &String) -> (res: bool) {
        self.eq_str(other.as_str())
    }
}

impl PartialEqSpecImpl<String> for Rope {
    open spec fn obeys_eq_spec() -> bool {
        true
    }

    open spec fn eq_spec(&self, other: &String) -> bool {
        self@ == encode_utf8(other@)
    }
}

impl Add for Rope {
    type Output = Rope;

    /// The text of this rope followed by that of `other`.
    fn add(self, other: Rope) -> (res: Rope)
        ensures
            res.balanced(),
            res@ == self@ + other@,
    {
        self.append(&other)
    }
}

impl AddSpecImpl for Rope {
    open spec fn obeys_add_spec() -> bool {
        false
    }

    open spec fn add_req(self, other: Rope) -> bool {
        self@.len() + other@.len() <= usize::MAX
    }

    open spec fn add_spec(self, other: Rope) -> Rope {
        arbitrary()
    }
}

impl Add<String> for Rope {
    type Output = Rope;

    /// The text of this rope followed by `other`.
    fn add(self, other: String) -> (res: Rope)
        ensures
            res.balanced(),
            res@ == self@ + encode_utf8(other@),
    {
        self.append(&Rope::from(other))
    }
}

impl AddSpecImpl<String> for Rope {
    open spec fn obeys_add_spec() -> bool {
        false
    }

    open spec fn add_req(self, other: String) -> bool {
        self@.len() + encode_utf8(other@).len() <= usize::MAX
    }

    open spec fn add_spec(self, other: String) -> Rope {
        arbitrary()
    }
}

impl<'a> Add<&'a str> for Rope {
    type Output = Rope;

    /// The text of this rope followed by `other`.
    fn add(self, other: &'a str) -> (res: Rope)
        ensures
            res.balanced(),
            res@ == self@ + encode_utf8(other@),
    {
        self.append(&Rope::from(other))
    }
}

impl<'a> AddSpecImpl<&'a str> for Rope {
    open spec fn obeys_add_spec() -> bool {
        false
    }

    open spec fn add_req(self, other: &'a str) -> bool {
        self@.len() + encode_utf8(other@).len() <= usize::MAX
    }

    open spec fn add_spec(self, other: &'a str) -> Rope {
        arbitrary()
    }
}

impl<'a> Add for &'a Rope {
    type Output = Rope;

    /// The text of this rope followed by that of `other`.
    fn add(self, other: &'a Rope) -> (res: Rope)
        ensures
            res.balanced(),
            res@ == self@ + other@,
    {
        self.append(other)
    }
}

impl<'a> AddSpecImpl for &'a Rope {
    open spec fn obeys_add_spec() -> bool {
        false
    }

    open spec fn add_req(self, other: &'a Rope) -> bool {
        self@.len() + other@.len() <= usize::MAX
    }

    open spec fn add_spec(self, other: &'a Rope) -> Rope {
        arbitrary()
    }
}

impl<'a, 'b> Add<&'b str> for &'a Rope {
    type Output = Rope;

    /// The text of this rope followed by `other`.
    fn add(self, other: &'b str) -> (res: Rope)
        ensures
            res.balanced(),
            res@ == self@ + encode_utf8(other@),
    {
        self.append(&Rope::from(other))
    }
}

impl<'a, 'b> AddSpecImpl<&'b str> for &'a Rope {
    open spec fn obeys_add_spec() -> bool {
        false
    }

    open spec fn add_req(self, other: &'b str) -> bool {
        self@.len() + encode_utf8(other@).len() <= usize::MAX
    }

    open spec fn add_spec(self, other: &'b str) -> Rope {
        arbitrary()
    }
}

} // verus!
