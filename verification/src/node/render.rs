//! A tree written out as text, for looking at its shape.

use vstd::prelude::*;
use vstd::string::StringExecFns;
use crate::decode::string_of_char;
use crate::node::{Node, NodeLink};

verus! {

/// The character of a decimal digit.
pub open spec fn digit(d: nat) -> char {
    seq!['0', '1', '2', '3', '4', '5', '6', '7', '8', '9'][d as int]
}

/// The decimal numeral of `n`.
pub open spec fn decimal(n: nat) -> Seq<char>
    decreases n,
{
    if n < 10 {
        seq![digit(n)]
    } else {
        decimal(n / 10).push(digit(n % 10))
    }
}

/// A string as `Debug` writes it: between quotes, with what cannot be read
/// as it stands escaped.
pub uninterp spec fn quoted_text(text: Seq<char>) -> Seq<char>;

/// The `Debug` form of a string, which `format!` writes for `{:?}`.
#[verifier::external_body]
fn quoted(s: &str) -> (res: String)
    ensures
        res@ == quoted_text(s@),
{
    format!("{:?}", s)
}

fn digit_char(d: usize) -> (res: char)
    requires
        d < 10,
    ensures
        res == digit(d as nat),
{
    match d {
        0 => '0',
        1 => '1',
        2 => '2',
        3 => '3',
        4 => '4',
        5 => '5',
        6 => '6',
        7 => '7',
        8 => '8',
        _ => '9',
    }
}

/// Writes the decimal numeral of `n` at the end of `out`.
pub fn push_decimal(n: usize, out: &mut String)
    ensures
        final(out)@ == old(out)@ + decimal(n as nat),
    decreases n,
{
    if n >= 10 {
        push_decimal(n / 10, out);
    }
    let last = string_of_char(digit_char(n % 10));
    out.append(last.as_str());
    proof {
        if n >= 10 {
            assert((old(out)@ + decimal((n / 10) as nat)) + seq![digit((n % 10) as nat)] =~= old(
                out,
            )@ + decimal(n as nat));
        }
    }
}

impl Node {
    /// The shape of the tree under this node as text: a leaf with its text
    /// in quotes, a branch with the byte length of its left subtree and its
    /// two subtrees in brackets. The empty node reads as a leaf without text.
    pub closed spec fn rendering(&self) -> Seq<char>
        decreases self,
    {
        match self {
            Node::Empty => "Leaf("@ + quoted_text(Seq::empty()) + ")"@,
            Node::Leaf(s) => "Leaf("@ + quoted_text(s@) + ")"@,
            Node::Branch(b) => "Branch("@ + decimal(b.weight.bytes as nat) + "("@
                + b.left.node.rendering() + ", "@ + b.right.node.rendering() + "))"@,
        }
    }
}

impl NodeLink {
    /// The shape of the tree under this link as text.
    pub closed spec fn rendering(&self) -> Seq<char> {
        self.node.rendering()
    }

    /// Writes the shape of the tree under this link at the end of `out`.
    fn push_rendering(&self, out: &mut String)
        ensures
            final(out)@ == old(out)@ + self.rendering(),
        decreases self,
    {
        match &*self.node {
            Node::Empty => {
                out.append("Leaf(");
                let text = quoted("");
                out.append(text.as_str());
                out.append(")");
                proof {
                    reveal_strlit("");
                    assert(""@ =~= Seq::<char>::empty());
                    assert(((old(out)@ + "Leaf("@) + quoted_text(""@)) + ")"@ =~= old(out)@
                        + self.rendering());
                }
            },
            Node::Leaf(s) => {
                out.append("Leaf(");
                let text = quoted(s.as_str());
                out.append(text.as_str());
                out.append(")");
                assert(((old(out)@ + "Leaf("@) + quoted_text(s@)) + ")"@ =~= old(out)@
                    + self.rendering());
            },
            Node::Branch(b) => {
                out.append("Branch(");
                push_decimal(b.weight.bytes, out);
                out.append("(");
                b.left.push_rendering(out);
                out.append(", ");
                b.right.push_rendering(out);
                out.append("))");
                assert(((((((old(out)@ + "Branch("@) + decimal(b.weight.bytes as nat)) + "("@)
                    + b.left.rendering()) + ", "@) + b.right.rendering()) + "))"@ =~= old(out)@
                    + self.rendering());
            },
        }
    }

    /// The shape of the tree under this link as text.
    pub fn debug_string(&self) -> (res: String)
        ensures
            res@ == self.rendering(),
    {
        let mut out = String::new();
        self.push_rendering(&mut out);
        assert(Seq::<char>::empty() + self.rendering() =~= self.rendering());
        out
    }
}

} // verus!
