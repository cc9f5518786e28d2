//! What can be cut in two at a position.

use vstd::prelude::*;
use crate::metric::Metric;
use crate::node::{can_cut, cut_point, NodeLink};
use crate::rope::Rope;

verus! {

/// Text that can be cut in two at a position of any metric.
pub trait Split: Sized {
    /// The bytes of the text.
    spec fn whole(&self) -> Seq<u8>;

    /// The two parts of the text before and after position `index`.
    fn split<M: Metric>(&self, index: M) -> (res: (Self, Self))
        requires
            can_cut::<M>(self.whole(), index.value()),
        ensures
            res.0.whole() == self.whole().take(cut_point::<M>(self.whole(), index.value())),
            res.1.whole() == self.whole().skip(cut_point::<M>(self.whole(), index.value())),
            M::measure_of(res.0.whole()) == index.value(),
    ;
}

impl Split for Rope {
    open spec fn whole(&self) -> Seq<u8> {
        self@
    }

    fn split<M: Metric>(&self, index: M) -> (res: (Self, Self)) {
        Rope::split(self, index)
    }
}

impl Split for NodeLink {
    open spec fn whole(&self) -> Seq<u8> {
        self@
    }

    fn split<M: Metric>(&self, index: M) -> (res: (Self, Self)) {
        NodeLink::split(self, index)
    }
}

} // verus!
