//! Coordinate systems for addressing text.
//!
//! A [`Metric`] counts some unit of text (bytes, characters, lines) and says
//! at which byte offsets its positions fall. The tree algorithms of the rope
//! use nothing of a metric but what this trait states, so the same descent
//! serves every coordinate system.

use vstd::prelude::*;
use vstd::utf8::{encode_utf8, valid_utf8};
use crate::text::{
    char_boundary, count_chars, count_lines, lemma_char_boundaries_increase,
    lemma_char_boundary_exists, lemma_count_chars_bound, lemma_count_chars_concat,
    lemma_count_chars_prefix, lemma_count_chars_step, lemma_count_lines_bound,
    lemma_count_lines_concat, lemma_count_lines_prefix, lemma_count_lines_step,
    lemma_line_start_exists, lemma_line_starts_increase, lemma_valid_starts_char, line_start,
    starts_char, LINE_FEED,
};

verus! {

/// The measures of one piece of text under every coordinate system, as a
/// branch caches them for its left subtree.
#[derive(Clone, Copy, Debug)]
pub struct Weight {
    pub bytes: usize,
    pub chars: usize,
    pub lines: usize,
}

impl Weight {
    /// True when this weight holds the measures of `text`.
    pub open spec fn measures(self, text: Seq<u8>) -> bool {
        &&& self.bytes == text.len()
        &&& self.chars == count_chars(text)
        &&& self.lines == count_lines(text)
    }
}

/// A coordinate system over UTF-8 text.
///
/// `measure_of` counts the units of a text and `is_position` says which byte
/// offsets a position can fall on. The proof functions are the laws that make
/// positions add up over concatenation: whoever implements a metric proves
/// them, and the rope's algorithms rely on nothing else.
pub trait Metric: Copy {
    /// The position as a number of units.
    spec fn value(self) -> nat;

    /// How many units `text` holds.
    spec fn measure_of(text: Seq<u8>) -> nat;

    /// True when a position of this coordinate system falls on byte offset `at`.
    spec fn is_position(text: Seq<u8>, at: int) -> bool;

    /// The measure that a weight caches for this coordinate system.
    spec fn cached(w: Weight) -> nat;

    /// The position `n` units from the start.
    fn new(n: usize) -> (m: Self)
        ensures
            m.value() == n,
    ;

    /// The number of units from the start to this position.
    fn get(self) -> (n: usize)
        ensures
            n == self.value(),
    ;

    /// The position at the start of any text: the identity of `combine`.
    fn zero() -> (z: Self)
        ensures
            z.value() == 0,
    {
        Self::new(0)
    }

    /// The position `other` units after this one. Positions add up as their
    /// numbers of units do, so combining is associative.
    fn combine(self, other: Self) -> (sum: Self)
        requires
            self.value() + other.value() <= usize::MAX,
        ensures
            sum.value() == self.value() + other.value(),
    {
        Self::new(self.get() + other.get())
    }

    /// This position counted from `other`, which does not lie after it.
    fn minus(self, other: Self) -> (rest: Self)
        requires
            other.value() <= self.value(),
        ensures
            rest.value() == self.value() - other.value(),
    {
        Self::new(self.get() - other.get())
    }

    /// Tells whether this position does not lie after `other`. Positions
    /// are ordered as their numbers of units are, so the order is total.
    fn le(self, other: Self) -> (res: bool)
        ensures
            res == (self.value() <= other.value()),
    {
        self.get() <= other.get()
    }

    /// The measure of the text that `w` was taken from.
    fn weight(w: &Weight) -> (m: Self)
        ensures
            m.value() == Self::cached(*w),
    ;

    /// Measures a fragment of text.
    fn measure_str(s: &str) -> (m: Self)
        ensures
            m.value() == Self::measure_of(encode_utf8(s@)),
    ;

    /// The byte offset of position `at` in a fragment, or `None` when the
    /// fragment has fewer than `at` units.
    fn str_to_byte_index(s: &str, at: Self) -> (r: Option<usize>)
        ensures
            r is None <==> at.value() > Self::measure_of(encode_utf8(s@)),
            r matches Some(i) ==> Self::is_position(encode_utf8(s@), i as int)
                && Self::measure_of(encode_utf8(s@).take(i as int)) == at.value(),
    ;

    /// A weight that was taken from `text` caches the measure of `text`.
    proof fn lemma_cached(w: Weight, text: Seq<u8>)
        requires
            w.measures(text),
        ensures
            Self::cached(w) == Self::measure_of(text),
    ;

    /// The measure of a concatenation is the sum of the measures.
    proof fn lemma_measure_concat(a: Seq<u8>, b: Seq<u8>)
        ensures
            Self::measure_of(a + b) == Self::measure_of(a) + Self::measure_of(b),
    ;

    /// No text holds more units than bytes.
    proof fn lemma_measure_bound(text: Seq<u8>)
        ensures
            Self::measure_of(text) <= text.len(),
    ;

    /// Positions lie within the text.
    proof fn lemma_position_range(text: Seq<u8>, at: int)
        requires
            Self::is_position(text, at),
        ensures
            0 <= at <= text.len(),
    ;

    /// The start of a text is a position.
    proof fn lemma_position_zero(text: Seq<u8>)
        requires
            valid_utf8(text),
        ensures
            Self::is_position(text, 0),
    ;

    /// The positions of `a + b` are those of `a`, then those of `b` but its
    /// first, moved up by the length of `a`.
    proof fn lemma_position_concat(a: Seq<u8>, b: Seq<u8>, at: int)
        requires
            valid_utf8(a),
            valid_utf8(b),
            0 <= at <= a.len() + b.len(),
        ensures
            Self::is_position(a + b, at) == if at <= a.len() {
                Self::is_position(a, at)
            } else {
                Self::is_position(b, at - a.len())
            },
    ;

    /// Of two positions, the later has the greater measure before it.
    proof fn lemma_position_increasing(text: Seq<u8>, i: int, j: int)
        requires
            Self::is_position(text, i),
            Self::is_position(text, j),
            i < j,
        ensures
            Self::measure_of(text.take(i)) < Self::measure_of(text.take(j)),
    ;

    /// Every measure up to that of the whole text is that of some position.
    proof fn lemma_position_exists(text: Seq<u8>, k: nat) -> (at: int)
        requires
            valid_utf8(text),
            k <= Self::measure_of(text),
        ensures
            Self::is_position(text, at),
            Self::measure_of(text.take(at)) == k,
    ;
}

/// Positions counted in bytes.
impl Metric for usize {
    open spec fn value(self) -> nat {
        self as nat
    }

    open spec fn measure_of(text: Seq<u8>) -> nat {
        text.len()
    }

    open spec fn is_position(text: Seq<u8>, at: int) -> bool {
        0 <= at <= text.len()
    }

    open spec fn cached(w: Weight) -> nat {
        w.bytes as nat
    }

    fn new(n: usize) -> (m: Self) {
        n
    }

    fn get(self) -> (n: usize) {
        self
    }

    fn weight(w: &Weight) -> (m: Self) {
        w.bytes
    }

    fn measure_str(s: &str) -> (m: Self) {
        s.as_bytes().len()
    }

    fn str_to_byte_index(s: &str, at: Self) -> (r: Option<usize>) {
        if at <= s.as_bytes().len() {
            Some(at)
        } else {
            None
        }
    }

    proof fn lemma_cached(w: Weight, text: Seq<u8>) {
    }

    proof fn lemma_measure_concat(a: Seq<u8>, b: Seq<u8>) {
    }

    proof fn lemma_measure_bound(text: Seq<u8>) {
    }

    proof fn lemma_position_range(text: Seq<u8>, at: int) {
    }

    proof fn lemma_position_zero(text: Seq<u8>) {
    }

    proof fn lemma_position_concat(a: Seq<u8>, b: Seq<u8>, at: int) {
    }

    proof fn lemma_position_increasing(text: Seq<u8>, i: int, j: int) {
    }

    proof fn lemma_position_exists(text: Seq<u8>, k: nat) -> (at: int) {
        k as int
    }
}

/// A position counted in characters (Unicode scalar values).
#[derive(Clone, Copy, Debug)]
pub struct Chars(pub usize);

/// A position counted in lines: `Lines(k)` is the start of the line that
/// follows the `k`-th line feed.
#[derive(Clone, Copy, Debug)]
pub struct Lines(pub usize);

impl Metric for Chars {
    open spec fn value(self) -> nat {
        self.0 as nat
    }

    open spec fn measure_of(text: Seq<u8>) -> nat {
        count_chars(text)
    }

    open spec fn is_position(text: Seq<u8>, at: int) -> bool {
        char_boundary(text, at)
    }

    open spec fn cached(w: Weight) -> nat {
        w.chars as nat
    }

    fn new(n: usize) -> (m: Self) {
        Chars(n)
    }

    fn get(self) -> (n: usize) {
        self.0
    }

    fn weight(w: &Weight) -> (m: Self) {
        Chars(w.chars)
    }

    fn measure_str(s: &str) -> (m: Self) {
        let bytes = s.as_bytes();
        let mut n: usize = 0;
        let mut i: usize = 0;
        while i < bytes.len()
            invariant
                i <= bytes.len(),
                n == count_chars(bytes@.take(i as int)),
                n <= i,
            decreases bytes.len() - i,
        {
            proof {
                lemma_count_chars_step(bytes@, i as int);
            }
            if is_char_start(bytes[i]) {
                n = n + 1;
            }
            i = i + 1;
        }
        assert(bytes@.take(i as int) =~= bytes@);
        Chars(n)
    }

    fn str_to_byte_index(s: &str, at: Self) -> (r: Option<usize>) {
        let bytes = s.as_bytes();
        let k = at.0;
        let mut n: usize = 0;
        let mut i: usize = 0;
        while i < bytes.len()
            invariant
                i <= bytes.len(),
                n == count_chars(bytes@.take(i as int)),
                n <= i,
                n <= k,
                k == at.value(),
                bytes@ == encode_utf8(s@),
            decreases bytes.len() - i,
        {
            proof {
                lemma_count_chars_step(bytes@, i as int);
            }
            if is_char_start(bytes[i]) {
                if n == k {
                    proof {
                        lemma_count_chars_prefix(bytes@, i as int, bytes@.len() as int);
                        assert(bytes@.take(bytes@.len() as int) =~= bytes@);
                    }
                    return Some(i);
                }
                n = n + 1;
            }
            i = i + 1;
        }
        assert(bytes@.take(i as int) =~= bytes@);
        if n == k {
            Some(i)
        } else {
            None
        }
    }

    proof fn lemma_cached(w: Weight, text: Seq<u8>) {
    }

    proof fn lemma_measure_concat(a: Seq<u8>, b: Seq<u8>) {
        lemma_count_chars_concat(a, b);
    }

    proof fn lemma_measure_bound(text: Seq<u8>) {
        lemma_count_chars_bound(text);
    }

    proof fn lemma_position_range(text: Seq<u8>, at: int) {
    }

    proof fn lemma_position_zero(text: Seq<u8>) {
        if text.len() > 0 {
            lemma_valid_starts_char(text);
        }
    }

    proof fn lemma_position_concat(a: Seq<u8>, b: Seq<u8>, at: int) {
        if at == a.len() && b.len() > 0 {
            lemma_valid_starts_char(b);
        }
    }

    proof fn lemma_position_increasing(text: Seq<u8>, i: int, j: int) {
        lemma_char_boundaries_increase(text, i, j);
    }

    proof fn lemma_position_exists(text: Seq<u8>, k: nat) -> (at: int) {
        if text.len() > 0 {
            lemma_valid_starts_char(text);
        }
        lemma_char_boundary_exists(text, k)
    }
}

impl Metric for Lines {
    open spec fn value(self) -> nat {
        self.0 as nat
    }

    open spec fn measure_of(text: Seq<u8>) -> nat {
        count_lines(text)
    }

    open spec fn is_position(text: Seq<u8>, at: int) -> bool {
        line_start(text, at)
    }

    open spec fn cached(w: Weight) -> nat {
        w.lines as nat
    }

    fn new(n: usize) -> (m: Self) {
        Lines(n)
    }

    fn get(self) -> (n: usize) {
        self.0
    }

    fn weight(w: &Weight) -> (m: Self) {
        Lines(w.lines)
    }

    fn measure_str(s: &str) -> (m: Self) {
        let bytes = s.as_bytes();
        let mut n: usize = 0;
        let mut i: usize = 0;
        while i < bytes.len()
            invariant
                i <= bytes.len(),
                n == count_lines(bytes@.take(i as int)),
                n <= i,
            decreases bytes.len() - i,
        {
            proof {
                lemma_count_lines_step(bytes@, i as int);
            }
            if bytes[i] == LINE_FEED {
                n = n + 1;
            }
            i = i + 1;
        }
        assert(bytes@.take(i as int) =~= bytes@);
        Lines(n)
    }

    fn str_to_byte_index(s: &str, at: Self) -> (r: Option<usize>) {
        let bytes = s.as_bytes();
        let k = at.0;
        if k == 0 {
            assert(bytes@.take(0) =~= Seq::<u8>::empty());
            return Some(0);
        }
        let mut n: usize = 0;
        let mut i: usize = 0;
        while i < bytes.len()
            invariant
                i <= bytes.len(),
                n == count_lines(bytes@.take(i as int)),
                n <= i,
                n < k,
                k == at.value(),
                bytes@ == encode_utf8(s@),
            decreases bytes.len() - i,
        {
            proof {
                lemma_count_lines_step(bytes@, i as int);
            }
            if bytes[i] == LINE_FEED {
                n = n + 1;
                if n == k {
                    proof {
                        lemma_count_lines_prefix(bytes@, i + 1, bytes@.len() as int);
                        assert(bytes@.take(bytes@.len() as int) =~= bytes@);
                    }
                    return Some(i + 1);
                }
            }
            i = i + 1;
        }
        assert(bytes@.take(i as int) =~= bytes@);
        None
    }

    proof fn lemma_cached(w: Weight, text: Seq<u8>) {
    }

    proof fn lemma_measure_concat(a: Seq<u8>, b: Seq<u8>) {
        lemma_count_lines_concat(a, b);
    }

    proof fn lemma_measure_bound(text: Seq<u8>) {
        lemma_count_lines_bound(text);
    }

    proof fn lemma_position_range(text: Seq<u8>, at: int) {
    }

    proof fn lemma_position_zero(text: Seq<u8>) {
    }

    proof fn lemma_position_concat(a: Seq<u8>, b: Seq<u8>, at: int) {
    }

    proof fn lemma_position_increasing(text: Seq<u8>, i: int, j: int) {
        lemma_line_starts_increase(text, i, j);
    }

    proof fn lemma_position_exists(text: Seq<u8>, k: nat) -> (at: int) {
        lemma_line_start_exists(text, k)
    }
}

/// Tells whether a byte is the first of a character's encoding.
pub fn is_char_start(b: u8) -> (r: bool)
    ensures
        r == starts_char(b),
{
    b < 0x80 || b > 0xbf
}

/// True when position `k` of metric `M` falls on byte offset `at` of `text`.
pub open spec fn locates<M: Metric>(text: Seq<u8>, k: nat, at: int) -> bool {
    M::is_position(text, at) && M::measure_of(text.take(at)) == k
}

/// The byte offset of position `k` of metric `M` in `text`, if `text` reaches
/// that far.
pub open spec fn byte_index<M: Metric>(text: Seq<u8>, k: nat) -> Option<int> {
    if exists|at: int| locates::<M>(text, k, at) {
        Some(choose|at: int| locates::<M>(text, k, at))
    } else {
        None
    }
}

/// A position falls on one byte offset only.
pub proof fn lemma_byte_index_is<M: Metric>(text: Seq<u8>, k: nat, at: int)
    requires
        locates::<M>(text, k, at),
    ensures
        byte_index::<M>(text, k) == Some(at),
{
    let other = choose|i: int| locates::<M>(text, k, i);
    if other < at {
        M::lemma_position_increasing(text, other, at);
    } else if at < other {
        M::lemma_position_increasing(text, at, other);
    }
}

/// A text has the positions from zero to its measure, and no others.
pub proof fn lemma_byte_index_exists<M: Metric>(text: Seq<u8>, k: nat)
    requires
        valid_utf8(text),
    ensures
        byte_index::<M>(text, k) is Some <==> k <= M::measure_of(text),
        byte_index::<M>(text, k) matches Some(at) ==> 0 <= at <= text.len() && locates::<M>(
            text,
            k,
            at,
        ),
{
    if k <= M::measure_of(text) {
        let at = M::lemma_position_exists(text, k);
        lemma_byte_index_is::<M>(text, k, at);
        M::lemma_position_range(text, at);
    } else if exists|at: int| locates::<M>(text, k, at) {
        let at = choose|at: int| locates::<M>(text, k, at);
        M::lemma_position_range(text, at);
        assert(text =~= text.take(at) + text.skip(at));
        M::lemma_measure_concat(text.take(at), text.skip(at));
    }
}

/// Position zero is the start of the text.
pub proof fn lemma_byte_index_zero<M: Metric>(text: Seq<u8>)
    requires
        valid_utf8(text),
    ensures
        byte_index::<M>(text, 0) == Some(0int),
{
    M::lemma_position_zero(text);
    assert(text.take(0) =~= Seq::<u8>::empty());
    M::lemma_measure_concat(Seq::<u8>::empty(), Seq::<u8>::empty());
    assert(Seq::<u8>::empty() + Seq::<u8>::empty() =~= Seq::<u8>::empty());
    lemma_byte_index_is::<M>(text, 0, 0);
}

/// A position of `a + b` lies in `a` when `a` measures at least as much, and
/// otherwise where `b` has the rest of it.
pub proof fn lemma_byte_index_concat<M: Metric>(a: Seq<u8>, b: Seq<u8>, k: nat)
    requires
        valid_utf8(a),
        valid_utf8(b),
    ensures
        byte_index::<M>(a + b, k) == if k <= M::measure_of(a) {
            byte_index::<M>(a, k)
        } else {
            match byte_index::<M>(b, (k - M::measure_of(a)) as nat) {
                Some(at) => Some(a.len() + at),
                None => None,
            }
        },
{
    let whole = a + b;
    vstd::utf8::valid_utf8_concat(a, b);
    M::lemma_measure_concat(a, b);
    lemma_byte_index_exists::<M>(a, k);
    lemma_byte_index_exists::<M>(whole, k);
    if k <= M::measure_of(a) {
        let at = byte_index::<M>(a, k)->0;
        M::lemma_position_concat(a, b, at);
        assert(whole.take(at) =~= a.take(at));
        lemma_byte_index_is::<M>(whole, k, at);
    } else {
        let rest = (k - M::measure_of(a)) as nat;
        lemma_byte_index_exists::<M>(b, rest);
        if rest <= M::measure_of(b) {
            let at = byte_index::<M>(b, rest)->0;
            if at == 0 {
                assert(b.take(0) =~= Seq::<u8>::empty());
                M::lemma_measure_concat(Seq::<u8>::empty(), Seq::<u8>::empty());
                assert(Seq::<u8>::empty() + Seq::<u8>::empty() =~= Seq::<u8>::empty());
            }
            M::lemma_position_concat(a, b, a.len() + at);
            assert(whole.take(a.len() + at) =~= a + b.take(at));
            M::lemma_measure_concat(a, b.take(at));
            lemma_byte_index_is::<M>(whole, k, a.len() + at);
        }
    }
}

} // verus!
