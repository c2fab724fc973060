use vstd::prelude::*;

verus! {

/// A column or row count.
pub type Col = u32;

/// The footprint of a layout: the widest column used, the column at which
/// the last line ends, and the number of line breaks.
#[derive(Clone, Copy, Debug, PartialEq, Eq, Structural)]
pub struct Bound {
    pub width: Col,
    pub indent: Col,
    pub height: Col,
}

/// The footprint of nothing at all.
pub open spec fn empty_bound() -> Bound {
    Bound { width: 0, indent: 0, height: 0 }
}

/// The footprint of a single line of `n` characters.
pub open spec fn literal_bound(n: int) -> Bound {
    Bound { width: n as Col, indent: n as Col, height: 0 }
}

/// `b` followed by a line break.
pub open spec fn flush_bound(b: Bound) -> Bound {
    Bound { width: b.width, indent: 0, height: (b.height + 1) as Col }
}

/// `b` placed at the point where `a` ends: every line of `b` is shifted
/// right by `a.indent`.
pub open spec fn concat_bound(a: Bound, b: Bound) -> Bound {
    Bound {
        width: if a.width >= a.indent + b.width { a.width } else { (a.indent + b.width) as Col },
        indent: (a.indent + b.indent) as Col,
        height: (a.height + b.height) as Col,
    }
}

/// The result of `concat_bound(a, b)` fits in a `Bound` without wrapping.
pub open spec fn concat_fits(a: Bound, b: Bound) -> bool {
    &&& a.indent + b.width <= Col::MAX
    &&& a.indent + b.indent <= Col::MAX
    &&& a.height + b.height <= Col::MAX
}

/// `a` is no wider and no taller than `b`.
pub open spec fn dominates(a: Bound, b: Bound) -> bool {
    a.width <= b.width && a.height <= b.height
}

/// A bound that a layout can have: the last line ends within the width.
pub open spec fn bound_wf(b: Bound) -> bool {
    b.indent <= b.width
}

impl Bound {
    pub fn empty() -> (r: Bound)
        ensures
            r == empty_bound(),
    {
        Bound { width: 0, indent: 0, height: 0 }
    }

    /// The footprint of `s` on one line; columns count code points.
    pub fn literal(s: &str) -> (r: Bound)
        requires
            s@.len() <= Col::MAX,
        ensures
            r == literal_bound(s@.len() as int),
    {
        let n = s.unicode_len();
        let w = n as Col;
        Bound { width: w, indent: w, height: 0 }
    }

    pub fn flush(&self) -> (r: Bound)
        requires
            self.height < Col::MAX,
        ensures
            r == flush_bound(*self),
    {
        Bound { width: self.width, indent: 0, height: self.height + 1 }
    }

    pub fn concat(&self, other: Bound) -> (r: Bound)
        requires
            concat_fits(*self, other),
        ensures
            r == concat_bound(*self, other),
    {
        let shifted = self.indent + other.width;
        let width = if self.width >= shifted { self.width } else { shifted };
        Bound { width, indent: self.indent + other.indent, height: self.height + other.height }
    }

    /// `self` placed beside `other`; the same as `concat`.
    pub fn horz(&self, other: Bound) -> (r: Bound)
        requires
            concat_fits(*self, other),
        ensures
            r == concat_bound(*self, other),
    {
        self.concat(other)
    }

    /// `self`, a line break, then `other` below it.
    pub fn vert(&self, other: Bound) -> (r: Bound)
        requires
            self.height < Col::MAX,
            concat_fits(flush_bound(*self), other),
        ensures
            r == concat_bound(flush_bound(*self), other),
    {
        self.flush().concat(other)
    }

    pub fn dominates(&self, other: &Bound) -> (r: bool)
        ensures
            r == dominates(*self, *other),
    {
        self.width <= other.width && self.height <= other.height
    }
}

/// Placing bounds one after another does not depend on how the placements
/// are grouped.
pub proof fn lemma_concat_assoc(a: Bound, b: Bound, c: Bound)
    requires
        concat_fits(a, b),
        concat_fits(concat_bound(a, b), c),
        concat_fits(b, c),
        concat_fits(a, concat_bound(b, c)),
    ensures
        concat_bound(concat_bound(a, b), c) == concat_bound(a, concat_bound(b, c)),
{
}

/// The empty bound changes nothing placed before a bound, nor placed
/// after a bound whose last line ends within its width.
pub proof fn lemma_concat_identity(a: Bound)
    ensures
        concat_bound(empty_bound(), a) == a,
        bound_wf(a) ==> concat_bound(a, empty_bound()) == a,
{
}

} // verus!

verus! {

/// A position: a line and a column.
#[derive(Clone, Copy, Debug, PartialEq, Eq, Structural)]
pub struct Pos {
    pub line: Col,
    pub col: Col,
}

/// A bound placed at a position.
#[derive(Clone, Copy, Debug, PartialEq, Eq, Structural)]
pub struct Region {
    pub pos: Pos,
    pub bound: Bound,
}

/// Where a region of bound `b` that starts at `p` ends.
pub open spec fn end_pos(p: Pos, b: Bound) -> Pos {
    Pos { line: (p.line + b.height) as Col, col: (p.col + b.indent) as Col }
}

/// A region of bound `b` placed at `p` stays within the coordinate range.
pub open spec fn fits_at(p: Pos, b: Bound) -> bool {
    p.line + b.height <= Col::MAX && p.col + b.width <= Col::MAX
}

impl Pos {
    pub fn zero() -> (r: Pos)
        ensures
            r == (Pos { line: 0, col: 0 }),
    {
        Pos { line: 0, col: 0 }
    }
}

impl Region {
    /// The position where the region's last line ends.
    pub fn end(&self) -> (r: Pos)
        requires
            fits_at(self.pos, self.bound),
            bound_wf(self.bound),
        ensures
            r == end_pos(self.pos, self.bound),
    {
        Pos { line: self.pos.line + self.bound.height, col: self.pos.col + self.bound.indent }
    }
}

} // verus!
