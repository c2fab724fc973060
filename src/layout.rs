use vstd::prelude::*;
use crate::boundset::{BoundSet, keys, antichain, bound_insert, insert_all, entry_insert, entry_insert_all};
use crate::geometry::{
    Bound, Col, Pos, Region, bound_wf, concat_bound, concat_fits, empty_bound, end_pos, fits_at,
    flush_bound, literal_bound,
};
use crate::notation::{Notation, expanded};
use crate::style::Style;

verus! {

/// A value that can accompany a bound through the layout computation:
/// `fits(b)` says that the value is one whose footprint is `b`, and each
/// constructor returns exactly the value its `spec_` function names.
pub trait Lay: Sized {
    spec fn fits(&self, b: Bound) -> bool;

    spec fn spec_empty() -> Self;

    spec fn spec_literal(s: String, style: Style) -> Self;

    spec fn spec_flush(&self, b: Bound) -> Self;

    spec fn spec_concat(&self, b: Bound, other: Self, ob: Bound) -> Self;

    spec fn spec_text(child: Bound, style: Style) -> Self;

    spec fn spec_child(i: usize, child: Bound) -> Self;

    fn empty() -> (r: Self)
        ensures
            r.fits(empty_bound()),
            r == Self::spec_empty(),
    ;

    fn literal(s: &String, style: Style) -> (r: Self)
        requires
            s@.len() <= Col::MAX,
        ensures
            r.fits(literal_bound(s@.len() as int)),
            r == Self::spec_literal(*s, style),
    ;

    fn flush(&self, b: Bound) -> (r: Self)
        requires
            self.fits(b),
            b.height < Col::MAX,
        ensures
            r.fits(flush_bound(b)),
            r == self.spec_flush(b),
    ;

    fn concat(&self, b: Bound, other: &Self, ob: Bound) -> (r: Self)
        requires
            self.fits(b),
            other.fits(ob),
            concat_fits(b, ob),
        ensures
            r.fits(concat_bound(b, ob)),
            r == self.spec_concat(b, *other, ob),
    ;

    fn text(child: Bound, style: Style) -> (r: Self)
        requires
            bound_wf(child),
        ensures
            r.fits(child),
            r == Self::spec_text(child, style),
    ;

    fn child(i: usize, child: Bound) -> (r: Self)
        requires
            bound_wf(child),
        ensures
            r.fits(child),
            r == Self::spec_child(i, child),
    ;
}

impl Lay for () {
    open spec fn fits(&self, b: Bound) -> bool {
        true
    }

    open spec fn spec_empty() -> () {
        ()
    }

    open spec fn spec_literal(s: String, style: Style) -> () {
        ()
    }

    open spec fn spec_flush(&self, b: Bound) -> () {
        ()
    }

    open spec fn spec_concat(&self, b: Bound, other: (), ob: Bound) -> () {
        ()
    }

    open spec fn spec_text(child: Bound, style: Style) -> () {
        ()
    }

    open spec fn spec_child(i: usize, child: Bound) -> () {
        ()
    }

    fn empty() {
    }

    fn literal(s: &String, style: Style) {
    }

    fn flush(&self, b: Bound) {
    }

    fn concat(&self, b: Bound, other: &(), ob: Bound) {
    }

    fn text(child: Bound, style: Style) {
    }

    fn child(i: usize, child: Bound) {
    }
}

impl Lay for Bound {
    open spec fn fits(&self, b: Bound) -> bool {
        *self == b
    }

    open spec fn spec_empty() -> Bound {
        empty_bound()
    }

    open spec fn spec_literal(s: String, style: Style) -> Bound {
        literal_bound(s@.len() as int)
    }

    open spec fn spec_flush(&self, b: Bound) -> Bound {
        flush_bound(*self)
    }

    open spec fn spec_concat(&self, b: Bound, other: Bound, ob: Bound) -> Bound {
        concat_bound(*self, other)
    }

    open spec fn spec_text(child: Bound, style: Style) -> Bound {
        child
    }

    open spec fn spec_child(i: usize, child: Bound) -> Bound {
        child
    }

    fn empty() -> (r: Bound) {
        Bound::empty()
    }

    fn literal(s: &String, style: Style) -> (r: Bound) {
        Bound::literal(s.as_str())
    }

    fn flush(&self, b: Bound) -> (r: Bound) {
        Bound::flush(self)
    }

    fn concat(&self, b: Bound, other: &Bound, ob: Bound) -> (r: Bound) {
        Bound::concat(self, *other)
    }

    fn text(child: Bound, style: Style) -> (r: Bound) {
        child
    }

    fn child(i: usize, child: Bound) -> (r: Bound) {
        child
    }
}

/// A concrete plan for displaying a notation: every choice is resolved.
/// The outermost region sits at position zero; inner regions are placed
/// relative to it.
pub struct LayoutRegion {
    pub layout: Layout,
    pub region: Region,
}

pub enum Layout {
    /// Nothing.
    Empty,
    /// A literal string in the given style.
    Literal(String, Style),
    /// The text of a text node in the given style.
    Text(Style),
    /// The inner layout, then a line break.
    Flush(Box<LayoutRegion>),
    /// The first layout, then the second placed where the first ends.
    Concat(Box<LayoutRegion>, Box<LayoutRegion>),
    /// The i'th child, within the bound of this region.
    Child(usize),
}

/// The region's bound agrees with its content: a literal is as wide as
/// its text, a flush is one line taller than its content, and a
/// concatenation is the concatenation of its parts.
pub open spec fn shape_ok(lr: LayoutRegion) -> bool
    decreases lr,
{
    &&& bound_wf(lr.region.bound)
    &&& match lr.layout {
        Layout::Empty => lr.region.bound == empty_bound(),
        Layout::Literal(s, _) => s@.len() <= Col::MAX && lr.region.bound == literal_bound(s@.len() as int),
        Layout::Flush(a) => shape_ok(*a) && a.region.bound.height < Col::MAX && lr.region.bound
            == flush_bound(a.region.bound),
        Layout::Concat(a, b) => shape_ok(*a) && shape_ok(*b) && concat_fits(a.region.bound, b.region.bound)
            && lr.region.bound == concat_bound(a.region.bound, b.region.bound),
        _ => true,
    }
}

/// Each inner region starts where its content begins: a flush's content
/// at the flush, a concatenation's second part where the first one ends.
pub open spec fn positions_ok(lr: LayoutRegion) -> bool
    decreases lr,
{
    match lr.layout {
        Layout::Flush(a) => positions_ok(*a) && a.region.pos == lr.region.pos,
        Layout::Concat(a, b) => positions_ok(*a) && positions_ok(*b) && a.region.pos == lr.region.pos
            && b.region.pos == end_pos(lr.region.pos, a.region.bound),
        _ => true,
    }
}

/// A layout whose bounds and positions agree throughout.
pub open spec fn placed(lr: LayoutRegion) -> bool {
    shape_ok(lr) && positions_ok(lr) && fits_at(lr.region.pos, lr.region.bound)
}

/// `l` with its inner regions moved so that it starts at `pos`.
pub open spec fn shifted_layout(l: Layout, pos: Pos) -> Layout
    decreases l,
{
    match l {
        Layout::Flush(a) => Layout::Flush(
            Box::new(
                LayoutRegion {
                    layout: shifted_layout(a.layout, pos),
                    region: Region { pos, bound: a.region.bound },
                },
            ),
        ),
        Layout::Concat(a, b) => Layout::Concat(
            Box::new(
                LayoutRegion {
                    layout: shifted_layout(a.layout, pos),
                    region: Region { pos, bound: a.region.bound },
                },
            ),
            Box::new(
                LayoutRegion {
                    layout: shifted_layout(b.layout, end_pos(pos, a.region.bound)),
                    region: Region { pos: end_pos(pos, a.region.bound), bound: b.region.bound },
                },
            ),
        ),
        _ => l,
    }
}

/// `lr` moved to start at `pos`.
pub open spec fn shifted(lr: LayoutRegion, pos: Pos) -> LayoutRegion {
    LayoutRegion {
        layout: shifted_layout(lr.layout, pos),
        region: Region { pos, bound: lr.region.bound },
    }
}

/// Moving a layout whose bounds agree leaves its bounds agreeing and its
/// positions consistent.
pub proof fn lemma_shifted_placed(lr: LayoutRegion, pos: Pos)
    requires
        shape_ok(lr),
    ensures
        shape_ok(shifted(lr, pos)),
        positions_ok(shifted(lr, pos)),
    decreases lr,
{
    match lr.layout {
        Layout::Flush(a) => {
            lemma_shifted_placed(*a, pos);
            assert(shifted(*a, pos) == LayoutRegion {
                layout: shifted_layout(a.layout, pos),
                region: Region { pos, bound: a.region.bound },
            });
        },
        Layout::Concat(a, b) => {
            lemma_shifted_placed(*a, pos);
            lemma_shifted_placed(*b, end_pos(pos, a.region.bound));
        },
        _ => {},
    }
}

/// Requirement for moving a layout to `pos`: its parts fit there.
pub open spec fn can_shift(l: Layout, pos: Pos) -> bool {
    match l {
        Layout::Flush(a) => shape_ok(*a) && fits_at(pos, a.region.bound),
        Layout::Concat(a, b) => shape_ok(*a) && shape_ok(*b) && fits_at(pos, a.region.bound)
            && pos.line + a.region.bound.height + b.region.bound.height <= Col::MAX
            && pos.col + a.region.bound.indent + b.region.bound.width <= Col::MAX,
        _ => true,
    }
}

impl Layout {
    /// Moves every inner region so that the layout starts at `pos`.
    pub fn shift_to(&mut self, pos: Pos)
        requires
            can_shift(*old(self), pos),
        ensures
            *final(self) == shifted_layout(*old(self), pos),
        decreases *old(self),
    {
        match self {
            Layout::Flush(lay) => {
                lay.shift_to(pos);
            },
            Layout::Concat(lay1, lay2) => {
                let delta = lay1.region.bound;
                lay1.shift_to(pos);
                let next = Pos { line: pos.line + delta.height, col: pos.col + delta.indent };
                lay2.shift_to(next);
            },
            _ => {},
        }
    }
}

impl LayoutRegion {
    /// Moves this region, and every region inside it, to start at `pos`.
    pub fn shift_to(&mut self, pos: Pos)
        requires
            shape_ok(*old(self)),
            fits_at(pos, old(self).region.bound),
        ensures
            *final(self) == shifted(*old(self), pos),
        decreases *old(self),
    {
        proof {
            reveal_with_fuel(shape_ok, 2);
        }
        self.region.pos = pos;
        self.layout.shift_to(pos);
    }

    /// A copy of this layout.
    pub fn duplicate(&self) -> (r: LayoutRegion)
        ensures
            r == *self,
        decreases self,
    {
        let layout = match &self.layout {
            Layout::Empty => Layout::Empty,
            Layout::Literal(s, st) => Layout::Literal(s.clone(), *st),
            Layout::Text(st) => Layout::Text(*st),
            Layout::Flush(a) => Layout::Flush(Box::new(a.duplicate())),
            Layout::Concat(a, b) => Layout::Concat(Box::new(a.duplicate()), Box::new(b.duplicate())),
            Layout::Child(i) => Layout::Child(*i),
        };
        LayoutRegion { layout, region: self.region }
    }
}

impl Lay for LayoutRegion {
    open spec fn fits(&self, b: Bound) -> bool {
        self.region.bound == b && self.region.pos == (Pos { line: 0, col: 0 }) && placed(*self)
    }

    open spec fn spec_empty() -> LayoutRegion {
        LayoutRegion { region: Region { pos: Pos { line: 0, col: 0 }, bound: empty_bound() }, layout: Layout::Empty }
    }

    open spec fn spec_literal(s: String, style: Style) -> LayoutRegion {
        LayoutRegion {
            region: Region { pos: Pos { line: 0, col: 0 }, bound: literal_bound(s@.len() as int) },
            layout: Layout::Literal(s, style),
        }
    }

    /// The layout followed by a line break.
    open spec fn spec_flush(&self, b: Bound) -> LayoutRegion {
        LayoutRegion {
            region: Region { pos: self.region.pos, bound: flush_bound(b) },
            layout: Layout::Flush(Box::new(*self)),
        }
    }

    /// The layout, then `other` moved to where this one ends.
    open spec fn spec_concat(&self, b: Bound, other: LayoutRegion, ob: Bound) -> LayoutRegion {
        LayoutRegion {
            region: Region { pos: self.region.pos, bound: concat_bound(b, ob) },
            layout: Layout::Concat(Box::new(*self), Box::new(shifted(other, end_pos(self.region.pos, b)))),
        }
    }

    open spec fn spec_text(child: Bound, style: Style) -> LayoutRegion {
        LayoutRegion { region: Region { pos: Pos { line: 0, col: 0 }, bound: child }, layout: Layout::Text(style) }
    }

    open spec fn spec_child(i: usize, child: Bound) -> LayoutRegion {
        LayoutRegion { region: Region { pos: Pos { line: 0, col: 0 }, bound: child }, layout: Layout::Child(i) }
    }

    fn empty() -> (r: LayoutRegion) {
        LayoutRegion { region: Region { pos: Pos::zero(), bound: Bound::empty() }, layout: Layout::Empty }
    }

    fn literal(s: &String, style: Style) -> (r: LayoutRegion) {
        LayoutRegion {
            region: Region { pos: Pos::zero(), bound: Bound::literal(s.as_str()) },
            layout: Layout::Literal(s.clone(), style),
        }
    }

    fn flush(&self, b: Bound) -> (r: LayoutRegion) {
        let inner = self.duplicate();
        LayoutRegion {
            region: Region { pos: self.region.pos, bound: b.flush() },
            layout: Layout::Flush(Box::new(inner)),
        }
    }

    fn concat(&self, b: Bound, other: &LayoutRegion, ob: Bound) -> (r: LayoutRegion) {
        let first = self.duplicate();
        let mut second = other.duplicate();
        let end = self.region.end();
        second.shift_to(end);
        proof {
            lemma_shifted_placed(*other, end);
        }
        LayoutRegion {
            region: Region { pos: self.region.pos, bound: b.concat(ob) },
            layout: Layout::Concat(Box::new(first), Box::new(second)),
        }
    }

    fn text(child: Bound, style: Style) -> (r: LayoutRegion) {
        LayoutRegion { region: Region { pos: Pos::zero(), bound: child }, layout: Layout::Text(style) }
    }

    fn child(i: usize, child: Bound) -> (r: LayoutRegion) {
        LayoutRegion { region: Region { pos: Pos::zero(), bound: child }, layout: Layout::Child(i) }
    }
}

} // verus!

verus! {

/// Every field of `b` is at most `w`.
pub open spec fn small(b: Bound, w: int) -> bool {
    b.width <= w && b.indent <= w && b.height <= w
}

/// The largest field of any bound in `s`, or 0.
pub open spec fn max_field(s: Seq<Bound>) -> int
    decreases s.len(),
{
    if s.len() == 0 {
        0
    } else {
        let m = max_field(s.drop_last());
        let b = s.last();
        let m1 = if m >= b.width { m } else { b.width as int };
        let m2 = if m1 >= b.indent { m1 } else { b.indent as int };
        if m2 >= b.height { m2 } else { b.height as int }
    }
}

proof fn lemma_max_field(s: Seq<Bound>)
    ensures
        max_field(s) >= 0,
        forall|k: int| 0 <= k < s.len() ==> small(#[trigger] s[k], max_field(s)),
    decreases s.len(),
{
    if s.len() > 0 {
        lemma_max_field(s.drop_last());
        assert forall|k: int| 0 <= k < s.len() implies small(#[trigger] s[k], max_field(s)) by {
            if k < s.len() - 1 {
                assert(s.drop_last()[k] == s[k]);
            }
        }
    }
}

/// An upper bound on every field of every candidate bound of `n`.
pub open spec fn weight(n: Notation, cs: Seq<Seq<Bound>>) -> int
    decreases n,
{
    match n {
        Notation::Literal(s, _) => s@.len() as int,
        Notation::Text(_) => if cs.len() > 0 { max_field(cs[0]) } else { 0 },
        Notation::Child(i) => if i < cs.len() { max_field(cs[i as int]) } else { 0 },
        Notation::Flush(a) => weight(*a, cs) + 1,
        Notation::Concat(a, b) => weight(*a, cs) + weight(*b, cs),
        Notation::NoWrap(a) => weight(*a, cs),
        Notation::Choice(a, b) => if weight(*a, cs) >= weight(*b, cs) {
            weight(*a, cs)
        } else {
            weight(*b, cs)
        },
        _ => 0,
    }
}

/// `n` holds no unexpanded form and refers only to the `k` children given.
pub open spec fn resolved(n: Notation, k: nat) -> bool
    decreases n,
{
    match n {
        Notation::Text(_) => k > 0,
        Notation::Child(i) => i < k,
        Notation::Flush(a) => resolved(*a, k),
        Notation::Concat(a, b) => resolved(*a, k) && resolved(*b, k),
        Notation::NoWrap(a) => resolved(*a, k),
        Notation::Choice(a, b) => resolved(*a, k) && resolved(*b, k),
        Notation::IfEmptyText(_, _) => false,
        Notation::Rep(_) => false,
        Notation::Star => false,
        _ => true,
    }
}

/// Each bound of `s` followed by a line break.
pub open spec fn flushed(s: Seq<Bound>) -> Seq<Bound>
    decreases s.len(),
{
    if s.len() == 0 {
        s
    } else {
        flushed(s.drop_last()).push(flush_bound(s.last()))
    }
}

/// The bounds of `s` that take a single line.
pub open spec fn one_line(s: Seq<Bound>) -> Seq<Bound>
    decreases s.len(),
{
    if s.len() == 0 {
        s
    } else if s.last().height == 0 {
        one_line(s.drop_last()).push(s.last())
    } else {
        one_line(s.drop_last())
    }
}

/// `x` concatenated with each bound of `s`, inserted in turn into `acc`.
pub open spec fn concat_row(acc: Seq<Bound>, x: Bound, s: Seq<Bound>) -> Seq<Bound>
    decreases s.len(),
{
    if s.len() == 0 {
        acc
    } else {
        bound_insert(concat_row(acc, x, s.drop_last()), concat_bound(x, s.last()))
    }
}

/// Every pair of `s1` and `s2`, concatenated and inserted in turn into
/// `acc`, row by row.
pub open spec fn concat_all(acc: Seq<Bound>, s1: Seq<Bound>, s2: Seq<Bound>) -> Seq<Bound>
    decreases s1.len(),
{
    if s1.len() == 0 {
        acc
    } else {
        concat_row(concat_all(acc, s1.drop_last(), s2), s1.last(), s2)
    }
}

/// The candidate bounds of `n`, given the candidate bounds of each child.
pub open spec fn lay_bounds(cs: Seq<Seq<Bound>>, n: Notation) -> Seq<Bound>
    decreases n,
{
    match n {
        Notation::Empty => seq![empty_bound()],
        Notation::Literal(s, _) => seq![literal_bound(s@.len() as int)],
        Notation::Text(_) => insert_all(Seq::empty(), cs[0]),
        Notation::Child(i) => insert_all(Seq::empty(), cs[i as int]),
        Notation::Flush(a) => insert_all(Seq::empty(), flushed(lay_bounds(cs, *a))),
        Notation::Concat(a, b) => concat_all(Seq::empty(), lay_bounds(cs, *a), lay_bounds(cs, *b)),
        Notation::NoWrap(a) => insert_all(Seq::empty(), one_line(lay_bounds(cs, *a))),
        Notation::Choice(a, b) => insert_all(
            insert_all(Seq::empty(), lay_bounds(cs, *a)),
            lay_bounds(cs, *b),
        ),
        _ => Seq::empty(),
    }
}

/// One entry for each bound of `s`: a text layout in `style` when it is
/// given, else a reference to child `index`.
pub open spec fn child_entries<L: Lay>(s: Seq<Bound>, index: usize, style: Option<Style>) -> Seq<(Bound, L)>
    decreases s.len(),
{
    if s.len() == 0 {
        Seq::empty()
    } else {
        child_entries::<L>(s.drop_last(), index, style).push(
            (
                s.last(),
                match style {
                    Some(st) => L::spec_text(s.last(), st),
                    None => L::spec_child(index, s.last()),
                },
            ),
        )
    }
}

/// Each entry of `s` followed by a line break.
pub open spec fn flushed_entries<L: Lay>(s: Seq<(Bound, L)>) -> Seq<(Bound, L)>
    decreases s.len(),
{
    if s.len() == 0 {
        s
    } else {
        flushed_entries(s.drop_last()).push((flush_bound(s.last().0), s.last().1.spec_flush(s.last().0)))
    }
}

/// The entries of `s` that take a single line.
pub open spec fn one_line_entries<T>(s: Seq<(Bound, T)>) -> Seq<(Bound, T)>
    decreases s.len(),
{
    if s.len() == 0 {
        s
    } else if s.last().0.height == 0 {
        one_line_entries(s.drop_last()).push(s.last())
    } else {
        one_line_entries(s.drop_last())
    }
}

/// `x` concatenated with each entry of `s`, inserted in turn into `acc`.
pub open spec fn concat_row_entries<L: Lay>(acc: Seq<(Bound, L)>, x: (Bound, L), s: Seq<(Bound, L)>) -> Seq<(Bound, L)>
    decreases s.len(),
{
    if s.len() == 0 {
        acc
    } else {
        entry_insert(
            concat_row_entries(acc, x, s.drop_last()),
            concat_bound(x.0, s.last().0),
            x.1.spec_concat(x.0, s.last().1, s.last().0),
        )
    }
}

/// Every pair of entries of `s1` and `s2`, concatenated and inserted in
/// turn into `acc`, row by row.
pub open spec fn concat_all_entries<L: Lay>(acc: Seq<(Bound, L)>, s1: Seq<(Bound, L)>, s2: Seq<(Bound, L)>) -> Seq<(Bound, L)>
    decreases s1.len(),
{
    if s1.len() == 0 {
        acc
    } else {
        concat_row_entries(concat_all_entries(acc, s1.drop_last(), s2), s1.last(), s2)
    }
}

/// The candidate entries of `n`, each a bound with its companion, given
/// the candidate bounds of each child.
pub open spec fn lay_entries<L: Lay>(cs: Seq<Seq<Bound>>, n: Notation) -> Seq<(Bound, L)>
    decreases n,
{
    match n {
        Notation::Empty => seq![(empty_bound(), L::spec_empty())],
        Notation::Literal(s, style) => seq![(literal_bound(s@.len() as int), L::spec_literal(s, style))],
        Notation::Text(style) => entry_insert_all(Seq::empty(), child_entries::<L>(cs[0], 0, Some(style))),
        Notation::Child(i) => entry_insert_all(Seq::empty(), child_entries::<L>(cs[i as int], i, None)),
        Notation::Flush(a) => entry_insert_all(Seq::empty(), flushed_entries(lay_entries::<L>(cs, *a))),
        Notation::Concat(a, b) => concat_all_entries(Seq::empty(), lay_entries::<L>(cs, *a), lay_entries::<L>(cs, *b)),
        Notation::NoWrap(a) => entry_insert_all(Seq::empty(), one_line_entries(lay_entries::<L>(cs, *a))),
        Notation::Choice(a, b) => entry_insert_all(
            entry_insert_all(Seq::empty(), lay_entries::<L>(cs, *a)),
            lay_entries::<L>(cs, *b),
        ),
        _ => Seq::empty(),
    }
}

/// Every companion fits its bound, and every bound is at most `w` in
/// each field.
pub open spec fn entries_ok<L: Lay>(s: Seq<(Bound, L)>, w: int) -> bool {
    forall|k: int| 0 <= k < s.len() ==> (#[trigger] s[k]).1.fits(s[k].0) && small(s[k].0, w) && bound_wf(s[k].0)
}

/// The candidate bounds of each child, in order.
pub open spec fn child_keys(v: Seq<&BoundSet<()>>) -> Seq<Seq<Bound>> {
    v.map_values(|c: &BoundSet<()>| c.bounds())
}

/// Every candidate bound of every child ends its last line within its width.
pub open spec fn children_ok(cs: Seq<Seq<Bound>>) -> bool {
    forall|i: int, k: int| 0 <= i < cs.len() && 0 <= k < cs[i].len() ==> bound_wf(#[trigger] cs[i][k])
}

proof fn lemma_insert_keeps<L: Lay>(
    before: Seq<(Bound, L)>,
    after: Seq<(Bound, L)>,
    b: Bound,
    v: L,
    w: int,
)
    requires
        entries_ok(before, w),
        v.fits(b),
        small(b, w),
        bound_wf(b),
        forall|k: int| 0 <= k < after.len() ==> #[trigger] after[k] == (b, v) || before.contains(after[k]),
    ensures
        entries_ok(after, w),
{
    assert forall|k: int| 0 <= k < after.len() implies (#[trigger] after[k]).1.fits(after[k].0) && small(after[k].0, w) && bound_wf(after[k].0) by {
        if after[k] != (b, v) {
            assert(before.contains(after[k]));
            let m = choose|m: int| 0 <= m < before.len() && before[m] == after[k];
            assert(before[m].1.fits(before[m].0));
        }
    }
}

proof fn lemma_weaken<L: Lay>(s: Seq<(Bound, L)>, w: int, w2: int)
    requires
        entries_ok(s, w),
        w <= w2,
    ensures
        entries_ok(s, w2),
{
    assert forall|k: int| 0 <= k < s.len() implies (#[trigger] s[k]).1.fits(s[k].0) && small(s[k].0, w2) && bound_wf(s[k].0) by {
        assert(s[k].1.fits(s[k].0) && small(s[k].0, w) && bound_wf(s[k].0));
    }
}

/// One entry for each candidate bound of a child: a text layout when
/// `style` is given, else a reference to child `index`.
fn lay_child<L: Lay>(src: &BoundSet<()>, index: usize, style: Option<Style>) -> (r: BoundSet<L>)
    requires
        forall|k: int| 0 <= k < src.bounds().len() ==> bound_wf(#[trigger] src.bounds()[k]),
    ensures
        r.wf(),
        r.bounds() == insert_all(Seq::empty(), src.bounds()),
        r.entries() == entry_insert_all(Seq::empty(), child_entries::<L>(src.bounds(), index, style)),
        entries_ok(r.entries(), max_field(src.bounds())),
{
    let ghost s = src.bounds();
    proof {
        lemma_max_field(s);
    }
    let mut set: BoundSet<L> = BoundSet::new();
    let n = src.len();
    let mut k: usize = 0;
    assert(keys(set.entries()) =~= Seq::<Bound>::empty());
    assert(s.subrange(0, 0) =~= Seq::<Bound>::empty());
    while k < n
        invariant
            n == s.len(),
            s == src.bounds(),
            k <= n,
            set.wf(),
            set.bounds() == insert_all(Seq::empty(), s.subrange(0, k as int)),
            set.entries() == entry_insert_all(Seq::empty(), child_entries::<L>(s.subrange(0, k as int), index, style)),
            entries_ok(set.entries(), max_field(s)),
            forall|j: int| 0 <= j < s.len() ==> bound_wf(#[trigger] s[j]) && small(s[j], max_field(s)),
        decreases n - k,
    {
        let b = src.bound(k);
        let v = match style {
            Some(st) => L::text(b, st),
            None => L::child(index, b),
        };
        let ghost before = set.entries();
        set.insert(b, v);
        proof {
            lemma_insert_keeps(before, set.entries(), b, v, max_field(s));
            assert(s.subrange(0, k + 1).drop_last() =~= s.subrange(0, k as int));
            let ce = child_entries::<L>(s.subrange(0, k as int), index, style);
            assert(s.subrange(0, k + 1).last() == b);
            assert(child_entries::<L>(s.subrange(0, k + 1), index, style) == ce.push((b, v)));
            assert(ce.push((b, v)).drop_last() =~= ce);
        }
        k = k + 1;
    }
    assert(s.subrange(0, n as int) =~= s);
    set
}

/// Inserts the entries of `from`, in order, into `set`.
fn extend<L: Lay>(set: &mut BoundSet<L>, from: BoundSet<L>, Ghost(w): Ghost<int>)
    requires
        old(set).wf(),
        entries_ok(old(set).entries(), w),
        entries_ok(from.entries(), w),
    ensures
        final(set).wf(),
        final(set).bounds() == insert_all(old(set).bounds(), from.bounds()),
        final(set).entries() == entry_insert_all(old(set).entries(), from.entries()),
        entries_ok(final(set).entries(), w),
{
    let ghost init_e = set.entries();
    let ghost init = set.bounds();
    let ghost s = from.entries();
    let ghost ks = from.bounds();
    let mut rest = from.into_entries();
    let ghost n = s.len();
    let ghost mut k: int = 0;
    while rest.len() > 0
        invariant
            n == s.len(),
            ks == keys(s),
            0 <= k <= n,
            rest@ == s.subrange(k as int, n as int),
            set.wf(),
            set.bounds() == insert_all(init, ks.subrange(0, k as int)),
            set.entries() == entry_insert_all(init_e, s.subrange(0, k as int)),
            entries_ok(set.entries(), w),
            entries_ok(s, w),
        decreases rest@.len(),
    {
        let (b, v) = rest.remove(0);
        proof {
            assert(s[k as int] == (b, v)) by {
                assert(s.subrange(k as int, n as int)[0] == s[k as int]);
            }
            assert(rest@ =~= s.subrange(k + 1, n as int));
            assert(ks[k as int] == b);
        }
        let ghost before = set.entries();
        set.insert(b, v);
        proof {
            lemma_insert_keeps(before, set.entries(), b, v, w);
            assert(ks.subrange(0, k + 1).drop_last() =~= ks.subrange(0, k as int));
            assert(s.subrange(0, k + 1).drop_last() =~= s.subrange(0, k as int));
            assert(s.subrange(0, k + 1).last() == (b, v));
            k = k + 1;
        }
    }
    proof {
        assert(k == n) by {
            if k < n {
                assert(s.subrange(k as int, n as int).len() > 0);
            }
        }
        assert(ks.subrange(0, n as int) =~= ks);
        assert(s.subrange(0, n as int) =~= s);
    }
}

/// Each entry of `from` followed by a line break.
fn flush_all<L: Lay>(from: &BoundSet<L>, Ghost(w): Ghost<int>) -> (r: BoundSet<L>)
    requires
        entries_ok(from.entries(), w),
        w < Col::MAX,
    ensures
        r.wf(),
        r.bounds() == insert_all(Seq::empty(), flushed(from.bounds())),
        r.entries() == entry_insert_all(Seq::empty(), flushed_entries(from.entries())),
        entries_ok(r.entries(), w + 1),
{
    let ghost e = from.entries();
    let ghost s = from.bounds();
    let mut set: BoundSet<L> = BoundSet::new();
    let n = from.len();
    let mut k: usize = 0;
    assert(keys(set.entries()) =~= Seq::<Bound>::empty());
    assert(e.subrange(0, 0) =~= Seq::<(Bound, L)>::empty());
    while k < n
        invariant
            n == s.len(),
            s == from.bounds(),
            k <= n,
            set.wf(),
            set.bounds() == insert_all(Seq::empty(), flushed(s.subrange(0, k as int))),
            e == from.entries(),
            set.entries() == entry_insert_all(Seq::empty(), flushed_entries(e.subrange(0, k as int))),
            entries_ok(set.entries(), w + 1),
            entries_ok(from.entries(), w),
            w < Col::MAX,
        decreases n - k,
    {
        let b = from.bound(k);
        assert(b == from.entries()[k as int].0);
        assert(from.entries()[k as int].1.fits(from.entries()[k as int].0) && small(b, w) && bound_wf(b));
        let v = from.value(k).flush(b);
        assert(b.height < Col::MAX);
        let fb = Bound::flush(&b);
        let ghost before = set.entries();
        set.insert(fb, v);
        proof {
            lemma_insert_keeps(before, set.entries(), fb, v, w + 1);
            let sub = s.subrange(0, k + 1);
            assert(sub.drop_last() =~= s.subrange(0, k as int));
            assert(flushed(sub) == flushed(s.subrange(0, k as int)).push(fb));
            assert(flushed(sub).drop_last() =~= flushed(s.subrange(0, k as int)));
            let esub = e.subrange(0, k + 1);
            assert(esub.drop_last() =~= e.subrange(0, k as int));
            assert(esub.last() == e[k as int]);
            let fe = flushed_entries(e.subrange(0, k as int));
            assert(flushed_entries(esub) == fe.push((fb, v)));
            assert(fe.push((fb, v)).drop_last() =~= fe);
        }
        k = k + 1;
    }
    assert(s.subrange(0, n as int) =~= s);
    assert(e.subrange(0, n as int) =~= e);
    set
}

/// The entries of `from` that take a single line.
fn one_line_all<L: Lay>(from: BoundSet<L>, Ghost(w): Ghost<int>) -> (r: BoundSet<L>)
    requires
        entries_ok(from.entries(), w),
    ensures
        r.wf(),
        r.bounds() == insert_all(Seq::empty(), one_line(from.bounds())),
        r.entries() == entry_insert_all(Seq::empty(), one_line_entries(from.entries())),
        entries_ok(r.entries(), w),
{
    let ghost s = from.entries();
    let ghost ks = from.bounds();
    let mut rest = from.into_entries();
    let ghost n = s.len();
    let mut set: BoundSet<L> = BoundSet::new();
    let ghost mut k: int = 0;
    assert(keys(set.entries()) =~= Seq::<Bound>::empty());
    assert(s.subrange(0, 0) =~= Seq::<(Bound, L)>::empty());
    while rest.len() > 0
        invariant
            n == s.len(),
            ks == keys(s),
            0 <= k <= n,
            rest@ == s.subrange(k as int, n as int),
            set.wf(),
            set.bounds() == insert_all(Seq::empty(), one_line(ks.subrange(0, k as int))),
            set.entries() == entry_insert_all(Seq::empty(), one_line_entries(s.subrange(0, k as int))),
            entries_ok(set.entries(), w),
            entries_ok(s, w),
        decreases rest@.len(),
    {
        let (b, v) = rest.remove(0);
        proof {
            assert(s[k as int] == (b, v)) by {
                assert(s.subrange(k as int, n as int)[0] == s[k as int]);
            }
            assert(rest@ =~= s.subrange(k + 1, n as int));
            assert(ks[k as int] == b);
            let sub = ks.subrange(0, k + 1);
            assert(sub.drop_last() =~= ks.subrange(0, k as int));
            assert(sub.last() == b);
            let esub = s.subrange(0, k + 1);
            assert(esub.drop_last() =~= s.subrange(0, k as int));
            assert(esub.last() == (b, v));
        }
        if b.height == 0 {
            let ghost before = set.entries();
            set.insert(b, v);
            proof {
                lemma_insert_keeps(before, set.entries(), b, v, w);
                let prev = one_line(ks.subrange(0, k as int));
                assert(prev.push(b).drop_last() =~= prev);
                let preve = one_line_entries(s.subrange(0, k as int));
                assert(preve.push((b, v)).drop_last() =~= preve);
            }
        }
        proof {
            k = k + 1;
        }
    }
    proof {
        assert(k == n) by {
            if k < n {
                assert(s.subrange(k as int, n as int).len() > 0);
            }
        }
        assert(ks.subrange(0, n as int) =~= ks);
        assert(s.subrange(0, n as int) =~= s);
    }
    set
}

/// Every pair of entries of `s1` and `s2`, concatenated.
fn concat_sets<L: Lay>(s1: &BoundSet<L>, s2: &BoundSet<L>, Ghost(w1): Ghost<int>, Ghost(w2): Ghost<int>) -> (r: BoundSet<L>)
    requires
        entries_ok(s1.entries(), w1),
        entries_ok(s2.entries(), w2),
        w1 >= 0,
        w2 >= 0,
        w1 + w2 <= Col::MAX,
    ensures
        r.wf(),
        r.bounds() == concat_all(Seq::empty(), s1.bounds(), s2.bounds()),
        r.entries() == concat_all_entries(Seq::empty(), s1.entries(), s2.entries()),
        entries_ok(r.entries(), w1 + w2),
{
    let ghost e1 = s1.entries();
    let ghost e2 = s2.entries();
    let ghost a = s1.bounds();
    let ghost b = s2.bounds();
    let mut set: BoundSet<L> = BoundSet::new();
    let n1 = s1.len();
    let n2 = s2.len();
    let mut i: usize = 0;
    assert(keys(set.entries()) =~= Seq::<Bound>::empty());
    assert(e1.subrange(0, 0) =~= Seq::<(Bound, L)>::empty());
    while i < n1
        invariant
            n1 == a.len(),
            n2 == b.len(),
            a == s1.bounds(),
            b == s2.bounds(),
            i <= n1,
            set.wf(),
            set.bounds() == concat_all(Seq::empty(), a.subrange(0, i as int), b),
            e1 == s1.entries(),
            e2 == s2.entries(),
            set.entries() == concat_all_entries(Seq::empty(), e1.subrange(0, i as int), e2),
            entries_ok(set.entries(), w1 + w2),
            entries_ok(s1.entries(), w1),
            entries_ok(s2.entries(), w2),
            w1 >= 0,
            w2 >= 0,
            w1 + w2 <= Col::MAX,
        decreases n1 - i,
    {
        let x = s1.bound(i);
        assert(x == s1.entries()[i as int].0);
        assert(s1.entries()[i as int].1.fits(s1.entries()[i as int].0) && small(x, w1) && bound_wf(x));
        let vx = s1.value(i);
        let ghost row_start = set.bounds();
        let ghost row_start_e = set.entries();
        let mut j: usize = 0;
        while j < n2
            invariant
                n1 == a.len(),
                n2 == b.len(),
                a == s1.bounds(),
                b == s2.bounds(),
                i < n1,
                j <= n2,
                x == a[i as int],
                vx.fits(x),
                small(x, w1),
                bound_wf(x),
                set.wf(),
                set.bounds() == concat_row(row_start, x, b.subrange(0, j as int)),
                e1 == s1.entries(),
                e2 == s2.entries(),
                x == e1[i as int].0,
                *vx == e1[i as int].1,
                set.entries() == concat_row_entries(row_start_e, e1[i as int], e2.subrange(0, j as int)),
                entries_ok(set.entries(), w1 + w2),
                entries_ok(s2.entries(), w2),
                w1 >= 0,
                w2 >= 0,
                w1 + w2 <= Col::MAX,
            decreases n2 - j,
        {
            let y = s2.bound(j);
            assert(y == s2.entries()[j as int].0);
            assert(s2.entries()[j as int].1.fits(s2.entries()[j as int].0) && small(y, w2) && bound_wf(y));
            let vy = s2.value(j);
            let cb = x.concat(y);
            let cv = vx.concat(x, vy, y);
            let ghost before = set.entries();
            set.insert(cb, cv);
            proof {
                lemma_insert_keeps(before, set.entries(), cb, cv, w1 + w2);
                assert(b.subrange(0, j + 1).drop_last() =~= b.subrange(0, j as int));
                let esub = e2.subrange(0, j + 1);
                assert(esub.drop_last() =~= e2.subrange(0, j as int));
                assert(esub.last() == e2[j as int]);
                assert(e2[j as int].0 == y && e2[j as int].1 == *vy);
            }
            j = j + 1;
        }
        proof {
            assert(b.subrange(0, n2 as int) =~= b);
            assert(a.subrange(0, i + 1).drop_last() =~= a.subrange(0, i as int));
            assert(e2.subrange(0, n2 as int) =~= e2);
            assert(e1.subrange(0, i + 1).drop_last() =~= e1.subrange(0, i as int));
            assert(e1.subrange(0, i + 1).last() == e1[i as int]);
        }
        i = i + 1;
    }
    assert(a.subrange(0, n1 as int) =~= a);
    assert(e1.subrange(0, n1 as int) =~= e1);
    set
}

/// The candidate layouts of `notation`, given the candidate bounds of each
/// child, pruned to those that no other candidate dominates.
pub fn lay_out<L: Lay>(child_bounds: &Vec<&BoundSet<()>>, notation: &Notation) -> (r: BoundSet<L>)
    requires
        resolved(*notation, child_bounds@.len()),
        children_ok(child_keys(child_bounds@)),
        weight(*notation, child_keys(child_bounds@)) <= Col::MAX,
    ensures
        r.wf(),
        r.bounds() == lay_bounds(child_keys(child_bounds@), *notation),
        r.entries() == lay_entries::<L>(child_keys(child_bounds@), *notation),
        entries_ok(r.entries(), weight(*notation, child_keys(child_bounds@))),
    decreases notation,
{
    let ghost cs = child_keys(child_bounds@);
    match notation {
        Notation::Empty => {
            let r = BoundSet::singleton(Bound::empty(), L::empty());
            r
        },
        Notation::Literal(s, style) => {
            let r = BoundSet::singleton(Bound::literal(s.as_str()), L::literal(s, *style));
            r
        },
        Notation::Text(style) => {
            let src = child_bounds[0];
            assert(src.bounds() == cs[0]);
            lay_child(src, 0, Some(*style))
        },
        Notation::Child(index) => {
            let src = child_bounds[*index];
            assert(src.bounds() == cs[*index as int]);
            lay_child(src, *index, None)
        },
        Notation::Flush(a) => {
            let inner: BoundSet<L> = lay_out(child_bounds, a);
            flush_all(&inner, Ghost(weight(**a, cs)))
        },
        Notation::Concat(a, b) => {
            proof {
                lemma_weight_nonneg(**a, cs);
                lemma_weight_nonneg(**b, cs);
            }
            let s1: BoundSet<L> = lay_out(child_bounds, a);
            let s2: BoundSet<L> = lay_out(child_bounds, b);
            concat_sets(&s1, &s2, Ghost(weight(**a, cs)), Ghost(weight(**b, cs)))
        },
        Notation::NoWrap(a) => {
            let inner: BoundSet<L> = lay_out(child_bounds, a);
            one_line_all(inner, Ghost(weight(**a, cs)))
        },
        Notation::Choice(a, b) => {
            let s1: BoundSet<L> = lay_out(child_bounds, a);
            let s2: BoundSet<L> = lay_out(child_bounds, b);
            let ghost w = weight(*notation, cs);
            proof {
                lemma_weaken(s1.entries(), weight(**a, cs), w);
                lemma_weaken(s2.entries(), weight(**b, cs), w);
            }
            let mut set: BoundSet<L> = BoundSet::new();
            assert(keys(set.entries()) =~= Seq::<Bound>::empty());
            extend(&mut set, s1, Ghost(w));
            extend(&mut set, s2, Ghost(w));
            set
        },
        _ => unreached(),
    }
}

proof fn lemma_weight_nonneg(n: Notation, cs: Seq<Seq<Bound>>)
    ensures
        weight(n, cs) >= 0,
    decreases n,
{
    match n {
        Notation::Text(_) => {
            if cs.len() > 0 {
                lemma_max_field(cs[0]);
            }
        },
        Notation::Child(i) => {
            if i < cs.len() {
                lemma_max_field(cs[i as int]);
            }
        },
        Notation::Flush(a) => lemma_weight_nonneg(*a, cs),
        Notation::Concat(a, b) => {
            lemma_weight_nonneg(*a, cs);
            lemma_weight_nonneg(*b, cs);
        },
        Notation::NoWrap(a) => lemma_weight_nonneg(*a, cs),
        Notation::Choice(a, b) => {
            lemma_weight_nonneg(*a, cs);
            lemma_weight_nonneg(*b, cs);
        },
        _ => {},
    }
}

} // verus!

verus! {

/// What laying out `n` for a node with `k` children and the given
/// empty-text flag needs of the children's candidate bounds `cs`.
pub open spec fn can_lay_out(n: Notation, cs: Seq<Seq<Bound>>, empty_text: bool) -> bool {
    let e = expanded(n, cs.len(), empty_text);
    &&& resolved(e, cs.len())
    &&& children_ok(cs)
    &&& weight(e, cs) <= Col::MAX
}

/// The candidate bounds of a text node whose text is `s`: one line as
/// wide as the text.
pub fn text_bounds(s: &str) -> (r: BoundSet<()>)
    requires
        s@.len() <= Col::MAX,
    ensures
        r.wf(),
        r.bounds() == seq![literal_bound(s@.len() as int)],
{
    BoundSet::singleton(Bound::literal(s), ())
}

impl Notation {
    /// The candidate layouts of this notation for a node whose children
    /// have the given candidate bounds (for a text node: the bounds of its
    /// text) and whose text is empty or not.
    pub fn lay_out(&self, child_bounds: Vec<&BoundSet<()>>, is_empty_text: bool) -> (r: BoundSet<LayoutRegion>)
        requires
            can_lay_out(*self, child_keys(child_bounds@), is_empty_text),
        ensures
            r.wf(),
            r.entries() == lay_entries::<LayoutRegion>(
                child_keys(child_bounds@),
                expanded(*self, child_bounds@.len(), is_empty_text),
            ),
            r.bounds() == lay_bounds(
                child_keys(child_bounds@),
                expanded(*self, child_bounds@.len(), is_empty_text),
            ),
            entries_ok(
                r.entries(),
                weight(expanded(*self, child_bounds@.len(), is_empty_text), child_keys(child_bounds@)),
            ),
    {
        let notation = self.expand(child_bounds.len(), is_empty_text);
        lay_out(&child_bounds, &notation)
    }

    /// The candidate bounds of this notation, as for `lay_out`.
    pub fn bound(&self, child_bounds: Vec<&BoundSet<()>>, is_empty_text: bool) -> (r: BoundSet<()>)
        requires
            can_lay_out(*self, child_keys(child_bounds@), is_empty_text),
        ensures
            r.wf(),
            r.bounds() == lay_bounds(
                child_keys(child_bounds@),
                expanded(*self, child_bounds@.len(), is_empty_text),
            ),
            entries_ok(
                r.entries(),
                weight(expanded(*self, child_bounds@.len(), is_empty_text), child_keys(child_bounds@)),
            ),
    {
        let notation = self.expand(child_bounds.len(), is_empty_text);
        lay_out(&child_bounds, &notation)
    }
}

} // verus!
