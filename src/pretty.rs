use vstd::prelude::*;
use crate::boundset::{BoundSet, selected};
use crate::geometry::{Bound, Col, Pos, bound_wf, literal_bound};
use crate::layout::{
    Layout, LayoutRegion, can_lay_out, child_keys, children_ok, max_field, resolved, text_bounds,
    weight,
};
use crate::notation::{Notation, expanded};
use crate::notationset::NotationSet;

verus! {

/// `n` copies of `c`.
pub open spec fn repeat_char(c: char, n: nat) -> Seq<char> {
    Seq::new(n, |i: int| c)
}

/// `rows` extended with empty rows so that it has at least `n` of them.
pub open spec fn with_rows(rows: Seq<Seq<char>>, n: nat) -> Seq<Seq<char>> {
    if rows.len() >= n {
        rows
    } else {
        rows + Seq::new((n - rows.len()) as nat, |i: int| Seq::<char>::empty())
    }
}

/// `rows` with `c` written at `line` and `col`; a short row is padded
/// with spaces.
pub open spec fn put_char(rows: Seq<Seq<char>>, line: nat, col: nat, c: char) -> Seq<Seq<char>> {
    let grown = with_rows(rows, line + 1);
    let row = grown[line as int];
    let new_row = if col < row.len() {
        row.update(col as int, c)
    } else {
        (row + repeat_char(' ', (col - row.len()) as nat)).push(c)
    };
    grown.update(line as int, new_row)
}

/// `rows` with the characters of `s` written from `line` and `col` on.
pub open spec fn put_str(rows: Seq<Seq<char>>, line: nat, col: nat, s: Seq<char>) -> Seq<Seq<char>>
    decreases s.len(),
{
    if s.len() == 0 {
        rows
    } else {
        put_char(put_str(rows, line, col, s.drop_last()), line, (col + s.len() - 1) as nat, s.last())
    }
}

/// The rows joined by line breaks.
pub open spec fn joined(rows: Seq<Seq<char>>) -> Seq<char>
    decreases rows.len(),
{
    if rows.len() == 0 {
        Seq::empty()
    } else if rows.len() == 1 {
        rows[0]
    } else {
        joined(rows.drop_last()).push('\n') + rows.last()
    }
}

/// Relies on `String`'s `FromIterator<char>`: the string holds the
/// characters in order.
#[verifier::external_body]
fn string_of(chars: &Vec<char>) -> (r: String)
    ensures
        r@ == chars@,
{
    chars.iter().collect()
}

/// Appends the characters of `s` to `out`.
fn push_str(out: &mut Vec<char>, s: &str)
    ensures
        final(out)@ == old(out)@ + s@,
{
    let n = s.unicode_len();
    let mut i: usize = 0;
    while i < n
        invariant
            n == s@.len(),
            i <= n,
            out@ == old(out)@ + s@.subrange(0, i as int),
        decreases n - i,
    {
        out.push(s.get_char(i));
        proof {
            assert(s@.subrange(0, i + 1) =~= s@.subrange(0, i as int).push(s@[i as int]));
        }
        i = i + 1;
    }
    assert(s@.subrange(0, n as int) =~= s@);
}

/// Appends `n` copies of `c` to `out`.
fn push_repeat(out: &mut Vec<char>, c: char, n: usize)
    ensures
        final(out)@ == old(out)@ + repeat_char(c, n as nat),
{
    let mut i: usize = 0;
    while i < n
        invariant
            i <= n,
            out@ == old(out)@ + repeat_char(c, i as nat),
        decreases n - i,
    {
        out.push(c);
        assert(repeat_char(c, (i + 1) as nat) =~= repeat_char(c, i as nat).push(c));
        i = i + 1;
    }
}

/// The picture of a bound drawn with `c`, each new line starting at
/// column `indent`: `height` full lines of `width` characters, then a
/// last line of `indent` characters of the bound.
pub open spec fn bound_picture(b: Bound, c: char, indent: nat) -> Seq<char> {
    full_lines(b, c, indent, b.height as nat) + repeat_char(c, b.indent as nat)
}

/// The first `k` full lines of `bound_picture`.
pub open spec fn full_lines(b: Bound, c: char, indent: nat, k: nat) -> Seq<char>
    decreases k,
{
    if k == 0 {
        Seq::empty()
    } else {
        full_lines(b, c, indent, (k - 1) as nat) + repeat_char(c, b.width as nat).push('\n') + repeat_char(
            ' ',
            indent,
        )
    }
}

/// The decimal digit of `i` in the units place.
pub open spec fn units_digit(i: nat) -> char {
    ((i % 10) + 48) as char
}

/// The picture of a layout: literals as they are, text and children as
/// pictures of their bounds, a line break after each flush.
pub open spec fn layout_picture(lr: LayoutRegion) -> Seq<char>
    decreases lr,
{
    match lr.layout {
        Layout::Empty => Seq::empty(),
        Layout::Literal(s, _) => s@,
        Layout::Text(_) => bound_picture(lr.region.bound, 't', lr.region.pos.col as nat),
        Layout::Flush(a) => layout_picture(*a).push('\n') + repeat_char(' ', lr.region.pos.col as nat),
        Layout::Concat(a, b) => layout_picture(*a) + layout_picture(*b),
        Layout::Child(i) => bound_picture(lr.region.bound, units_digit(i as nat), lr.region.pos.col as nat),
    }
}

fn push_bound_picture(out: &mut Vec<char>, b: Bound, c: char, indent: Col)
    ensures
        final(out)@ == old(out)@ + bound_picture(b, c, indent as nat),
{
    let mut k: Col = 0;
    while k < b.height
        invariant
            k <= b.height,
            out@ == old(out)@ + full_lines(b, c, indent as nat, k as nat),
        decreases b.height - k,
    {
        push_repeat(out, c, b.width as usize);
        out.push('\n');
        push_repeat(out, ' ', indent as usize);
        k = k + 1;
        assert(out@ =~= old(out)@ + full_lines(b, c, indent as nat, k as nat));
    }
    push_repeat(out, c, b.indent as usize);
    assert(out@ =~= old(out)@ + bound_picture(b, c, indent as nat));
}

fn push_layout_picture(out: &mut Vec<char>, lr: &LayoutRegion)
    ensures
        final(out)@ == old(out)@ + layout_picture(*lr),
    decreases lr,
{
    match &lr.layout {
        Layout::Empty => {
            assert(out@ =~= old(out)@ + layout_picture(*lr));
        },
        Layout::Literal(s, _) => {
            push_str(out, s.as_str());
        },
        Layout::Text(_) => {
            push_bound_picture(out, lr.region.bound, 't', lr.region.pos.col);
        },
        Layout::Flush(a) => {
            push_layout_picture(out, a);
            out.push('\n');
            push_repeat(out, ' ', lr.region.pos.col as usize);
            assert(out@ =~= old(out)@ + layout_picture(*lr));
        },
        Layout::Concat(a, b) => {
            push_layout_picture(out, a);
            push_layout_picture(out, b);
            assert(out@ =~= old(out)@ + layout_picture(*lr));
        },
        Layout::Child(i) => {
            let d = (*i % 10) as u8 + 48u8;
            let c = d as char;
            assert(c == units_digit(*i as nat));
            push_bound_picture(out, lr.region.bound, c, lr.region.pos.col);
        },
    }
}

impl Bound {
    /// A picture of the bound drawn with `*`.
    pub fn debug_string(&self) -> (r: String)
        ensures
            r@ == bound_picture(*self, '*', 0),
    {
        let mut out: Vec<char> = Vec::new();
        push_bound_picture(&mut out, *self, '*', 0);
        assert(out@ =~= bound_picture(*self, '*', 0));
        string_of(&out)
    }
}

impl LayoutRegion {
    /// A picture of the layout: literals as they are, text and children as
    /// pictures of their bounds.
    pub fn debug_string(&self) -> (r: String)
        ensures
            r@ == layout_picture(*self),
    {
        let mut out: Vec<char> = Vec::new();
        push_layout_picture(&mut out, self);
        assert(out@ =~= layout_picture(*self));
        string_of(&out)
    }
}

/// A screen of plain characters that grows as it is written to.
pub struct PlainText {
    width: usize,
    rows: Vec<Vec<char>>,
}

impl PlainText {
    /// The characters on screen, row by row.
    pub closed spec fn rows(&self) -> Seq<Seq<char>> {
        self.rows@.map_values(|r: Vec<char>| r@)
    }

    pub closed spec fn spec_width(&self) -> nat {
        self.width as nat
    }

    /// An empty screen `width` columns wide.
    pub fn new(width: usize) -> (r: PlainText)
        ensures
            r.rows() == Seq::<Seq<char>>::empty(),
            r.spec_width() == width,
    {
        let r = PlainText { width, rows: Vec::new() };
        assert(r.rows() =~= Seq::<Seq<char>>::empty());
        r
    }

    pub fn width(&self) -> (r: usize)
        ensures
            r == self.spec_width(),
    {
        self.width
    }

    /// Writes `c` at `line` and `col`.
    pub fn write_char(&mut self, line: usize, col: usize, c: char)
        ensures
            final(self).rows() == put_char(old(self).rows(), line as nat, col as nat, c),
            final(self).spec_width() == old(self).spec_width(),
    {
        let ghost start = self.rows();
        while self.rows.len() <= line
            invariant
                self.rows@.len() >= start.len(),
                self.rows@.len() > start.len() ==> self.rows@.len() <= line + 1,
                self.width == old(self).width,
                self.rows() == with_rows(start, self.rows@.len() as nat),
                start == old(self).rows(),
            decreases line + 1 - self.rows@.len(),
        {
            let ghost before = self.rows();
            self.rows.push(Vec::new());
            proof {
                assert(self.rows() =~= before.push(Seq::<char>::empty()));
                assert(with_rows(start, self.rows@.len() as nat) =~= with_rows(start, before.len()).push(Seq::<char>::empty()));
            }
        }
        proof {
            assert(self.rows() =~= with_rows(start, (line + 1) as nat)) by {
                if start.len() >= line + 1 {
                    assert(self.rows@.len() == start.len());
                }
            }
        }
        let ghost grown = self.rows();
        let mut row = self.rows.remove(line);
        assert(row@ == grown[line as int]);
        if col < row.len() {
            row.remove(col);
            row.insert(col, c);
            assert(row@ =~= grown[line as int].update(col as int, c));
        } else {
            let pad = col - row.len();
            let ghost old_row = row@;
            let mut k: usize = 0;
            while k < pad
                invariant
                    k <= pad,
                    row@ == old_row + repeat_char(' ', k as nat),
                decreases pad - k,
            {
                row.push(' ');
                assert(repeat_char(' ', (k + 1) as nat) =~= repeat_char(' ', k as nat).push(' '));
                k = k + 1;
            }
            row.push(c);
        }
        let ghost new_row = row@;
        self.rows.insert(line, row);
        proof {
            assert(self.rows() =~= grown.update(line as int, new_row));
        }
    }

    /// Writes the characters of `s` from `line` and `col` on.
    pub fn write_str(&mut self, line: usize, col: usize, s: &str)
        requires
            col + s@.len() <= usize::MAX,
        ensures
            final(self).rows() == put_str(old(self).rows(), line as nat, col as nat, s@),
            final(self).spec_width() == old(self).spec_width(),
    {
        let n = s.unicode_len();
        let mut i: usize = 0;
        while i < n
            invariant
                n == s@.len(),
                i <= n,
                col + n <= usize::MAX,
                self.rows() == put_str(old(self).rows(), line as nat, col as nat, s@.subrange(0, i as int)),
                self.spec_width() == old(self).spec_width(),
            decreases n - i,
        {
            let c = s.get_char(i);
            self.write_char(line, col + i, c);
            proof {
                let sub = s@.subrange(0, i + 1);
                assert(sub.drop_last() =~= s@.subrange(0, i as int));
                assert(sub.last() == c);
            }
            i = i + 1;
        }
        assert(s@.subrange(0, n as int) =~= s@);
    }

    /// The rows joined by line breaks.
    pub fn contents(&self) -> (r: String)
        ensures
            r@ == joined(self.rows()),
    {
        let mut out: Vec<char> = Vec::new();
        let n = self.rows.len();
        let mut i: usize = 0;
        while i < n
            invariant
                n == self.rows@.len(),
                i <= n,
                out@ == joined(self.rows().subrange(0, i as int)),
            decreases n - i,
        {
            let ghost before = out@;
            if i > 0 {
                out.push('\n');
            }
            let row = &self.rows[i];
            let m = row.len();
            let mut k: usize = 0;
            while k < m
                invariant
                    m == row@.len(),
                    k <= m,
                    out@ == (if i > 0 { before.push('\n') } else { before }) + row@.subrange(0, k as int),
                decreases m - k,
            {
                out.push(row[k]);
                assert(row@.subrange(0, k + 1) =~= row@.subrange(0, k as int).push(row@[k as int]));
                k = k + 1;
            }
            proof {
                let rs = self.rows();
                assert(rs[i as int] == row@);
                assert(row@.subrange(0, m as int) =~= row@);
                let sub = rs.subrange(0, i + 1);
                assert(sub.drop_last() =~= rs.subrange(0, i as int));
                if i == 0 {
                    assert(before =~= Seq::<char>::empty());
                    assert(out@ =~= sub[0]);
                }
            }
            i = i + 1;
        }
        assert(self.rows().subrange(0, n as int) =~= self.rows());
        string_of(&out)
    }
}

/// Writing `a` and then `b` right after it is writing `a + b`.
pub proof fn lemma_put_str_concat(rows: Seq<Seq<char>>, line: nat, col: nat, a: Seq<char>, b: Seq<char>)
    ensures
        put_str(put_str(rows, line, col, a), line, col + a.len(), b) == put_str(rows, line, col, a + b),
    decreases b.len(),
{
    if b.len() == 0 {
        assert(a + b =~= a);
    } else {
        lemma_put_str_concat(rows, line, col, a, b.drop_last());
        assert((a + b).drop_last() =~= a + b.drop_last());
        assert((a + b).last() == b.last());
    }
}

/// Writing `s` at the top left of an empty screen gives one row that
/// holds `s`.
pub proof fn lemma_put_str_fresh(s: Seq<char>)
    requires
        s.len() > 0,
    ensures
        put_str(Seq::empty(), 0, 0, s) == seq![s],
    decreases s.len(),
{
    let d = s.drop_last();
    if d.len() == 0 {
        assert(put_str(Seq::empty(), 0, 0, d) == Seq::<Seq<char>>::empty());
        assert(with_rows(Seq::empty(), 1) =~= seq![Seq::<char>::empty()]);
        assert((Seq::<char>::empty() + repeat_char(' ', 0)).push(s.last()) =~= s);
        assert(put_str(Seq::empty(), 0, 0, s) =~= seq![s]);
    } else {
        lemma_put_str_fresh(d);
        assert(with_rows(seq![d], 1) == seq![d]);
        assert((d + repeat_char(' ', 0)).push(s.last()) =~= s);
        assert(put_str(Seq::empty(), 0, 0, s) =~= seq![s]);
    }
}

} // verus!
