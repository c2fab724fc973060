use vstd::prelude::*;
use crate::style::Style;

verus! {

/// A description of how a construct is displayed, with choices left open.
pub enum Notation {
    /// Nothing.
    Empty,
    /// A fixed string in the given style.
    Literal(String, Style),
    /// The text of a text node.
    Text(Style),
    /// The i'th child, laid out by its own notation.
    Child(usize),
    /// The inner notation followed by a line break.
    Flush(Box<Notation>),
    /// The second notation placed where the first one ends.
    Concat(Box<Notation>, Box<Notation>),
    /// Only the single-line layouts of the inner notation.
    NoWrap(Box<Notation>),
    /// Either of two notations.
    Choice(Box<Notation>, Box<Notation>),
    /// The first notation if the node's text is empty, else the second.
    IfEmptyText(Box<Notation>, Box<Notation>),
    /// A notation repeated over all of a node's children.
    Rep(Box<Repeat>),
    /// Inside a `Rep`, the child being repeated over.
    Star,
}

/// The five parts of a repetition over `k` children: `empty` when there
/// are none, `lone` when there is one, and otherwise `first`, then
/// `middle` for each inner child, then `last`.
pub struct Repeat {
    pub empty: Notation,
    pub lone: Notation,
    pub first: Notation,
    pub middle: Notation,
    pub last: Notation,
}

/// `n` with every `Star` replaced by `Child(i)`.
pub open spec fn star_to_child(n: Notation, i: nat) -> Notation
    decreases n,
{
    match n {
        Notation::Star => Notation::Child(i as usize),
        Notation::Flush(a) => Notation::Flush(Box::new(star_to_child(*a, i))),
        Notation::Concat(a, b) => Notation::Concat(
            Box::new(star_to_child(*a, i)),
            Box::new(star_to_child(*b, i)),
        ),
        Notation::NoWrap(a) => Notation::NoWrap(Box::new(star_to_child(*a, i))),
        Notation::Choice(a, b) => Notation::Choice(
            Box::new(star_to_child(*a, i)),
            Box::new(star_to_child(*b, i)),
        ),
        Notation::IfEmptyText(a, b) => Notation::IfEmptyText(
            Box::new(star_to_child(*a, i)),
            Box::new(star_to_child(*b, i)),
        ),
        _ => n,
    }
}

/// `first` for child 0 followed by `middle` for children 1 .. j-1.
pub open spec fn repeat_prefix(first: Notation, middle: Notation, j: nat) -> Notation
    decreases j,
{
    if j <= 1 {
        star_to_child(first, 0)
    } else {
        Notation::Concat(
            Box::new(repeat_prefix(first, middle, (j - 1) as nat)),
            Box::new(star_to_child(middle, (j - 1) as nat)),
        )
    }
}

/// A repetition over `k` children written out as a chain of concatenations.
pub open spec fn repeat_over(
    empty: Notation,
    lone: Notation,
    first: Notation,
    middle: Notation,
    last: Notation,
    k: nat,
) -> Notation {
    if k == 0 {
        empty
    } else if k == 1 {
        star_to_child(lone, 0)
    } else {
        Notation::Concat(
            Box::new(repeat_prefix(first, middle, (k - 1) as nat)),
            Box::new(star_to_child(last, (k - 1) as nat)),
        )
    }
}

/// `n` for a node with `k` children and the given empty-text flag: each
/// `IfEmptyText` is resolved and each `Rep` written out.
pub open spec fn expanded(n: Notation, k: nat, empty_text: bool) -> Notation
    decreases n,
{
    match n {
        Notation::Flush(a) => Notation::Flush(Box::new(expanded(*a, k, empty_text))),
        Notation::Concat(a, b) => Notation::Concat(
            Box::new(expanded(*a, k, empty_text)),
            Box::new(expanded(*b, k, empty_text)),
        ),
        Notation::NoWrap(a) => Notation::NoWrap(Box::new(expanded(*a, k, empty_text))),
        Notation::Choice(a, b) => Notation::Choice(
            Box::new(expanded(*a, k, empty_text)),
            Box::new(expanded(*b, k, empty_text)),
        ),
        Notation::IfEmptyText(a, b) => if empty_text {
            expanded(*a, k, empty_text)
        } else {
            expanded(*b, k, empty_text)
        },
        Notation::Rep(r) => repeat_over(
            expanded(r.empty, k, empty_text),
            expanded(r.lone, k, empty_text),
            expanded(r.first, k, empty_text),
            expanded(r.middle, k, empty_text),
            expanded(r.last, k, empty_text),
            k,
        ),
        _ => n,
    }
}

pub fn empty() -> (r: Notation)
    ensures
        r == Notation::Empty,
{
    Notation::Empty
}

pub fn literal(s: &str, style: Style) -> (r: Notation)
    ensures
        r matches Notation::Literal(t, st) && t@ == s@ && st == style,
{
    Notation::Literal(s.to_string(), style)
}

pub fn text(style: Style) -> (r: Notation)
    ensures
        r == Notation::Text(style),
{
    Notation::Text(style)
}

pub fn child(i: usize) -> (r: Notation)
    ensures
        r == Notation::Child(i),
{
    Notation::Child(i)
}

pub fn flush(n: Notation) -> (r: Notation)
    ensures
        r == Notation::Flush(Box::new(n)),
{
    Notation::Flush(Box::new(n))
}

/// `b` placed where `a` ends.
pub fn horz(a: Notation, b: Notation) -> (r: Notation)
    ensures
        r == Notation::Concat(Box::new(a), Box::new(b)),
{
    Notation::Concat(Box::new(a), Box::new(b))
}

/// `a`, a line break, then `b`.
pub fn vert(a: Notation, b: Notation) -> (r: Notation)
    ensures
        r == Notation::Concat(Box::new(Notation::Flush(Box::new(a))), Box::new(b)),
{
    Notation::Concat(Box::new(Notation::Flush(Box::new(a))), Box::new(b))
}

pub fn no_wrap(n: Notation) -> (r: Notation)
    ensures
        r == Notation::NoWrap(Box::new(n)),
{
    Notation::NoWrap(Box::new(n))
}

pub fn choice(a: Notation, b: Notation) -> (r: Notation)
    ensures
        r == Notation::Choice(Box::new(a), Box::new(b)),
{
    Notation::Choice(Box::new(a), Box::new(b))
}

pub fn if_empty_text(a: Notation, b: Notation) -> (r: Notation)
    ensures
        r == Notation::IfEmptyText(Box::new(a), Box::new(b)),
{
    Notation::IfEmptyText(Box::new(a), Box::new(b))
}

pub fn repeat(r: Repeat) -> (n: Notation)
    ensures
        n == Notation::Rep(Box::new(r)),
{
    Notation::Rep(Box::new(r))
}

pub fn star() -> (r: Notation)
    ensures
        r == Notation::Star,
{
    Notation::Star
}

impl Notation {
    /// A copy of this notation.
    pub fn duplicate(&self) -> (r: Notation)
        ensures
            r == *self,
        decreases self,
    {
        match self {
            Notation::Empty => Notation::Empty,
            Notation::Literal(s, st) => Notation::Literal(s.clone(), *st),
            Notation::Text(st) => Notation::Text(*st),
            Notation::Child(i) => Notation::Child(*i),
            Notation::Flush(a) => Notation::Flush(Box::new(a.duplicate())),
            Notation::Concat(a, b) => Notation::Concat(Box::new(a.duplicate()), Box::new(b.duplicate())),
            Notation::NoWrap(a) => Notation::NoWrap(Box::new(a.duplicate())),
            Notation::Choice(a, b) => Notation::Choice(Box::new(a.duplicate()), Box::new(b.duplicate())),
            Notation::IfEmptyText(a, b) => Notation::IfEmptyText(
                Box::new(a.duplicate()),
                Box::new(b.duplicate()),
            ),
            Notation::Rep(r) => Notation::Rep(
                Box::new(
                    Repeat {
                        empty: r.empty.duplicate(),
                        lone: r.lone.duplicate(),
                        first: r.first.duplicate(),
                        middle: r.middle.duplicate(),
                        last: r.last.duplicate(),
                    },
                ),
            ),
            Notation::Star => Notation::Star,
        }
    }

    /// This notation with every `Star` replaced by `Child(i)`.
    pub fn star_to_child(&self, i: usize) -> (r: Notation)
        ensures
            r == star_to_child(*self, i as nat),
        decreases self,
    {
        match self {
            Notation::Star => Notation::Child(i),
            Notation::Flush(a) => Notation::Flush(Box::new(a.star_to_child(i))),
            Notation::Concat(a, b) => Notation::Concat(
                Box::new(a.star_to_child(i)),
                Box::new(b.star_to_child(i)),
            ),
            Notation::NoWrap(a) => Notation::NoWrap(Box::new(a.star_to_child(i))),
            Notation::Choice(a, b) => Notation::Choice(
                Box::new(a.star_to_child(i)),
                Box::new(b.star_to_child(i)),
            ),
            Notation::IfEmptyText(a, b) => Notation::IfEmptyText(
                Box::new(a.star_to_child(i)),
                Box::new(b.star_to_child(i)),
            ),
            _ => self.duplicate(),
        }
    }

    /// Resolves this notation for a node with `num_children` children and
    /// the given empty-text flag: each `IfEmptyText` becomes one of its two
    /// branches and each `Rep` a chain of concatenations over the children.
    pub fn expand(&self, num_children: usize, is_empty_text: bool) -> (r: Notation)
        ensures
            r == expanded(*self, num_children as nat, is_empty_text),
        decreases self,
    {
        match self {
            Notation::Flush(a) => Notation::Flush(Box::new(a.expand(num_children, is_empty_text))),
            Notation::Concat(a, b) => Notation::Concat(
                Box::new(a.expand(num_children, is_empty_text)),
                Box::new(b.expand(num_children, is_empty_text)),
            ),
            Notation::NoWrap(a) => Notation::NoWrap(Box::new(a.expand(num_children, is_empty_text))),
            Notation::Choice(a, b) => Notation::Choice(
                Box::new(a.expand(num_children, is_empty_text)),
                Box::new(b.expand(num_children, is_empty_text)),
            ),
            Notation::IfEmptyText(a, b) => if is_empty_text {
                a.expand(num_children, is_empty_text)
            } else {
                b.expand(num_children, is_empty_text)
            },
            Notation::Rep(r) => {
                let empty = r.empty.expand(num_children, is_empty_text);
                let lone = r.lone.expand(num_children, is_empty_text);
                let first = r.first.expand(num_children, is_empty_text);
                let middle = r.middle.expand(num_children, is_empty_text);
                let last = r.last.expand(num_children, is_empty_text);
                expand_repeat(&empty, &lone, &first, &middle, &last, num_children)
            },
            _ => self.duplicate(),
        }
    }
}

/// Writes out a repetition over `k` children.
fn expand_repeat(
    empty: &Notation,
    lone: &Notation,
    first: &Notation,
    middle: &Notation,
    last: &Notation,
    k: usize,
) -> (r: Notation)
    ensures
        r == repeat_over(*empty, *lone, *first, *middle, *last, k as nat),
{
    if k == 0 {
        empty.duplicate()
    } else if k == 1 {
        lone.star_to_child(0)
    } else {
        let mut acc = first.star_to_child(0);
        let mut j: usize = 1;
        while j < k - 1
            invariant
                1 <= j <= k - 1,
                acc == repeat_prefix(*first, *middle, j as nat),
            decreases k - j,
        {
            acc = Notation::Concat(Box::new(acc), Box::new(middle.star_to_child(j)));
            j = j + 1;
        }
        Notation::Concat(Box::new(acc), Box::new(last.star_to_child(k - 1)))
    }
}

} // verus!
