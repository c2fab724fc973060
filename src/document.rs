use vstd::prelude::*;
use crate::boundset::{BoundSet, antichain, fits_some, keys, lemma_selection_unique, selected};
use crate::geometry::{Bound, Col, Pos, bound_wf, dominates, fits_at, literal_bound};
use crate::layout::{
    Lay, LayoutRegion, Layout, child_keys, children_ok, lay_bounds, lay_entries, max_field, placed, positions_ok,
    resolved, shape_ok, text_bounds, weight,
};
use crate::notation::{Notation, expanded};
use crate::notationset::NotationSet;
use crate::pretty::{PlainText, joined, lemma_put_str_concat, lemma_put_str_fresh, put_str};

verus! {

/// A document node: an instance of a construct, with text if it is a text
/// node and with children otherwise.
pub struct Doc {
    pub construct: String,
    pub text: Option<String>,
    pub children: Vec<Doc>,
}

/// Why a document could not be printed.
#[derive(Clone, Copy, Debug, PartialEq, Eq, Structural)]
pub enum PrettyError {
    /// A node's construct has no notation.
    UnknownConstruct,
    /// A notation refers to a child or text that the node lacks, or keeps
    /// a form that expansion should have removed.
    BadNotation,
    /// A layout would reach past the largest column or line.
    TooLarge,
    /// No candidate layout is left to choose from.
    NoLayout,
}

impl Doc {
    pub fn new_text(construct: &str, text: &str) -> (r: Doc)
        ensures
            r.construct@ == construct@,
            r.text matches Some(t) && t@ == text@,
            r.children@.len() == 0,
    {
        Doc { construct: construct.to_string(), text: Some(text.to_string()), children: Vec::new() }
    }

    pub fn new_branch(construct: &str, children: Vec<Doc>) -> (r: Doc)
        ensures
            r.construct@ == construct@,
            r.text is None,
            r.children@ == children@,
    {
        Doc { construct: construct.to_string(), text: None, children }
    }
}

/// Whether `d` is a text node whose text is empty.
pub open spec fn empty_text(d: Doc) -> bool {
    d.text matches Some(t) && t@.len() == 0
}

/// The candidate bounds of `d`, computed bottom-up: `None` if a construct
/// has no notation, a text is too long, or a notation cannot be laid out
/// over the node's children.
pub open spec fn doc_bounds(d: Doc, ns: Map<Seq<char>, Notation>) -> Option<Seq<Bound>>
    decreases d, 2nat, 0nat,
{
    if !ns.contains_key(d.construct@) {
        None
    } else {
        match inputs_of(d, ns) {
            None => None,
            Some(cs) => {
                let e = expanded(ns[d.construct@], cs.len(), empty_text(d));
                if resolved(e, cs.len()) && weight(e, cs) <= Col::MAX {
                    Some(lay_bounds(cs, e))
                } else {
                    None
                }
            },
        }
    }
}

/// The candidate bounds that `d`'s notation is laid out over: one set per
/// child, or for a text node the single line of its text.
pub open spec fn inputs_of(d: Doc, ns: Map<Seq<char>, Notation>) -> Option<Seq<Seq<Bound>>>
    decreases d, 1nat, 0nat,
{
    match d.text {
        Some(t) => if t@.len() <= Col::MAX {
            Some(seq![seq![literal_bound(t@.len() as int)]])
        } else {
            None
        },
        None => children_bounds(d, ns, d.children@.len()),
    }
}

/// The candidate bounds of the first `k` children of `d`.
pub open spec fn children_bounds(d: Doc, ns: Map<Seq<char>, Notation>, k: nat) -> Option<Seq<Seq<Bound>>>
    decreases d, 0nat, k,
{
    if k == 0 || k > d.children@.len() {
        Some(Seq::empty())
    } else {
        match children_bounds(d, ns, (k - 1) as nat) {
            None => None,
            Some(prev) => match doc_bounds(d.children@[k - 1], ns) {
                None => None,
                Some(b) => Some(prev.push(b)),
            },
        }
    }
}

proof fn lemma_children_none(d: Doc, ns: Map<Seq<char>, Notation>, k: nat, m: nat)
    requires
        0 < k <= m <= d.children@.len(),
        children_bounds(d, ns, k) is None,
    ensures
        children_bounds(d, ns, m) is None,
    decreases m - k,
{
    if m > k {
        lemma_children_none(d, ns, k, (m - 1) as nat);
    }
}

/// The candidate layouts of `d`, each with its bound: `None` exactly when
/// `doc_bounds` is `None`.
pub open spec fn doc_layouts(d: Doc, ns: Map<Seq<char>, Notation>) -> Option<Seq<(Bound, LayoutRegion)>> {
    if !ns.contains_key(d.construct@) {
        None
    } else {
        match inputs_of(d, ns) {
            None => None,
            Some(cs) => {
                let e = expanded(ns[d.construct@], cs.len(), empty_text(d));
                if resolved(e, cs.len()) && weight(e, cs) <= Col::MAX {
                    Some(lay_entries::<LayoutRegion>(cs, e))
                } else {
                    None
                }
            },
        }
    }
}

/// Whether `n` holds no unexpanded form and refers only to `k` children.
pub fn is_resolved(n: &Notation, k: usize) -> (r: bool)
    ensures
        r == resolved(*n, k as nat),
    decreases n,
{
    match n {
        Notation::Text(_) => k > 0,
        Notation::Child(i) => *i < k,
        Notation::Flush(a) => is_resolved(a, k),
        Notation::Concat(a, b) => is_resolved(a, k) && is_resolved(b, k),
        Notation::NoWrap(a) => is_resolved(a, k),
        Notation::Choice(a, b) => is_resolved(a, k) && is_resolved(b, k),
        Notation::IfEmptyText(_, _) => false,
        Notation::Rep(_) => false,
        Notation::Star => false,
        _ => true,
    }
}

/// The largest field of any bound of `s`.
fn max_field_of(s: &BoundSet<()>) -> (r: u64)
    ensures
        r == max_field(s.bounds()),
{
    let ghost ks = s.bounds();
    let n = s.len();
    let mut m: u64 = 0;
    let mut k: usize = 0;
    while k < n
        invariant
            n == ks.len(),
            ks == s.bounds(),
            k <= n,
            m == max_field(ks.subrange(0, k as int)),
            m <= Col::MAX,
        decreases n - k,
    {
        let b = s.bound(k);
        proof {
            let sub = ks.subrange(0, k + 1);
            assert(sub.drop_last() =~= ks.subrange(0, k as int));
            assert(sub.last() == b);
        }
        if (b.width as u64) > m {
            m = b.width as u64;
        }
        if (b.indent as u64) > m {
            m = b.indent as u64;
        }
        if (b.height as u64) > m {
            m = b.height as u64;
        }
        k = k + 1;
    }
    assert(ks.subrange(0, n as int) =~= ks);
    m
}

/// The weight of `n` over the given children, if it fits in a column.
fn weight_within(n: &Notation, cs: &Vec<&BoundSet<()>>) -> (r: Option<u64>)
    requires
        resolved(*n, cs@.len()),
    ensures
        match r {
            Some(w) => w == weight(*n, child_keys(cs@)) && w <= Col::MAX,
            None => weight(*n, child_keys(cs@)) > Col::MAX,
        },
    decreases n,
{
    let ghost ck = child_keys(cs@);
    let w: u64 = match n {
        Notation::Empty => 0,
        Notation::Literal(s, _) => s.as_str().unicode_len() as u64,
        Notation::Text(_) => {
            assert(cs@[0].bounds() == ck[0]);
            max_field_of(cs[0])
        },
        Notation::Child(i) => {
            assert(cs@[*i as int].bounds() == ck[*i as int]);
            max_field_of(cs[*i])
        },
        Notation::Flush(a) => match weight_within(a, cs) {
            Some(x) => x + 1,
            None => return None,
        },
        Notation::Concat(a, b) => match (weight_within(a, cs), weight_within(b, cs)) {
            (Some(x), Some(y)) => x + y,
            _ => return None,
        },
        Notation::NoWrap(a) => match weight_within(a, cs) {
            Some(x) => x,
            None => return None,
        },
        Notation::Choice(a, b) => match (weight_within(a, cs), weight_within(b, cs)) {
            (Some(x), Some(y)) => if x >= y { x } else { y },
            (Some(x), None) => return None,
            _ => return None,
        },
        _ => 0,
    };
    if w <= Col::MAX as u64 {
        Some(w)
    } else {
        None
    }
}

/// The candidate bounds of each child of `doc`; for a text node, the
/// bounds of its text.
fn child_bound_sets(doc: &Doc, notations: &NotationSet) -> (r: Result<Vec<BoundSet<()>>, PrettyError>)
    requires
        notations.wf(),
    ensures
        r matches Ok(v) ==> forall|i: int, k: int| 0 <= i < v@.len() && 0 <= k < v@[i].bounds().len()
            ==> bound_wf(#[trigger] v@[i].bounds()[k]),
        match r {
            Ok(v) => inputs_of(*doc, notations.notations()) == Some(v@.map_values(|s: BoundSet<()>| s.bounds())),
            Err(_) => inputs_of(*doc, notations.notations()) is None,
        },
    decreases doc, 0nat,
{
    match &doc.text {
        Some(t) => {
            if t.as_str().unicode_len() > Col::MAX as usize {
                return Err(PrettyError::TooLarge);
            }
            let mut v: Vec<BoundSet<()>> = Vec::new();
            v.push(text_bounds(t.as_str()));
            assert(v@.map_values(|s: BoundSet<()>| s.bounds()) =~= seq![seq![literal_bound(t@.len() as int)]]);
            Ok(v)
        },
        None => {
            let mut v: Vec<BoundSet<()>> = Vec::new();
            let n = doc.children.len();
            let mut i: usize = 0;
            assert(v@.map_values(|s: BoundSet<()>| s.bounds()) =~= Seq::<Seq<Bound>>::empty());
            while i < n
                invariant
                    n == doc.children@.len(),
                    i <= n,
                    v@.len() == i,
                    notations.wf(),
                    forall|j: int, k: int| 0 <= j < v@.len() && 0 <= k < v@[j].bounds().len()
                        ==> bound_wf(#[trigger] v@[j].bounds()[k]),
                    doc.text is None,
                    children_bounds(*doc, notations.notations(), i as nat) == Some(
                        v@.map_values(|s: BoundSet<()>| s.bounds()),
                    ),
                decreases n - i,
            {
                assert(decreases_to!(doc => doc.children@[i as int]));
                match bounds_of(&doc.children[i], notations) {
                    Ok(s) => {
                        let ghost prev = v@;
                        v.push(s);
                        assert(v@.map_values(|s: BoundSet<()>| s.bounds()) =~= prev.map_values(
                            |s: BoundSet<()>| s.bounds(),
                        ).push(s.bounds()));
                    },
                    Err(e) => {
                        proof {
                            assert(children_bounds(*doc, notations.notations(), (i + 1) as nat) is None);
                            lemma_children_none(*doc, notations.notations(), (i + 1) as nat, n as nat);
                        }
                        return Err(e);
                    },
                }
                i = i + 1;
            }
            Ok(v)
        },
    }
}

/// References to each set of `sets`, in order.
fn refs_of(sets: &Vec<BoundSet<()>>) -> (r: Vec<&BoundSet<()>>)
    ensures
        r@.len() == sets@.len(),
        forall|i: int| 0 <= i < r@.len() ==> *r@[i] == sets@[i],
        child_keys(r@) == sets@.map_values(|s: BoundSet<()>| s.bounds()),
{
    let mut r: Vec<&BoundSet<()>> = Vec::new();
    let mut i: usize = 0;
    while i < sets.len()
        invariant
            i <= sets@.len(),
            r@.len() == i,
            forall|j: int| 0 <= j < i ==> *r@[j] == sets@[j],
        decreases sets@.len() - i,
    {
        r.push(&sets[i]);
        i = i + 1;
    }
    assert(child_keys(r@) =~= sets@.map_values(|s: BoundSet<()>| s.bounds()));
    r
}

/// Whether `doc`'s text is empty; false for a node without text.
fn has_empty_text(doc: &Doc) -> (r: bool)
    ensures
        r == (doc.text matches Some(t) && t@.len() == 0),
{
    match &doc.text {
        Some(t) => t.as_str().unicode_len() == 0,
        None => false,
    }
}

/// The candidate bounds of `doc`, computed bottom-up from its children's.
pub fn bounds_of(doc: &Doc, notations: &NotationSet) -> (r: Result<BoundSet<()>, PrettyError>)
    requires
        notations.wf(),
    ensures
        r matches Ok(s) ==> s.wf() && forall|k: int| 0 <= k < s.bounds().len() ==> bound_wf(#[trigger] s.bounds()[k]),
        !notations.notations().contains_key(doc.construct@) ==> r == Err::<BoundSet<()>, PrettyError>(
            PrettyError::UnknownConstruct,
        ),
        match r {
            Ok(s) => doc_bounds(*doc, notations.notations()) == Some(s.bounds()),
            Err(_) => doc_bounds(*doc, notations.notations()) is None,
        },
    decreases doc, 1nat,
{
    let notation = match notations.lookup(doc.construct.as_str()) {
        Some(n) => n,
        None => return Err(PrettyError::UnknownConstruct),
    };
    let sets = match child_bound_sets(doc, notations) {
        Ok(v) => v,
        Err(e) => return Err(e),
    };
    let refs = refs_of(&sets);
    let empty_text = has_empty_text(doc);
    assert(empty_text == self::empty_text(*doc));
    let e = notation.expand(refs.len(), empty_text);
    if !is_resolved(&e, refs.len()) {
        return Err(PrettyError::BadNotation);
    }
    if weight_within(&e, &refs).is_none() {
        return Err(PrettyError::TooLarge);
    }
    proof {
        assert(children_ok(child_keys(refs@))) by {
            assert forall|i: int, k: int| 0 <= i < child_keys(refs@).len() && 0 <= k < child_keys(refs@)[i].len()
                implies bound_wf(#[trigger] child_keys(refs@)[i][k]) by {
                assert(child_keys(refs@)[i] == sets@[i].bounds());
            }
        }
    }
    let s = notation.bound(refs, empty_text);
    proof {
        assert forall|k: int| 0 <= k < s.bounds().len() implies bound_wf(#[trigger] s.bounds()[k]) by {
            assert(s.entries()[k].0 == s.bounds()[k]);
        }
    }
    Ok(s)
}

/// The candidate layouts of `doc`, given its children's candidate bounds.
pub fn layouts_of(doc: &Doc, notations: &NotationSet) -> (r: Result<BoundSet<LayoutRegion>, PrettyError>)
    requires
        notations.wf(),
    ensures
        r matches Ok(s) ==> s.wf() && forall|k: int| 0 <= k < s.entries().len() ==> (#[trigger] s.entries()[k]).1.fits(
            s.entries()[k].0,
        ),
        !notations.notations().contains_key(doc.construct@) ==> r == Err::<BoundSet<LayoutRegion>, PrettyError>(
            PrettyError::UnknownConstruct,
        ),
        match r {
            Ok(s) => doc_bounds(*doc, notations.notations()) == Some(s.bounds()) && doc_layouts(
                *doc,
                notations.notations(),
            ) == Some(s.entries()),
            Err(_) => doc_bounds(*doc, notations.notations()) is None && doc_layouts(*doc, notations.notations()) is None,
        },
{
    let notation = match notations.lookup(doc.construct.as_str()) {
        Some(n) => n,
        None => return Err(PrettyError::UnknownConstruct),
    };
    let sets = match child_bound_sets(doc, notations) {
        Ok(v) => v,
        Err(e) => return Err(e),
    };
    let refs = refs_of(&sets);
    let empty_text = has_empty_text(doc);
    assert(empty_text == self::empty_text(*doc));
    let e = notation.expand(refs.len(), empty_text);
    if !is_resolved(&e, refs.len()) {
        return Err(PrettyError::BadNotation);
    }
    if weight_within(&e, &refs).is_none() {
        return Err(PrettyError::TooLarge);
    }
    proof {
        assert(children_ok(child_keys(refs@))) by {
            assert forall|i: int, k: int| 0 <= i < child_keys(refs@).len() && 0 <= k < child_keys(refs@)[i].len()
                implies bound_wf(#[trigger] child_keys(refs@)[i][k]) by {
                assert(child_keys(refs@)[i] == sets@[i].bounds());
            }
        }
    }
    Ok(notation.lay_out(refs, empty_text))
}

/// The index of the entry of `s` whose bound is `b`, if there is one.
fn find_bound<T>(s: &BoundSet<T>, b: Bound) -> (r: Option<usize>)
    ensures
        match r {
            Some(k) => k < s.bounds().len() && s.bounds()[k as int] == b,
            None => !s.bounds().contains(b),
        },
{
    let n = s.len();
    let mut k: usize = 0;
    while k < n
        invariant
            n == s.bounds().len(),
            k <= n,
            forall|j: int| 0 <= j < k ==> s.bounds()[j] != b,
        decreases n - k,
    {
        if s.bound(k) == b {
            return Some(k);
        }
        k = k + 1;
    }
    None
}

/// The index of the entry of `e` whose bound is `b`; in a set without
/// dominated entries there is at most one.
pub open spec fn entry_of(e: Seq<(Bound, LayoutRegion)>, b: Bound) -> int {
    choose|k: int| 0 <= k < e.len() && e[k].0 == b
}

proof fn lemma_entry_unique(e: Seq<(Bound, LayoutRegion)>, k: int)
    requires
        antichain(keys(e)),
        0 <= k < e.len(),
    ensures
        entry_of(e, e[k].0) == k,
{
    let b = e[k].0;
    assert(keys(e)[k] == b);
    let j = entry_of(e, b);
    assert(keys(e)[j] == b);
    if j != k {
        assert(!dominates(keys(e)[j], keys(e)[k]));
    }
}

/// The screen `rows` after the layout `lr` of `d`, whose origin is at
/// `line0` and `col0`, is drawn: each literal and text at its position,
/// and each child in its own layout of the bound that `lr` gives it.
/// `None` when a position leaves the `usize` range, a text or child is
/// missing, or a child has no layout of that bound.
pub open spec fn paint_spec(
    d: Doc,
    lr: LayoutRegion,
    line0: nat,
    col0: nat,
    rows: Seq<Seq<char>>,
    ns: Map<Seq<char>, Notation>,
) -> Option<Seq<Seq<char>>>
    decreases d, lr,
{
    let line = line0 + lr.region.pos.line;
    let col = col0 + lr.region.pos.col;
    if line > usize::MAX || col > usize::MAX {
        None
    } else {
        match lr.layout {
            Layout::Empty => Some(rows),
            Layout::Literal(s, _) => if col + s@.len() > usize::MAX {
                None
            } else {
                Some(put_str(rows, line as nat, col as nat, s@))
            },
            Layout::Text(_) => match d.text {
                Some(t) => if col + t@.len() > usize::MAX {
                    None
                } else {
                    Some(put_str(rows, line as nat, col as nat, t@))
                },
                None => None,
            },
            Layout::Flush(a) => paint_spec(d, *a, line0, col0, rows, ns),
            Layout::Concat(a, b) => match paint_spec(d, *a, line0, col0, rows, ns) {
                None => None,
                Some(mid) => paint_spec(d, *b, line0, col0, mid, ns),
            },
            Layout::Child(i) => if i >= d.children@.len() {
                None
            } else {
                let c = d.children@[i as int];
                match doc_layouts(c, ns) {
                    None => None,
                    Some(e) => if keys(e).contains(lr.region.bound) {
                        paint_spec(c, e[entry_of(e, lr.region.bound)].1, line as nat, col as nat, rows, ns)
                    } else {
                        None
                    },
                }
            },
        }
    }
}

/// Draws the layout `lr` of `doc`, whose origin is at `line0` and `col0`,
/// on the screen; each child is drawn in its layout of the bound that
/// `lr` gives it.
fn paint(doc: &Doc, lr: &LayoutRegion, line0: usize, col0: usize, notations: &NotationSet, screen: &mut PlainText)
    -> (r: Result<(), PrettyError>)
    requires
        notations.wf(),
    ensures
        final(screen).spec_width() == old(screen).spec_width(),
        (r is Ok) == (paint_spec(*doc, *lr, line0 as nat, col0 as nat, old(screen).rows(), notations.notations()) is Some),
        r is Ok ==> final(screen).rows() == paint_spec(
            *doc,
            *lr,
            line0 as nat,
            col0 as nat,
            old(screen).rows(),
            notations.notations(),
        )->0,
    decreases doc, lr,
{
    if line0 > usize::MAX - lr.region.pos.line as usize || col0 > usize::MAX - lr.region.pos.col as usize {
        return Err(PrettyError::TooLarge);
    }
    let line = line0 + lr.region.pos.line as usize;
    let col = col0 + lr.region.pos.col as usize;
    match &lr.layout {
        Layout::Empty => Ok(()),
        Layout::Literal(s, _) => {
            if s.as_str().unicode_len() > usize::MAX - col {
                return Err(PrettyError::TooLarge);
            }
            screen.write_str(line, col, s.as_str());
            Ok(())
        },
        Layout::Text(_) => match &doc.text {
            Some(t) => {
                if t.as_str().unicode_len() > usize::MAX - col {
                    return Err(PrettyError::TooLarge);
                }
                screen.write_str(line, col, t.as_str());
                Ok(())
            },
            None => Err(PrettyError::BadNotation),
        },
        Layout::Flush(a) => paint(doc, a, line0, col0, notations, screen),
        Layout::Concat(a, b) => {
            match paint(doc, a, line0, col0, notations, screen) {
                Ok(()) => {},
                Err(e) => return Err(e),
            }
            paint(doc, b, line0, col0, notations, screen)
        },
        Layout::Child(i) => {
            if *i >= doc.children.len() {
                return Err(PrettyError::BadNotation);
            }
            let child = &doc.children[*i];
            assert(decreases_to!(doc => doc.children@[*i as int]));
            let layouts = match layouts_of(child, notations) {
                Ok(s) => s,
                Err(e) => return Err(e),
            };
            match find_bound(&layouts, lr.region.bound) {
                Some(k) => {
                    proof {
                        assert(layouts.entries()[k as int].0 == layouts.bounds()[k as int]);
                        lemma_entry_unique(layouts.entries(), k as int);
                    }
                    paint(child, layouts.value(k), line, col, notations, screen)
                },
                None => Err(PrettyError::NoLayout),
            }
        },
    }
}

/// The width that selection uses for a screen `w` columns wide.
pub open spec fn usable_width(w: nat) -> int {
    if w > Col::MAX { Col::MAX as int } else { w as int }
}

/// The index of the candidate chosen for a screen `w` columns wide; in a
/// set without dominated entries there is exactly one.
pub open spec fn chosen(s: Seq<Bound>, w: int) -> int {
    choose|i: int| selected(s, w, i)
}

/// The screen `rows` after the layout of `d` chosen for a screen `w`
/// columns wide is drawn at the top left; `None` when `d` has no candidate
/// layout or the layout cannot be drawn.
pub open spec fn rendered(d: Doc, ns: Map<Seq<char>, Notation>, w: nat, rows: Seq<Seq<char>>) -> Option<Seq<Seq<char>>> {
    match doc_layouts(d, ns) {
        None => None,
        Some(e) => if e.len() == 0 {
            None
        } else {
            paint_spec(d, e[chosen(keys(e), usable_width(w))].1, 0, 0, rows, ns)
        },
    }
}

/// Prints, on `screen`, `doc` in the candidate layout chosen for the
/// screen's width: the one with the fewest lines among those that fit, or
/// the narrowest if none fits. Says whether the chosen layout fits.
pub fn print_layouts(
    doc: &Doc,
    layouts: &BoundSet<LayoutRegion>,
    notations: &NotationSet,
    screen: &mut PlainText,
) -> (r: Result<bool, PrettyError>)
    requires
        notations.wf(),
        layouts.wf(),
        forall|k: int| 0 <= k < layouts.entries().len() ==> (#[trigger] layouts.entries()[k]).1.fits(layouts.entries()[k].0),
    ensures
        final(screen).spec_width() == old(screen).spec_width(),
        layouts.entries().len() == 0 ==> r == Err::<bool, PrettyError>(PrettyError::NoLayout),
        r matches Ok(fit) ==> fit == fits_some(layouts.bounds(), usable_width(old(screen).spec_width())),
        layouts.entries().len() > 0 ==> {
            let lr = layouts.entries()[chosen(layouts.bounds(), usable_width(old(screen).spec_width()))].1;
            let p = paint_spec(*doc, lr, 0, 0, old(screen).rows(), notations.notations());
            &&& (r is Ok) == (p is Some)
            &&& r is Ok ==> final(screen).rows() == p->0
        },
        ({
            let e = layouts.entries();
            e.len() == 1 && e[0].0.height == 0 && literal_only(e[0].1) && literals(e[0].1).len() > 0
                && old(screen).rows() == Seq::<Seq<char>>::empty()
        }) ==> r is Ok && final(screen).rows() == seq![literals(layouts.entries()[0].1)],
{
    if layouts.len() == 0 {
        return Err(PrettyError::NoLayout);
    }
    let w = screen.width();
    let width: Col = if w > Col::MAX as usize { Col::MAX } else { w as Col };
    let k = layouts.pick(width);
    let fit = layouts.fits_within(width);
    let ghost before = screen.rows();
    proof {
        let wu = usable_width(old(screen).spec_width());
        assert(width as int == wu);
        assert(selected(layouts.bounds(), wu, k as int));
        lemma_selection_unique(layouts.bounds(), wu, k as int, chosen(layouts.bounds(), wu));
    }
    let painted_ok = paint(doc, layouts.value(k), 0, 0, notations, screen);
    let r = match painted_ok {
        Ok(()) => Ok(fit),
        Err(e) => Err(e),
    };
    proof {
        let e = layouts.entries();
        assert(e[k as int].1.fits(e[k as int].0));
        if e.len() == 1 && e[0].0.height == 0 && literal_only(e[0].1) && literals(e[0].1).len() > 0
            && before == Seq::<Seq<char>>::empty() {
            assert(k == 0);
            lemma_round_trip(*doc, e[0].1, notations.notations());
        }
    }
    r
}

/// Prints `doc` on `screen` in the candidate layout chosen for the
/// screen's width, and says whether that layout fits; see `print_layouts`.
pub fn pretty_print(doc: &Doc, notations: &NotationSet, screen: &mut PlainText) -> (r: Result<bool, PrettyError>)
    requires
        notations.wf(),
    ensures
        final(screen).spec_width() == old(screen).spec_width(),
        (r is Ok) == (rendered(*doc, notations.notations(), old(screen).spec_width(), old(screen).rows()) is Some),
        r matches Ok(fit) ==> final(screen).rows() == rendered(
            *doc,
            notations.notations(),
            old(screen).spec_width(),
            old(screen).rows(),
        )->0 && fit == fits_some(doc_bounds(*doc, notations.notations())->0, usable_width(old(screen).spec_width())),
        !notations.notations().contains_key(doc.construct@) ==> r == Err::<bool, PrettyError>(
            PrettyError::UnknownConstruct,
        ) && final(screen).rows() == old(screen).rows(),
        doc_layouts(*doc, notations.notations()) == Some(Seq::<(Bound, LayoutRegion)>::empty()) ==> r == Err::<
            bool,
            PrettyError,
        >(PrettyError::NoLayout),
{
    let layouts = match layouts_of(doc, notations) {
        Ok(s) => s,
        Err(e) => return Err(e),
    };
    print_layouts(doc, &layouts, notations, screen)
}

/// The layout holds only literals: no text and no child.
pub open spec fn literal_only(lr: LayoutRegion) -> bool
    decreases lr,
{
    match lr.layout {
        Layout::Text(_) => false,
        Layout::Child(_) => false,
        Layout::Flush(a) => literal_only(*a),
        Layout::Concat(a, b) => literal_only(*a) && literal_only(*b),
        _ => true,
    }
}

/// The literals of the layout, in order.
pub open spec fn literals(lr: LayoutRegion) -> Seq<char>
    decreases lr,
{
    match lr.layout {
        Layout::Literal(s, _) => s@,
        Layout::Flush(a) => literals(*a),
        Layout::Concat(a, b) => literals(*a) + literals(*b),
        _ => Seq::empty(),
    }
}

proof fn lemma_single_line(d: Doc, lr: LayoutRegion, rows: Seq<Seq<char>>, ns: Map<Seq<char>, Notation>)
    requires
        shape_ok(lr),
        positions_ok(lr),
        fits_at(lr.region.pos, lr.region.bound),
        lr.region.bound.height == 0,
        literal_only(lr),
    ensures
        literals(lr).len() == lr.region.bound.width,
        literals(lr).len() == lr.region.bound.indent,
        paint_spec(d, lr, 0, 0, rows, ns) == Some(
            put_str(rows, lr.region.pos.line as nat, lr.region.pos.col as nat, literals(lr)),
        ),
    decreases lr,
{
    match lr.layout {
        Layout::Concat(a, b) => {
            lemma_single_line(d, *a, rows, ns);
            let mid = paint_spec(d, *a, 0, 0, rows, ns)->0;
            lemma_single_line(d, *b, mid, ns);
            lemma_put_str_concat(
                rows,
                lr.region.pos.line as nat,
                lr.region.pos.col as nat,
                literals(*a),
                literals(*b),
            );
        },
        _ => {},
    }
}

/// A single-line layout of literals, drawn at the top left of an empty
/// screen, shows exactly its literals in order on one row.
pub proof fn lemma_round_trip(d: Doc, lr: LayoutRegion, ns: Map<Seq<char>, Notation>)
    requires
        placed(lr),
        lr.region.pos == (Pos { line: 0, col: 0 }),
        lr.region.bound.height == 0,
        literal_only(lr),
        literals(lr).len() > 0,
    ensures
        paint_spec(d, lr, 0, 0, Seq::empty(), ns) == Some(seq![literals(lr)]),
        joined(seq![literals(lr)]) == literals(lr),
{
    lemma_single_line(d, lr, Seq::empty(), ns);
    lemma_put_str_fresh(literals(lr));
}

} // verus!
