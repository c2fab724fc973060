use vstd::prelude::*;
use crate::geometry::{Bound, Col, dominates};

verus! {

/// The bounds of a sequence of entries, in order.
pub open spec fn keys<T>(s: Seq<(Bound, T)>) -> Seq<Bound> {
    s.map_values(|e: (Bound, T)| e.0)
}

/// No bound of `s` dominates another one.
pub open spec fn antichain(s: Seq<Bound>) -> bool {
    forall|i: int, j: int|
        0 <= i < s.len() && 0 <= j < s.len() && i != j ==> !dominates(#[trigger] s[i], #[trigger] s[j])
}

/// Some bound of `s` dominates `b`.
pub open spec fn covered(s: Seq<Bound>, b: Bound) -> bool {
    exists|i: int| 0 <= i < s.len() && dominates(#[trigger] s[i], b)
}

/// `s` without the bounds that `b` dominates, in the same order.
pub open spec fn prune(s: Seq<Bound>, b: Bound) -> Seq<Bound>
    decreases s.len(),
{
    if s.len() == 0 {
        s
    } else {
        let rest = prune(s.drop_last(), b);
        if dominates(b, s.last()) {
            rest
        } else {
            rest.push(s.last())
        }
    }
}

/// Pareto insertion: `b` is dropped if a bound of `s` dominates it;
/// otherwise the bounds it dominates go and `b` comes last.
pub open spec fn bound_insert(s: Seq<Bound>, b: Bound) -> Seq<Bound> {
    if covered(s, b) {
        s
    } else {
        prune(s, b).push(b)
    }
}

/// The entries of `s` whose bound `b` does not dominate, in order.
pub open spec fn entry_prune<T>(s: Seq<(Bound, T)>, b: Bound) -> Seq<(Bound, T)>
    decreases s.len(),
{
    if s.len() == 0 {
        s
    } else {
        let rest = entry_prune(s.drop_last(), b);
        if dominates(b, s.last().0) {
            rest
        } else {
            rest.push(s.last())
        }
    }
}

/// Pareto insertion of the entry `(b, v)` into `s`.
pub open spec fn entry_insert<T>(s: Seq<(Bound, T)>, b: Bound, v: T) -> Seq<(Bound, T)> {
    if covered(keys(s), b) {
        s
    } else {
        entry_prune(s, b).push((b, v))
    }
}

/// The entries of `items` inserted one after another into `s`.
pub open spec fn entry_insert_all<T>(s: Seq<(Bound, T)>, items: Seq<(Bound, T)>) -> Seq<(Bound, T)>
    decreases items.len(),
{
    if items.len() == 0 {
        s
    } else {
        entry_insert(entry_insert_all(s, items.drop_last()), items.last().0, items.last().1)
    }
}

/// The bounds of `items` inserted one after another into `s`.
pub open spec fn insert_all(s: Seq<Bound>, items: Seq<Bound>) -> Seq<Bound>
    decreases items.len(),
{
    if items.len() == 0 {
        s
    } else {
        bound_insert(insert_all(s, items.drop_last()), items.last())
    }
}

/// `a` is to be preferred to `c`: fewer lines, or as many and narrower.
pub open spec fn preferred(a: Bound, c: Bound) -> bool {
    a.height < c.height || (a.height == c.height && a.width <= c.width)
}

/// Some bound of `s` is at most `width` wide.
pub open spec fn fits_some(s: Seq<Bound>, width: int) -> bool {
    exists|j: int| 0 <= j < s.len() && (#[trigger] s[j]).width <= width
}

/// Index `i` of `s` is the choice for the given width: among the bounds
/// that fit, the one with the fewest lines and then the narrowest; if
/// none fits, the narrowest of all.
pub open spec fn selected(s: Seq<Bound>, width: int, i: int) -> bool {
    &&& 0 <= i < s.len()
    &&& if fits_some(s, width) {
        &&& s[i].width <= width
        &&& forall|j: int| 0 <= j < s.len() && (#[trigger] s[j]).width <= width ==> preferred(s[i], s[j])
    } else {
        forall|j: int| 0 <= j < s.len() ==> s[i].width <= (#[trigger] s[j]).width
    }
}

proof fn lemma_prune(s: Seq<Bound>, b: Bound)
    ensures
        forall|k: int| 0 <= k < prune(s, b).len() ==> s.contains(#[trigger] prune(s, b)[k]) && !dominates(b, prune(s, b)[k]),
        forall|k: int| 0 <= k < s.len() && !dominates(b, #[trigger] s[k]) ==> prune(s, b).contains(s[k]),
        antichain(s) ==> antichain(prune(s, b)),
        prune(s, b).len() <= s.len(),
    decreases s.len(),
{
    if s.len() > 0 {
        let d = s.drop_last();
        lemma_prune(d, b);
        let r = prune(d, b);
        assert forall|k: int| 0 <= k < prune(s, b).len() implies s.contains(#[trigger] prune(s, b)[k]) && !dominates(b, prune(s, b)[k]) by {
            if k < r.len() {
                let x = r[k];
                assert(d.contains(x));
                let m = choose|m: int| 0 <= m < d.len() && d[m] == x;
                assert(s[m] == x);
            } else {
                assert(s[s.len() - 1] == s.last());
            }
        }
        assert forall|k: int| 0 <= k < s.len() && !dominates(b, #[trigger] s[k]) implies prune(s, b).contains(s[k]) by {
            if k < d.len() {
                assert(d[k] == s[k]);
                assert(r.contains(s[k]));
                let m = choose|m: int| 0 <= m < r.len() && r[m] == s[k];
                assert(prune(s, b)[m] == s[k]);
            } else {
                assert(prune(s, b)[r.len() as int] == s[k]);
            }
        }
        if antichain(s) {
            assert(antichain(d));
            let p = prune(s, b);
            if !dominates(b, s.last()) {
                assert forall|i: int, j: int| 0 <= i < p.len() && 0 <= j < p.len() && i != j implies !dominates(#[trigger] p[i], #[trigger] p[j]) by {
                    if i < r.len() && j < r.len() {
                        assert(p[i] == r[i] && p[j] == r[j]);
                    } else if i < r.len() {
                        assert(d.contains(r[i]));
                        let m = choose|m: int| 0 <= m < d.len() && d[m] == r[i];
                        assert(s[m] == p[i] && s[s.len() - 1] == p[j]);
                    } else {
                        assert(d.contains(r[j]));
                        let m = choose|m: int| 0 <= m < d.len() && d[m] == r[j];
                        assert(s[m] == p[j] && s[s.len() - 1] == p[i]);
                    }
                }
            }
        }
    }
}

/// Pareto insertion keeps a set of bounds free of dominated elements.
pub proof fn lemma_bound_insert_antichain(s: Seq<Bound>, b: Bound)
    requires
        antichain(s),
    ensures
        antichain(bound_insert(s, b)),
{
    lemma_prune(s, b);
    if !covered(s, b) {
        let p = prune(s, b);
        let q = p.push(b);
        assert forall|i: int, j: int| 0 <= i < q.len() && 0 <= j < q.len() && i != j implies !dominates(#[trigger] q[i], #[trigger] q[j]) by {
            if i < p.len() && j < p.len() {
                assert(q[i] == p[i] && q[j] == p[j]);
            } else if i < p.len() {
                assert(s.contains(p[i]));
                let m = choose|m: int| 0 <= m < s.len() && s[m] == p[i];
                assert(!dominates(s[m], b));
            } else {
                assert(q[j] == p[j]);
            }
        }
    }
}

/// The choice for a wider screen never has more lines than the choice for
/// a narrower one.
pub proof fn lemma_selection_monotone(s: Seq<Bound>, w1: int, w2: int, i: int, j: int)
    requires
        antichain(s),
        w1 <= w2,
        selected(s, w1, i),
        selected(s, w2, j),
    ensures
        s[j].height <= s[i].height,
{
    if fits_some(s, w1) {
        assert(s[i].width <= w2);
        assert(fits_some(s, w2));
    } else if fits_some(s, w2) {
        let k = choose|k: int| 0 <= k < s.len() && (#[trigger] s[k]).width <= w2;
        assert(s[i].width <= s[k].width);
    } else {
        assert(s[i].width <= s[j].width && s[j].width <= s[i].width);
        if i != j {
            assert(!dominates(s[i], s[j]));
            assert(!dominates(s[j], s[i]));
        }
    }
}

/// In a set without dominated bounds, the choice for a width is unique.
pub proof fn lemma_selection_unique(s: Seq<Bound>, w: int, i: int, j: int)
    requires
        antichain(s),
        selected(s, w, i),
    ensures
        selected(s, w, j) ==> i == j,
        j == (choose|k: int| selected(s, w, k)) ==> selected(s, w, j),
{
    if selected(s, w, j) && i != j {
        if fits_some(s, w) {
            assert(preferred(s[i], s[j]) && preferred(s[j], s[i]));
            assert(dominates(s[i], s[j]));
        } else {
            assert(s[i].width == s[j].width);
            if s[i].height <= s[j].height {
                assert(dominates(s[i], s[j]));
            } else {
                assert(dominates(s[j], s[i]));
            }
        }
    }
}

/// A set of candidate bounds, each with a companion value, of which none
/// dominates another.
pub struct BoundSet<T> {
    entries: Vec<(Bound, T)>,
}

impl<T> BoundSet<T> {
    /// The entries in order of insertion.
    pub closed spec fn entries(&self) -> Seq<(Bound, T)> {
        self.entries@
    }

    pub open spec fn bounds(&self) -> Seq<Bound> {
        keys(self.entries())
    }

    pub open spec fn wf(&self) -> bool {
        antichain(self.bounds())
    }

    pub fn new() -> (r: BoundSet<T>)
        ensures
            r.entries() == Seq::<(Bound, T)>::empty(),
            r.wf(),
    {
        BoundSet { entries: Vec::new() }
    }

    pub fn singleton(b: Bound, v: T) -> (r: BoundSet<T>)
        ensures
            r.entries() == seq![(b, v)],
            r.bounds() == seq![b],
            r.wf(),
    {
        let mut entries = Vec::new();
        entries.push((b, v));
        let r = BoundSet { entries };
        assert(r.bounds() =~= seq![b]);
        r
    }

    pub fn len(&self) -> (r: usize)
        ensures
            r == self.entries().len(),
    {
        self.entries.len()
    }

    pub fn bound(&self, i: usize) -> (r: Bound)
        requires
            i < self.entries().len(),
        ensures
            r == self.bounds()[i as int],
    {
        self.entries[i].0
    }

    pub fn value(&self, i: usize) -> (r: &T)
        requires
            i < self.entries().len(),
        ensures
            *r == self.entries()[i as int].1,
    {
        &self.entries[i].1
    }

    /// The first bound inserted that is still present.
    pub fn first(&self) -> (r: Bound)
        requires
            self.entries().len() > 0,
        ensures
            r == self.bounds()[0],
    {
        self.entries[0].0
    }

    /// The entries, in order.
    pub fn into_entries(self) -> (r: Vec<(Bound, T)>)
        ensures
            r@ == self.entries(),
    {
        self.entries
    }

    /// Adds `(b, v)` unless an entry dominates `b`; entries that `b`
    /// dominates are removed.
    pub fn insert(&mut self, b: Bound, v: T)
        requires
            old(self).wf(),
        ensures
            final(self).wf(),
            final(self).bounds() == bound_insert(old(self).bounds(), b),
            final(self).entries() == entry_insert(old(self).entries(), b, v),
            forall|k: int| 0 <= k < final(self).entries().len() ==> #[trigger] final(self).entries()[k] == (b, v)
                || old(self).entries().contains(final(self).entries()[k]),
    {
        let ghost s = self.entries@;
        let ghost ks = keys(s);
        let n = self.entries.len();
        let mut i: usize = 0;
        while i < n
            invariant
                n == self.entries@.len(),
                self.entries@ == s,
                ks == keys(s),
                antichain(ks),
                i <= n,
                forall|k: int| 0 <= k < i ==> !dominates(#[trigger] ks[k], b),
            decreases n - i,
        {
            if self.entries[i].0.dominates(&b) {
                proof {
                    assert(dominates(ks[i as int], b));
                    assert(covered(ks, b));
                }
                return;
            }
            i = i + 1;
        }
        assert(!covered(ks, b));
        let mut i: usize = 0;
        let ghost mut j: int = 0;
        while i < self.entries.len()
            invariant
                0 <= j <= s.len(),
                i <= self.entries@.len(),
                self.entries@.len() - i == s.len() - j,
                ks == keys(s),
                self.entries@.subrange(i as int, self.entries@.len() as int) == s.subrange(j, s.len() as int),
                keys(self.entries@.subrange(0, i as int)) == prune(ks.subrange(0, j), b),
                self.entries@.subrange(0, i as int) == entry_prune(s.subrange(0, j), b),
                forall|k: int| 0 <= k < i ==> s.contains(#[trigger] self.entries@[k]),
            decreases self.entries@.len() - i,
        {
            proof {
                assert(self.entries@[i as int] == s[j]) by {
                    assert(self.entries@.subrange(i as int, self.entries@.len() as int)[0] == s.subrange(j, s.len() as int)[0]);
                }
                assert(ks.subrange(0, j + 1).drop_last() =~= ks.subrange(0, j));
                assert(ks.subrange(0, j + 1).last() == ks[j]);
                assert(s.subrange(0, j + 1).drop_last() =~= s.subrange(0, j));
                assert(s.subrange(0, j + 1).last() == s[j]);
                assert(ks[j] == s[j].0);
            }
            let ghost before = self.entries@;
            if b.dominates(&self.entries[i].0) {
                self.entries.remove(i);
                proof {
                    assert(self.entries@.subrange(0, i as int) =~= before.subrange(0, i as int));
                    assert(self.entries@.subrange(i as int, self.entries@.len() as int) =~= s.subrange(j + 1, s.len() as int)) by {
                        assert(before.subrange(i as int, before.len() as int).drop_first() =~= self.entries@.subrange(i as int, self.entries@.len() as int));
                        assert(s.subrange(j, s.len() as int).drop_first() =~= s.subrange(j + 1, s.len() as int));
                    }
                }
            } else {
                i = i + 1;
                proof {
                    assert(self.entries@.subrange(0, i as int) =~= before.subrange(0, i - 1).push(s[j]));
                    assert(keys(self.entries@.subrange(0, i as int)) =~= keys(before.subrange(0, i - 1)).push(ks[j]));
                    assert(self.entries@.subrange(i as int, self.entries@.len() as int) =~= s.subrange(j + 1, s.len() as int)) by {
                        assert(before.subrange(i - 1, before.len() as int).drop_first() =~= self.entries@.subrange(i as int, self.entries@.len() as int));
                        assert(s.subrange(j, s.len() as int).drop_first() =~= s.subrange(j + 1, s.len() as int));
                    }
                    assert(s.contains(s[j]));
                }
            }
            proof {
                j = j + 1;
            }
        }
        proof {
            assert(j == s.len()) by {
                if j < s.len() {
                    assert(s.subrange(j, s.len() as int).len() > 0);
                }
            }
            assert(ks.subrange(0, j) =~= ks);
            assert(s.subrange(0, j) =~= s);
            assert(self.entries@.subrange(0, i as int) =~= self.entries@);
        }
        let ghost pruned = self.entries@;
        self.entries.push((b, v));
        proof {
            assert(keys(self.entries@) =~= keys(pruned).push(b));
            lemma_bound_insert_antichain(ks, b);
            assert forall|k: int| 0 <= k < self.entries@.len() implies #[trigger] self.entries@[k] == (b, v)
                || s.contains(self.entries@[k]) by {
                if k < pruned.len() {
                    assert(self.entries@[k] == pruned[k]);
                }
            }
        }
    }

    /// The index of the entry chosen for a screen `width` columns wide.
    pub fn pick(&self, width: Col) -> (r: usize)
        requires
            self.entries().len() > 0,
        ensures
            selected(self.bounds(), width as int, r as int),
    {
        let ghost ks = self.bounds();
        let n = self.entries.len();
        let mut best: Option<usize> = None;
        let mut narrowest: usize = 0;
        let mut i: usize = 1;
        if self.entries[0].0.width <= width {
            best = Some(0);
        }
        while i < n
            invariant
                n == ks.len(),
                ks == self.bounds(),
                1 <= i <= n,
                narrowest < i,
                forall|j: int| 0 <= j < i ==> ks[narrowest as int].width <= (#[trigger] ks[j]).width,
                match best {
                    Some(k) => k < i && ks[k as int].width <= width && forall|j: int|
                        0 <= j < i && (#[trigger] ks[j]).width <= width ==> preferred(ks[k as int], ks[j]),
                    None => forall|j: int| 0 <= j < i ==> (#[trigger] ks[j]).width > width,
                },
            decreases n - i,
        {
            let b = self.entries[i].0;
            assert(b == ks[i as int]);
            if b.width < self.entries[narrowest].0.width {
                narrowest = i;
            }
            if b.width <= width {
                match best {
                    None => {
                        best = Some(i);
                    },
                    Some(k) => {
                        let c = self.entries[k].0;
                        if b.height < c.height || (b.height == c.height && b.width < c.width) {
                            best = Some(i);
                        }
                    },
                }
            }
            i = i + 1;
        }
        match best {
            Some(k) => k,
            None => narrowest,
        }
    }

    /// Whether some entry is at most `width` wide.
    pub fn fits_within(&self, width: Col) -> (r: bool)
        ensures
            r == fits_some(self.bounds(), width as int),
    {
        let n = self.entries.len();
        let mut i: usize = 0;
        while i < n
            invariant
                n == self.bounds().len(),
                i <= n,
                forall|j: int| 0 <= j < i ==> (#[trigger] self.bounds()[j]).width > width,
            decreases n - i,
        {
            if self.entries[i].0.width <= width {
                assert(self.bounds()[i as int].width <= width);
                return true;
            }
            i = i + 1;
        }
        false
    }

    /// The companion of the entry chosen for a screen `width` columns wide.
    pub fn fit_width(&self, width: Col) -> (r: &T)
        requires
            self.entries().len() > 0,
        ensures
            exists|i: int| selected(self.bounds(), width as int, i) && *r == self.entries()[i].1,
    {
        let i = self.pick(width);
        &self.entries[i].1
    }
}

} // verus!
