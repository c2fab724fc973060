use vstd::prelude::*;
use std::collections::HashMap;

verus! {

broadcast use vstd::std_specs::hash::group_hash_axioms;

/// A node identifier: random high bits, and in the low 64 bits a serial
/// number that the issuing forest never hands out twice.
pub type Id = u128;

/// The low 64 bits of an identifier.
pub const SERIAL_MASK: u128 = 0xFFFF_FFFF_FFFF_FFFF;

/// The high 64 bits of an identifier.
pub const RANDOM_MASK: u128 = 0xFFFF_FFFF_FFFF_FFFF_0000_0000_0000_0000;

/// Relies on `uuid::Uuid::new_v4` (read with `Uuid::as_u128`): a random
/// version-4 UUID. Nothing is assumed of its value.
#[verifier::external_body]
fn random_bits() -> (r: u128) {
    uuid::Uuid::new_v4().as_u128()
}

/// What a node holds: a leaf payload, or a data payload and the ordered
/// identifiers of its children.
pub enum NodeContents<D, L> {
    Leaf(L),
    Branch(D, Vec<Id>),
}

pub struct Node<D, L> {
    pub parent: Option<Id>,
    pub contents: NodeContents<D, L>,
}

/// An arena of nodes that form trees.
pub struct Forest<D, L> {
    map: HashMap<Id, Node<D, L>>,
    issued: u64,
    /// For each node, the identifiers from its tree's root down to its parent.
    paths: Ghost<Map<Id, Seq<Id>>>,
}

impl<D, L> View for Forest<D, L> {
    type V = Map<Id, Node<D, L>>;

    closed spec fn view(&self) -> Map<Id, Node<D, L>> {
        self.map@
    }
}

impl<D, L> Forest<D, L> {
    /// The ancestors of each node, from its tree's root down to its parent.
    pub closed spec fn paths(&self) -> Map<Id, Seq<Id>> {
        self.paths@
    }

    /// How many identifiers this forest has handed out.
    pub closed spec fn issued(&self) -> nat {
        self.issued as nat
    }

    pub open spec fn live(&self, x: Id) -> bool {
        self@.contains_key(x)
    }

    pub open spec fn parent_of(&self, x: Id) -> Option<Id> {
        self@[x].parent
    }

    pub open spec fn is_branch(&self, x: Id) -> bool {
        self@[x].contents is Branch
    }

    pub open spec fn children_of(&self, x: Id) -> Seq<Id> {
        match self@[x].contents {
            NodeContents::Branch(_, c) => c@,
            NodeContents::Leaf(_) => Seq::empty(),
        }
    }

    pub open spec fn data_of(&self, x: Id) -> D
        recommends
            self.is_branch(x),
    {
        match self@[x].contents {
            NodeContents::Branch(d, _) => d,
            NodeContents::Leaf(_) => arbitrary(),
        }
    }

    pub open spec fn leaf_of(&self, x: Id) -> L
        recommends
            !self.is_branch(x),
    {
        match self@[x].contents {
            NodeContents::Leaf(l) => l,
            NodeContents::Branch(_, _) => arbitrary(),
        }
    }

    pub open spec fn path(&self, x: Id) -> Seq<Id> {
        self.paths()[x]
    }

    /// The topmost ancestor of `x`.
    pub open spec fn root_of(&self, x: Id) -> Id {
        if self.path(x).len() == 0 {
            x
        } else {
            self.path(x)[0]
        }
    }

    /// `x` is `c` or lies below it.
    pub open spec fn in_subtree(&self, x: Id, c: Id) -> bool {
        x == c || (self.path(x).len() > self.path(c).len() && self.path(x)[self.path(c).len() as int] == c)
    }

    /// The nodes of the subtree rooted at `c`.
    pub open spec fn subtree(&self, c: Id) -> Set<Id> {
        self@.dom().filter(|x: Id| self.in_subtree(x, c))
    }

    pub open spec fn is_root(&self, x: Id) -> bool {
        self.live(x) && self.parent_of(x) is None
    }

    /// Everything that holds of a single live node.
    pub closed spec fn node_ok(&self, x: Id) -> bool {
        &&& self.paths().contains_key(x)
        &&& (x & SERIAL_MASK) < self.issued()
        &&& match self.parent_of(x) {
            None => self.path(x) == Seq::<Id>::empty(),
            Some(p) => self.live(p) && self.is_branch(p) && self.children_of(p).contains(x) && self.path(x)
                == self.path(p).push(p),
        }
        &&& self.children_of(x).no_duplicates()
        &&& forall|i: int|
            0 <= i < self.children_of(x).len() ==> self.live(#[trigger] self.children_of(x)[i])
                && self.parent_of(self.children_of(x)[i]) == Some(x)
        &&& forall|i: int|
            0 <= i < self.path(x).len() ==> self.live(#[trigger] self.path(x)[i]) && self.path(self.path(x)[i])
                == self.path(x).subrange(0, i)
    }

    /// The arena's invariant: parent and child links agree, and following
    /// parents from any node reaches a root.
    pub closed spec fn wf(&self) -> bool {
        forall|x: Id| self.live(x) ==> #[trigger] self.node_ok(x)
    }

    /// An empty forest.
    pub fn new() -> (r: Forest<D, L>)
        ensures
            r.wf(),
            r@ == Map::<Id, Node<D, L>>::empty(),
            r.issued() == 0,
    {
        Forest { map: HashMap::new(), issued: 0, paths: Ghost(Map::empty()) }
    }

    /// The arena holds finitely many nodes.
    pub proof fn lemma_finite(&self)
        ensures
            self@.dom().finite(),
    {
    }

    /// The number of live nodes.
    pub fn tree_count(&self) -> (r: usize)
        ensures
            r == self@.len(),
    {
        self.map.len()
    }

    /// Whether `id` is a live node.
    pub fn is_valid(&self, id: Id) -> (r: bool)
        ensures
            r == self.live(id),
    {
        self.map.contains_key(&id)
    }

    fn node(&self, id: Id) -> (r: &Node<D, L>)
        requires
            self.live(id),
        ensures
            *r == self@[id],
    {
        self.map.get(&id).unwrap()
    }

    /// A fresh identifier, not yet handed out by this forest.
    fn fresh(&mut self) -> (r: Id)
        requires
            old(self).wf(),
            old(self).issued() < u64::MAX,
        ensures
            final(self)@ == old(self)@,
            final(self).paths() == old(self).paths(),
            final(self).issued() == old(self).issued() + 1,
            (r & SERIAL_MASK) == old(self).issued(),
            !old(self).live(r),
            final(self).wf(),
    {
        let bits = random_bits();
        let n = self.issued;
        let id = (bits & RANDOM_MASK) | (n as u128);
        assert((id & SERIAL_MASK) == n as u128) by (bit_vector)
            requires
                id == (bits & 0xFFFF_FFFF_FFFF_FFFF_0000_0000_0000_0000u128) | (n as u128),
        ;
        proof {
            if old(self).live(id) {
                assert(old(self).node_ok(id));
            }
        }
        self.issued = n + 1;
        proof {
            assert forall|x: Id| self.live(x) implies #[trigger] self.node_ok(x) by {
                assert(old(self).node_ok(x));
            }
        }
        id
    }

    /// Adds a parentless leaf and returns its identifier.
    pub fn create_leaf(&mut self, leaf: L) -> (r: Id)
        requires
            old(self).wf(),
            old(self).issued() < u64::MAX,
        ensures
            final(self).wf(),
            !old(self).live(r),
            final(self)@ == old(self)@.insert(r, Node { parent: None, contents: NodeContents::Leaf(leaf) }),
            final(self).issued() == old(self).issued() + 1,
            forall|x: Id| old(self).live(x) ==> #[trigger] final(self).path(x) == old(self).path(x),
            final(self).path(r) == Seq::<Id>::empty(),
    {
        let id = self.fresh();
        self.map.insert(id, Node { parent: None, contents: NodeContents::Leaf(leaf) });
        self.paths = Ghost(self.paths@.insert(id, Seq::empty()));
        proof {
            let o = old(self);
            assert forall|x: Id| self.live(x) implies #[trigger] self.node_ok(x) by {
                if x != id {
                    assert(o.node_ok(x));
                    assert(self@[x] == o@[x]);
                    assert(self.children_of(x) == o.children_of(x));
                    if let Some(p) = self.parent_of(x) {
                        assert(p != id);
                    }
                    assert forall|i: int| 0 <= i < self.path(x).len() implies self.live(#[trigger] self.path(x)[i])
                        && self.path(self.path(x)[i]) == self.path(x).subrange(0, i) by {
                        assert(o.live(o.path(x)[i]));
                    }
                } else {
                    assert(self.children_of(x) =~= Seq::<Id>::empty());
                }
            }
        }
        id
    }

    /// A node's parent is a live branch in the same tree, one level up.
    pub proof fn lemma_parent(&self, x: Id)
        requires
            self.wf(),
            self.live(x),
            self.parent_of(x) is Some,
        ensures
            self.live(self.parent_of(x)->0),
            self.is_branch(self.parent_of(x)->0),
            self.root_of(x) == self.root_of(self.parent_of(x)->0),
            self.path(x).len() == self.path(self.parent_of(x)->0).len() + 1,
    {
        let q = self.parent_of(x)->0;
        assert(self.node_ok(x));
        assert(self.node_ok(q));
        if self.path(q).len() > 0 {
            assert(self.path(x)[0] == self.path(q)[0]);
        }
    }

    /// The root of any node is a live node without a parent, and is its
    /// own root.
    pub proof fn lemma_root(&self, x: Id)
        requires
            self.wf(),
            self.live(x),
        ensures
            self.is_root(self.root_of(x)),
            self.root_of(self.root_of(x)) == self.root_of(x),
            self.in_subtree(x, self.root_of(x)),
            self.parent_of(x) is None ==> self.root_of(x) == x && self.path(x).len() == 0,
    {
        assert(self.node_ok(x));
        let r = self.root_of(x);
        if self.path(x).len() > 0 {
            assert(self.live(self.path(x)[0]));
            assert(self.path(r) =~= self.path(x).subrange(0, 0));
            assert(self.node_ok(r));
            if let Some(p) = self.parent_of(r) {
                assert(self.path(r) == self.path(p).push(p));
            }
        } else {
            if let Some(p) = self.parent_of(x) {
                assert(self.path(x) == self.path(p).push(p));
            }
        }
    }

    /// Every live node has at most one parent, and a child has the same
    /// root as its parent.
    pub proof fn lemma_child_root(&self, b: Id, i: int)
        requires
            self.wf(),
            self.live(b),
            0 <= i < self.children_of(b).len(),
        ensures
            self.live(self.children_of(b)[i]),
            self.parent_of(self.children_of(b)[i]) == Some(b),
            self.root_of(self.children_of(b)[i]) == self.root_of(b),
            forall|b2: Id| #[trigger] self.live(b2) && self.children_of(b2).contains(self.children_of(b)[i]) ==> b2 == b,
    {
        assert(self.node_ok(b));
        let c = self.children_of(b)[i];
        self.lemma_parent(c);
        assert forall|b2: Id| #[trigger] self.live(b2) && self.children_of(b2).contains(c) implies b2 == b by {
            assert(self.node_ok(b2));
            let k = choose|k: int| 0 <= k < self.children_of(b2).len() && self.children_of(b2)[k] == c;
            assert(self.parent_of(self.children_of(b2)[k]) == Some(b2));
        }
    }

    /// The parent of `id`, if it has one.
    pub fn parent(&self, id: Id) -> (r: Option<Id>)
        requires
            self.live(id),
        ensures
            r == self.parent_of(id),
    {
        self.node(id).parent
    }

    /// The children of the branch `id`.
    pub fn children(&self, id: Id) -> (r: &Vec<Id>)
        requires
            self.live(id),
            self.is_branch(id),
        ensures
            r@ == self.children_of(id),
    {
        match &self.node(id).contents {
            NodeContents::Branch(_, children) => children,
            NodeContents::Leaf(_) => unreached(),
        }
    }

    /// The `index`'th child of the branch `id`.
    pub fn child(&self, id: Id, index: usize) -> (r: Id)
        requires
            self.live(id),
            self.is_branch(id),
            index < self.children_of(id).len(),
        ensures
            r == self.children_of(id)[index as int],
    {
        self.children(id)[index]
    }

    /// The topmost ancestor of `id`, found by following parents.
    pub fn root(&self, id: Id) -> (r: Id)
        requires
            self.wf(),
            self.live(id),
        ensures
            r == self.root_of(id),
            self.is_root(r),
    {
        let mut cur = id;
        loop
            invariant
                self.wf(),
                self.live(cur),
                self.root_of(cur) == self.root_of(id),
            decreases self.path(cur).len(),
        {
            match self.node(cur).parent {
                None => {
                    proof {
                        assert(self.node_ok(cur));
                        self.lemma_root(cur);
                    }
                    return cur;
                },
                Some(p) => {
                    proof {
                        self.lemma_parent(cur);
                    }
                    cur = p;
                },
            }
        }
    }

    /// Whether `id` is a leaf.
    pub fn is_leaf(&self, id: Id) -> (r: bool)
        requires
            self.live(id),
        ensures
            r == !self.is_branch(id),
    {
        match &self.node(id).contents {
            NodeContents::Leaf(_) => true,
            NodeContents::Branch(_, _) => false,
        }
    }

    /// The data payload of the branch `id`.
    pub fn data(&self, id: Id) -> (r: &D)
        requires
            self.live(id),
            self.is_branch(id),
        ensures
            *r == self.data_of(id),
    {
        match &self.node(id).contents {
            NodeContents::Branch(data, _) => data,
            NodeContents::Leaf(_) => unreached(),
        }
    }

    /// The leaf payload of the leaf `id`.
    pub fn leaf(&self, id: Id) -> (r: &L)
        requires
            self.live(id),
            !self.is_branch(id),
        ensures
            *r == self.leaf_of(id),
    {
        match &self.node(id).contents {
            NodeContents::Leaf(leaf) => leaf,
            NodeContents::Branch(_, _) => unreached(),
        }
    }

    fn take(&mut self, id: Id) -> (r: Node<D, L>)
        requires
            old(self).live(id),
        ensures
            r == old(self)@[id],
            final(self)@ == old(self)@.remove(id),
            final(self).paths() == old(self).paths(),
            final(self).issued() == old(self).issued(),
    {
        self.map.remove(&id).unwrap()
    }

    fn put(&mut self, id: Id, node: Node<D, L>)
        ensures
            final(self)@ == old(self)@.insert(id, node),
            final(self).paths() == old(self).paths(),
            final(self).issued() == old(self).issued(),
    {
        self.map.insert(id, node);
    }

    /// Mutable access to the data payload of the branch `id`.
    pub fn data_mut(&mut self, id: Id) -> (r: &mut D)
        requires
            old(self).wf(),
            old(self).live(id),
            old(self).is_branch(id),
        ensures
            *r == old(self).data_of(id),
            final(self).wf(),
            final(self)@.dom() == old(self)@.dom(),
            forall|x: Id| old(self).live(x) && x != id ==> #[trigger] final(self)@[x] == old(self)@[x],
            final(self).parent_of(id) == old(self).parent_of(id),
            final(self).is_branch(id),
            final(self).children_of(id) == old(self).children_of(id),
            final(self).data_of(id) == *final(r),
            final(self).paths() == old(self).paths(),
            final(self).issued() == old(self).issued(),
    {
        proof {
            final(self).lemma_payload_only(old(self), id);
        }
        let entry = self.map.entry(id);
        let r = match entry {
            std::collections::hash_map::Entry::Occupied(occupied) => {
                let node = occupied.into_mut();
                match &mut node.contents {
                    NodeContents::Branch(data, _) => data,
                    NodeContents::Leaf(_) => unreached(),
                }
            },
            std::collections::hash_map::Entry::Vacant(_) => unreached(),
        };
        r
    }

    /// Mutable access to the leaf payload of the leaf `id`.
    pub fn leaf_mut(&mut self, id: Id) -> (r: &mut L)
        requires
            old(self).wf(),
            old(self).live(id),
            !old(self).is_branch(id),
        ensures
            *r == old(self).leaf_of(id),
            final(self).wf(),
            final(self)@.dom() == old(self)@.dom(),
            forall|x: Id| old(self).live(x) && x != id ==> #[trigger] final(self)@[x] == old(self)@[x],
            final(self).parent_of(id) == old(self).parent_of(id),
            !final(self).is_branch(id),
            final(self).leaf_of(id) == *final(r),
            final(self).paths() == old(self).paths(),
            final(self).issued() == old(self).issued(),
    {
        proof {
            final(self).lemma_payload_only(old(self), id);
        }
        let entry = self.map.entry(id);
        let r = match entry {
            std::collections::hash_map::Entry::Occupied(occupied) => {
                let node = occupied.into_mut();
                match &mut node.contents {
                    NodeContents::Leaf(leaf) => leaf,
                    NodeContents::Branch(_, _) => unreached(),
                }
            },
            std::collections::hash_map::Entry::Vacant(_) => unreached(),
        };
        r
    }

    proof fn lemma_payload_only(&self, o: &Self, id: Id)
        requires
            o.wf(),
            o.live(id),
        ensures
            ({
                &&& self@ == o@.insert(id, self@[id])
                &&& self.parent_of(id) == o.parent_of(id)
                &&& self.is_branch(id) == o.is_branch(id)
                &&& self.children_of(id) == o.children_of(id)
                &&& self.paths() == o.paths()
                &&& self.issued() == o.issued()
            }) ==> self.wf(),
    {
        if self@ == o@.insert(id, self@[id]) && self.parent_of(id) == o.parent_of(id) && self.is_branch(id)
            == o.is_branch(id) && self.children_of(id) == o.children_of(id) && self.paths() == o.paths()
            && self.issued() == o.issued() {
            assert(self@.dom() =~= o@.dom());
            self.lemma_same_links(o, id);
        }
    }

    /// A node whose payload changed but whose links did not keeps the
    /// forest well formed.
    proof fn lemma_same_links(&self, o: &Self, id: Id)
        requires
            o.wf(),
            self@.dom() == o@.dom(),
            forall|x: Id| o.live(x) && x != id ==> #[trigger] self@[x] == o@[x],
            self.parent_of(id) == o.parent_of(id),
            self.is_branch(id) == o.is_branch(id),
            self.children_of(id) == o.children_of(id),
            self.paths() == o.paths(),
            self.issued() == o.issued(),
        ensures
            self.wf(),
    {
        assert forall|x: Id| self.live(x) implies #[trigger] self.node_ok(x) by {
            assert(o.node_ok(x));
            assert(self.children_of(x) == o.children_of(x));
            assert(self.parent_of(x) == o.parent_of(x));
            if let Some(p) = self.parent_of(x) {
                assert(self.children_of(p) == o.children_of(p));
                assert(self.is_branch(p) == o.is_branch(p));
            }
            assert forall|i: int| 0 <= i < self.children_of(x).len() implies self.live(#[trigger] self.children_of(x)[i])
                && self.parent_of(self.children_of(x)[i]) == Some(x) by {
                let c = o.children_of(x)[i];
                assert(o.live(c));
                assert(self.parent_of(c) == o.parent_of(c));
            }
            assert forall|i: int| 0 <= i < self.path(x).len() implies self.live(#[trigger] self.path(x)[i])
                && self.path(self.path(x)[i]) == self.path(x).subrange(0, i) by {
                assert(o.live(o.path(x)[i]));
            }
        }
    }

    proof fn lemma_path_elem_root(&self, x: Id, k: int)
        requires
            self.wf(),
            self.live(x),
            0 <= k < self.path(x).len(),
        ensures
            self.live(self.path(x)[k]),
            self.root_of(self.path(x)[k]) == self.root_of(x),
            self.path(self.path(x)[k]) == self.path(x).subrange(0, k),
    {
        assert(self.node_ok(x));
        let y = self.path(x)[k];
        if k > 0 {
            assert(self.path(y)[0] == self.path(x)[0]);
        }
    }

    /// Inserting a whole tree `s` as a child of `p` keeps the forest well
    /// formed; the nodes of `s` now have `p`'s root.
    proof fn lemma_attach(&self, o: &Self, p: Id, i: int, s: Id)
        requires
            o.wf(),
            o.live(p),
            o.is_branch(p),
            0 <= i <= o.children_of(p).len(),
            o.is_root(s),
            o.root_of(p) != s,
            self@.dom() == o@.dom(),
            self.issued() == o.issued(),
            forall|x: Id| o.live(x) && x != p && x != s ==> #[trigger] self@[x] == o@[x],
            self.parent_of(s) == Some(p),
            self@[s].contents == o@[s].contents,
            self.parent_of(p) == o.parent_of(p),
            self.is_branch(p),
            self.children_of(p) == o.children_of(p).insert(i, s),
            self.paths() == Map::new(
                |x: Id| o.paths().contains_key(x),
                |x: Id| if o.root_of(x) == s { o.path(p).push(p) + o.path(x) } else { o.path(x) },
            ),
        ensures
            self.wf(),
            forall|x: Id| o.live(x) ==> #[trigger] self.root_of(x) == (if o.root_of(x) == s {
                o.root_of(p)
            } else {
                o.root_of(x)
            }),
    {
        assert(o.node_ok(s));
        assert(o.node_ok(p));
        assert(p != s);
        let a = o.path(p).push(p);
        o.children_of(p).insert_ensures(i, s);
        assert(!o.children_of(p).contains(s)) by {
            if o.children_of(p).contains(s) {
                let k = choose|k: int| 0 <= k < o.children_of(p).len() && o.children_of(p)[k] == s;
                assert(o.parent_of(o.children_of(p)[k]) == Some(p));
            }
        }
        assert forall|x: Id| #[trigger] o.live(x) implies self.path(x) == (if o.root_of(x) == s {
            a + o.path(x)
        } else {
            o.path(x)
        }) by {
            assert(o.node_ok(x));
        }
        assert forall|x: Id| #[trigger] self.live(x) implies self.node_ok(x) by {
            assert(o.node_ok(x));
            assert(x != p && x != s ==> self@[x] == o@[x]);
            assert(x != p ==> self.children_of(x) == o.children_of(x));
            assert(x != s ==> self.parent_of(x) == o.parent_of(x));
            // the parent link
            match self.parent_of(x) {
                None => {
                    assert(o.path(x) == Seq::<Id>::empty());
                    assert(o.root_of(x) == x);
                },
                Some(q) => {
                    if x == s {
                        assert(o.path(s) =~= Seq::<Id>::empty());
                        assert(self.path(s) =~= a + o.path(s));
                        assert(o.root_of(p) != s);
                        assert(self.path(p) == o.path(p));
                        assert(self.children_of(p).contains(s)) by {
                            assert(self.children_of(p)[i] == s);
                        }
                    } else {
                        o.lemma_parent(x);
                        assert(o.node_ok(q));
                        assert(o.path(x) == o.path(q).push(q));
                        if o.root_of(x) == s {
                            assert(self.path(x) == a + o.path(x));
                            assert(self.path(q) == a + o.path(q));
                            assert(a + o.path(q).push(q) =~= (a + o.path(q)).push(q));
                        }
                        assert(self.is_branch(q)) by {
                            if q != p && q != s {
                                assert(self@[q] == o@[q]);
                            }
                        }
                        assert(self.children_of(q).contains(x)) by {
                            if q == p {
                                let k = choose|k: int| 0 <= k < o.children_of(p).len() && o.children_of(p)[k] == x;
                                if k < i {
                                    assert(self.children_of(p)[k] == x);
                                } else {
                                    assert(self.children_of(p)[k + 1] == x);
                                }
                            } else {
                                assert(self.children_of(q) == o.children_of(q));
                            }
                        }
                    }
                },
            }
            // the children
            if x == p {
                assert(self.children_of(p).no_duplicates()) by {
                    let c = self.children_of(p);
                    let oc = o.children_of(p);
                    assert forall|m: int, n: int| 0 <= m < c.len() && 0 <= n < c.len() && m != n implies c[m] != c[n] by {
                        if m != i && n != i {
                            let m0 = if m < i { m } else { m - 1 };
                            let n0 = if n < i { n } else { n - 1 };
                            assert(c[m] == oc[m0]);
                            assert(c[n] == oc[n0]);
                        } else if m == i {
                            let n0 = if n < i { n } else { n - 1 };
                            assert(c[n] == oc[n0]);
                            assert(oc.contains(oc[n0]));
                        } else {
                            let m0 = if m < i { m } else { m - 1 };
                            assert(c[m] == oc[m0]);
                            assert(oc.contains(oc[m0]));
                        }
                    }
                }
                assert forall|k: int| 0 <= k < self.children_of(x).len() implies self.live(#[trigger] self.children_of(x)[k])
                    && self.parent_of(self.children_of(x)[k]) == Some(x) by {
                    let c = self.children_of(p);
                    let oc = o.children_of(p);
                    if k != i {
                        let k0 = if k < i { k } else { k - 1 };
                        assert(c[k] == oc[k0]);
                        assert(o.parent_of(oc[k0]) == Some(p));
                        assert(oc[k0] != s);
                    }
                }
            } else {
                assert forall|k: int| 0 <= k < self.children_of(x).len() implies self.live(#[trigger] self.children_of(x)[k])
                    && self.parent_of(self.children_of(x)[k]) == Some(x) by {
                    let c = o.children_of(x)[k];
                    assert(o.parent_of(c) == Some(x));
                    assert(c != s);
                }
            }
            // the path
            assert forall|k: int| 0 <= k < self.path(x).len() implies self.live(#[trigger] self.path(x)[k])
                && self.path(self.path(x)[k]) == self.path(x).subrange(0, k) by {
                if o.root_of(x) == s {
                    let px = a + o.path(x);
                    assert(self.path(x) == px);
                    if k < a.len() {
                        if k < o.path(p).len() {
                            o.lemma_path_elem_root(p, k);
                            let y = o.path(p)[k];
                            assert(px[k] == y);
                            assert(self.path(y) == o.path(y));
                            assert(o.path(y) =~= px.subrange(0, k));
                        } else {
                            assert(px[k] == p);
                            assert(self.path(p) == o.path(p));
                            assert(o.path(p) =~= px.subrange(0, k));
                        }
                    } else {
                        let k0 = k - a.len();
                        o.lemma_path_elem_root(x, k0);
                        let y = o.path(x)[k0];
                        assert(px[k] == y);
                        assert(self.path(y) == a + o.path(y));
                        assert(a + o.path(x).subrange(0, k0) =~= px.subrange(0, k));
                    }
                } else {
                    o.lemma_path_elem_root(x, k);
                    let y = o.path(x)[k];
                    assert(self.path(y) == o.path(y));
                }
            }
        }
        assert forall|x: Id| o.live(x) implies #[trigger] self.root_of(x) == (if o.root_of(x) == s {
            o.root_of(p)
        } else {
            o.root_of(x)
        }) by {
            if o.root_of(x) == s {
                assert(self.path(x) == a + o.path(x));
                assert((a + o.path(x))[0] == a[0]);
            }
        }
    }

    /// Inserts the root `new_child` as the `index`'th child of the branch
    /// `parent`.
    pub fn insert_child(&mut self, parent: Id, index: usize, new_child: Id)
        requires
            old(self).wf(),
            old(self).live(parent),
            old(self).is_branch(parent),
            index <= old(self).children_of(parent).len(),
            old(self).is_root(new_child),
            old(self).root_of(parent) != new_child,
        ensures
            final(self).wf(),
            final(self).issued() == old(self).issued(),
            final(self)@.dom() == old(self)@.dom(),
            forall|x: Id| old(self).live(x) && x != parent && x != new_child ==> #[trigger] final(self)@[x] == old(self)@[x],
            final(self).parent_of(new_child) == Some(parent),
            final(self)@[new_child].contents == old(self)@[new_child].contents,
            final(self).parent_of(parent) == old(self).parent_of(parent),
            final(self).is_branch(parent),
            final(self).data_of(parent) == old(self).data_of(parent),
            final(self).children_of(parent) == old(self).children_of(parent).insert(index as int, new_child),
            forall|x: Id| old(self).live(x) ==> #[trigger] final(self).root_of(x) == (if old(self).root_of(x) == new_child {
                old(self).root_of(parent)
            } else {
                old(self).root_of(x)
            }),
    {
        proof {
            assert(old(self).node_ok(new_child));
        }
        let node = self.take(parent);
        let Node { parent: grand, contents } = node;
        match contents {
            NodeContents::Branch(data, mut children) => {
                children.insert(index, new_child);
                self.put(parent, Node { parent: grand, contents: NodeContents::Branch(data, children) });
            },
            NodeContents::Leaf(_) => {
                proof {
                    assert(false);
                }
            },
        }
        let child_node = self.take(new_child);
        let Node { parent: _, contents: child_contents } = child_node;
        self.put(new_child, Node { parent: Some(parent), contents: child_contents });
        let ghost o = *old(self);
        self.paths = Ghost(
            Map::new(
                |x: Id| o.paths().contains_key(x),
                |x: Id| if o.root_of(x) == new_child { o.path(parent).push(parent) + o.path(x) } else { o.path(x) },
            ),
        );
        proof {
            self.lemma_attach(old(self), parent, index as int, new_child);
        }
    }

    /// Taking the subtree of `c` away from its parent `p` keeps the forest
    /// well formed; the nodes of that subtree now have `c` as their root.
    proof fn lemma_detach(&self, o: &Self, p: Id, i: int, c: Id)
        requires
            o.wf(),
            o.live(p),
            o.is_branch(p),
            0 <= i < o.children_of(p).len(),
            c == o.children_of(p)[i],
            self@.dom() == o@.dom(),
            self.issued() == o.issued(),
            forall|x: Id| o.live(x) && x != p && x != c ==> #[trigger] self@[x] == o@[x],
            self.parent_of(c) is None,
            self@[c].contents == o@[c].contents,
            self.parent_of(p) == o.parent_of(p),
            self.is_branch(p),
            self.children_of(p) == o.children_of(p).remove(i),
            self.paths() == Map::new(
                |x: Id| o.paths().contains_key(x),
                |x: Id| if o.in_subtree(x, c) {
                    o.path(x).subrange(o.path(c).len() as int, o.path(x).len() as int)
                } else {
                    o.path(x)
                },
            ),
        ensures
            self.wf(),
            forall|x: Id| o.live(x) ==> #[trigger] self.root_of(x) == (if o.in_subtree(x, c) {
                c
            } else {
                o.root_of(x)
            }),
    {
        assert(o.node_ok(p));
        assert(o.node_ok(c));
        let dc = o.path(c).len() as int;
        assert(o.parent_of(c) == Some(p));
        assert(o.path(c) == o.path(p).push(p));
        assert(p != c);
        o.children_of(p).remove_ensures(i);
        assert forall|x: Id| #[trigger] o.live(x) implies self.path(x) == (if o.in_subtree(x, c) {
            o.path(x).subrange(dc, o.path(x).len() as int)
        } else {
            o.path(x)
        }) by {
            assert(o.node_ok(x));
        }
        assert forall|x: Id| #[trigger] self.live(x) implies self.node_ok(x) by {
            assert(o.node_ok(x));
            assert(x != p && x != c ==> self@[x] == o@[x]);
            assert(x != p ==> self.children_of(x) == o.children_of(x));
            assert(x != c ==> self.parent_of(x) == o.parent_of(x));
            match self.parent_of(x) {
                None => {
                    if x == c {
                        assert(self.path(c) =~= Seq::<Id>::empty());
                    } else {
                        assert(o.path(x) == Seq::<Id>::empty());
                    }
                },
                Some(q) => {
                    o.lemma_parent(x);
                    assert(o.node_ok(q));
                    assert(o.path(x) == o.path(q).push(q));
                    if o.in_subtree(x, c) {
                        assert(o.in_subtree(q, c)) by {
                            if o.path(q).len() == dc {
                                assert(o.path(x)[dc] == q);
                            } else {
                                assert(o.path(x)[dc] == o.path(q)[dc]);
                            }
                        }
                        assert(o.path(q).len() >= dc);
                        assert(o.path(x).subrange(dc, o.path(x).len() as int) =~= o.path(q).subrange(
                            dc,
                            o.path(q).len() as int,
                        ).push(q));
                    } else {
                        assert(!o.in_subtree(q, c)) by {
                            if q == c {
                                assert(o.path(x)[dc] == c);
                            } else if o.path(q).len() > dc && o.path(q)[dc] == c {
                                assert(o.path(x)[dc] == c);
                            }
                        }
                    }
                    assert(self.is_branch(q)) by {
                        if q != p && q != c {
                            assert(self@[q] == o@[q]);
                        }
                    }
                    assert(self.children_of(q).contains(x)) by {
                        if q == p {
                            let k = choose|k: int| 0 <= k < o.children_of(p).len() && o.children_of(p)[k] == x;
                            assert(k != i);
                            if k < i {
                                assert(self.children_of(p)[k] == x);
                            } else {
                                assert(self.children_of(p)[k - 1] == x);
                            }
                        }
                    }
                },
            }
            if x == p {
                let sc = self.children_of(p);
                let oc = o.children_of(p);
                assert(sc.no_duplicates()) by {
                    assert forall|m: int, n: int| 0 <= m < sc.len() && 0 <= n < sc.len() && m != n implies sc[m] != sc[n] by {
                        let m0 = if m < i { m } else { m + 1 };
                        let n0 = if n < i { n } else { n + 1 };
                        assert(sc[m] == oc[m0]);
                        assert(sc[n] == oc[n0]);
                    }
                }
                assert forall|k: int| 0 <= k < sc.len() implies self.live(#[trigger] sc[k]) && self.parent_of(sc[k]) == Some(p) by {
                    let k0 = if k < i { k } else { k + 1 };
                    assert(sc[k] == oc[k0]);
                    assert(oc[k0] != c);
                    assert(o.parent_of(oc[k0]) == Some(p));
                }
            } else {
                assert forall|k: int| 0 <= k < self.children_of(x).len() implies self.live(#[trigger] self.children_of(x)[k])
                    && self.parent_of(self.children_of(x)[k]) == Some(x) by {
                    let y = o.children_of(x)[k];
                    assert(o.parent_of(y) == Some(x));
                    assert(y != c);
                }
            }
            assert forall|k: int| 0 <= k < self.path(x).len() implies self.live(#[trigger] self.path(x)[k])
                && self.path(self.path(x)[k]) == self.path(x).subrange(0, k) by {
                if o.in_subtree(x, c) {
                    let px = o.path(x).subrange(dc, o.path(x).len() as int);
                    assert(self.path(x) == px);
                    o.lemma_path_elem_root(x, dc + k);
                    let y = o.path(x)[dc + k];
                    assert(px[k] == y);
                    assert(o.path(y) == o.path(x).subrange(0, dc + k));
                    assert(o.in_subtree(y, c)) by {
                        if k > 0 {
                            assert(o.path(y)[dc] == o.path(x)[dc]);
                        }
                    }
                    assert(o.path(y).subrange(dc, o.path(y).len() as int) =~= px.subrange(0, k));
                } else {
                    o.lemma_path_elem_root(x, k);
                    let y = o.path(x)[k];
                    assert(!o.in_subtree(y, c)) by {
                        if y == c {
                            assert(o.path(c) == o.path(x).subrange(0, k));
                            assert(o.path(x)[dc] == c);
                        } else if o.path(y).len() > dc && o.path(y)[dc] == c {
                            assert(o.path(x)[dc] == c);
                        }
                    }
                }
            }
        }
        assert forall|x: Id| o.live(x) implies #[trigger] self.root_of(x) == (if o.in_subtree(x, c) {
            c
        } else {
            o.root_of(x)
        }) by {
            if o.in_subtree(x, c) && x != c {
                assert(self.path(x)[0] == o.path(x)[dc]);
            }
        }
    }

    /// Removes and returns the `index`'th child of the branch `parent`; it
    /// becomes the root of a tree of its own.
    pub fn remove_child(&mut self, parent: Id, index: usize) -> (r: Id)
        requires
            old(self).wf(),
            old(self).live(parent),
            old(self).is_branch(parent),
            index < old(self).children_of(parent).len(),
        ensures
            final(self).wf(),
            r == old(self).children_of(parent)[index as int],
            final(self).issued() == old(self).issued(),
            final(self)@.dom() == old(self)@.dom(),
            forall|x: Id| old(self).live(x) && x != parent && x != r ==> #[trigger] final(self)@[x] == old(self)@[x],
            final(self).parent_of(r) is None,
            final(self)@[r].contents == old(self)@[r].contents,
            final(self).parent_of(parent) == old(self).parent_of(parent),
            final(self).is_branch(parent),
            final(self).data_of(parent) == old(self).data_of(parent),
            final(self).children_of(parent) == old(self).children_of(parent).remove(index as int),
            forall|x: Id| old(self).live(x) ==> #[trigger] final(self).root_of(x) == (if old(self).in_subtree(x, r) {
                r
            } else {
                old(self).root_of(x)
            }),
    {
        proof {
            assert(old(self).node_ok(parent));
        }
        let node = self.take(parent);
        let Node { parent: grand, contents } = node;
        let removed = match contents {
            NodeContents::Branch(data, mut children) => {
                let c = children.remove(index);
                self.put(parent, Node { parent: grand, contents: NodeContents::Branch(data, children) });
                c
            },
            NodeContents::Leaf(_) => unreached(),
        };
        proof {
            assert(old(self).parent_of(removed) == Some(parent));
            assert(old(self).node_ok(removed));
            assert(old(self).path(removed).len() == old(self).path(parent).len() + 1);
            assert(removed != parent);
        }
        let child_node = self.take(removed);
        let Node { parent: _, contents: child_contents } = child_node;
        self.put(removed, Node { parent: None, contents: child_contents });
        let ghost o = *old(self);
        self.paths = Ghost(
            Map::new(
                |x: Id| o.paths().contains_key(x),
                |x: Id| if o.in_subtree(x, removed) {
                    o.path(x).subrange(o.path(removed).len() as int, o.path(x).len() as int)
                } else {
                    o.path(x)
                },
            ),
        );
        proof {
            self.lemma_detach(old(self), parent, index as int, removed);
        }
        removed
    }

    /// Puts the root `new_child` in place of the `index`'th child of the
    /// branch `parent`, and returns the child it replaced, which becomes the
    /// root of a tree of its own.
    pub fn replace_child(&mut self, parent: Id, index: usize, new_child: Id) -> (r: Id)
        requires
            old(self).wf(),
            old(self).live(parent),
            old(self).is_branch(parent),
            index < old(self).children_of(parent).len(),
            old(self).is_root(new_child),
            old(self).root_of(parent) != new_child,
        ensures
            final(self).wf(),
            r == old(self).children_of(parent)[index as int],
            final(self).issued() == old(self).issued(),
            final(self)@.dom() == old(self)@.dom(),
            forall|x: Id| old(self).live(x) && x != parent && x != r && x != new_child ==> #[trigger] final(self)@[x] == old(self)@[x],
            final(self).parent_of(r) is None,
            final(self)@[r].contents == old(self)@[r].contents,
            final(self).parent_of(new_child) == Some(parent),
            final(self)@[new_child].contents == old(self)@[new_child].contents,
            final(self).parent_of(parent) == old(self).parent_of(parent),
            final(self).is_branch(parent),
            final(self).data_of(parent) == old(self).data_of(parent),
            final(self).children_of(parent) == old(self).children_of(parent).update(index as int, new_child),
            forall|x: Id| old(self).live(x) ==> #[trigger] final(self).root_of(x) == (if old(self).in_subtree(x, r) {
                r
            } else if old(self).root_of(x) == new_child {
                old(self).root_of(parent)
            } else {
                old(self).root_of(x)
            }),
    {
        proof {
            assert(old(self).node_ok(new_child));
            assert(old(self).node_ok(parent));
            let c = old(self).children_of(parent)[index as int];
            assert(old(self).node_ok(c));
            assert(old(self).path(c).len() == old(self).path(parent).len() + 1);
            assert(!old(self).in_subtree(parent, c));
            assert(new_child != c);
            assert(!old(self).in_subtree(new_child, c));
        }
        let old_child = self.remove_child(parent, index);
        let ghost mid = *self;
        self.insert_child(parent, index, new_child);
        proof {
            let o = old(self);
            assert(self.children_of(parent) =~= o.children_of(parent).update(index as int, new_child));
            assert forall|x: Id| o.live(x) implies #[trigger] self.root_of(x) == (if o.in_subtree(x, old_child) {
                old_child
            } else if o.root_of(x) == new_child {
                o.root_of(parent)
            } else {
                o.root_of(x)
            }) by {
                assert(mid.root_of(x) == (if o.in_subtree(x, old_child) { old_child } else { o.root_of(x) }));
                if o.in_subtree(x, old_child) {
                    assert(old_child != new_child);
                }
            }
        }
        old_child
    }

    /// Adds a parentless branch whose children are the given roots, and
    /// returns its identifier.
    pub fn create_branch(&mut self, data: D, children: Vec<Id>) -> (r: Id)
        requires
            old(self).wf(),
            old(self).issued() < u64::MAX,
            children@.no_duplicates(),
            forall|k: int| 0 <= k < children@.len() ==> old(self).is_root(#[trigger] children@[k]),
        ensures
            final(self).wf(),
            !old(self).live(r),
            final(self)@.dom() == old(self)@.dom().insert(r),
            final(self).issued() == old(self).issued() + 1,
            final(self).parent_of(r) is None,
            final(self).is_branch(r),
            final(self).data_of(r) == data,
            final(self).children_of(r) == children@,
            forall|x: Id| old(self).live(x) && !children@.contains(x) ==> #[trigger] final(self)@[x] == old(self)@[x],
            forall|k: int| 0 <= k < children@.len() ==> final(self).parent_of(#[trigger] children@[k]) == Some(r)
                && final(self)@[children@[k]].contents == old(self)@[children@[k]].contents,
            forall|x: Id| old(self).live(x) ==> #[trigger] final(self).root_of(x) == (if children@.contains(old(self).root_of(x)) {
                r
            } else {
                old(self).root_of(x)
            }),
    {
        let id = self.fresh();
        self.map.insert(id, Node { parent: None, contents: NodeContents::Branch(data, Vec::new()) });
        self.paths = Ghost(self.paths@.insert(id, Seq::empty()));
        proof {
            let o = old(self);
            assert(self.children_of(id) =~= Seq::<Id>::empty());
            assert forall|x: Id| self.live(x) implies #[trigger] self.node_ok(x) by {
                if x != id {
                    assert(o.node_ok(x));
                    assert(self@[x] == o@[x]);
                    if let Some(p) = self.parent_of(x) {
                        assert(p != id);
                    }
                    assert forall|i: int| 0 <= i < self.path(x).len() implies self.live(#[trigger] self.path(x)[i])
                        && self.path(self.path(x)[i]) == self.path(x).subrange(0, i) by {
                        assert(o.live(o.path(x)[i]));
                    }
                    assert forall|i: int| 0 <= i < self.children_of(x).len() implies self.live(#[trigger] self.children_of(x)[i])
                        && self.parent_of(self.children_of(x)[i]) == Some(x) by {
                        assert(o.live(o.children_of(x)[i]));
                    }
                }
            }
        }
        let ghost start = *self;
        let n = children.len();
        let mut k: usize = 0;
        while k < n
            invariant
                n == children@.len(),
                k <= n,
                children@.no_duplicates(),
                !old(self).live(id),
                old(self).wf(),
                start@.dom() == old(self)@.dom().insert(id),
                forall|x: Id| old(self).live(x) ==> #[trigger] start@[x] == old(self)@[x],
                forall|j: int| 0 <= j < children@.len() ==> old(self).is_root(#[trigger] children@[j]),
                self.wf(),
                self.issued() == old(self).issued() + 1,
                self@.dom() == start@.dom(),
                self.live(id),
                self.parent_of(id) is None,
                self.is_branch(id),
                self.data_of(id) == data,
                self.children_of(id) == children@.subrange(0, k as int),
                self.root_of(id) == id,
                forall|x: Id| start.live(x) && x != id && !children@.subrange(0, k as int).contains(x) ==> #[trigger] self@[x] == start@[x],
                forall|j: int| 0 <= j < k ==> self.parent_of(#[trigger] children@[j]) == Some(id)
                    && self@[children@[j]].contents == old(self)@[children@[j]].contents,
                forall|x: Id| old(self).live(x) ==> #[trigger] self.root_of(x) == (if children@.subrange(0, k as int).contains(old(self).root_of(x)) {
                    id
                } else {
                    old(self).root_of(x)
                }),
                forall|x: Id| old(self).live(x) ==> #[trigger] start.root_of(x) == old(self).root_of(x),
            decreases n - k,
        {
            let c = children[k];
            proof {
                assert(old(self).is_root(children@[k as int]));
                assert(c != id);
                assert(!children@.subrange(0, k as int).contains(c)) by {
                    if children@.subrange(0, k as int).contains(c) {
                        let j = choose|j: int| 0 <= j < k && children@.subrange(0, k as int)[j] == c;
                        assert(children@[j] == children@[k as int]);
                    }
                }
                assert(self@[c] == start@[c]);
                assert(start@[c] == old(self)@[c]);
                assert(old(self).node_ok(c));
                assert(old(self).root_of(c) == c);
            }
            let ghost before = *self;
            self.insert_child(id, k, c);
            proof {
                let sub = children@.subrange(0, k + 1);
                assert(sub =~= children@.subrange(0, k as int).push(c));
                assert(self.children_of(id) =~= sub);
                assert forall|x: Id| start.live(x) && x != id && !sub.contains(x) implies #[trigger] self@[x] == start@[x] by {
                    assert(!children@.subrange(0, k as int).contains(x)) by {
                        if children@.subrange(0, k as int).contains(x) {
                            let j = choose|j: int| 0 <= j < k && children@.subrange(0, k as int)[j] == x;
                            assert(sub[j] == x);
                        }
                    }
                    assert(x != c) by {
                        assert(sub[k as int] == c);
                    }
                }
                assert forall|j: int| 0 <= j < k + 1 implies self.parent_of(#[trigger] children@[j]) == Some(id)
                    && self@[children@[j]].contents == old(self)@[children@[j]].contents by {
                    if j < k {
                        assert(children@[j] != c);
                        assert(children@[j] != id);
                    }
                }
                assert forall|x: Id| old(self).live(x) implies #[trigger] self.root_of(x) == (if sub.contains(old(self).root_of(x)) {
                    id
                } else {
                    old(self).root_of(x)
                }) by {
                    let rx = old(self).root_of(x);
                    assert(before.root_of(x) == (if children@.subrange(0, k as int).contains(rx) { id } else { rx }));
                    assert(sub.contains(rx) == (children@.subrange(0, k as int).contains(rx) || rx == c)) by {
                        if sub.contains(rx) {
                            let j = choose|j: int| 0 <= j < sub.len() && sub[j] == rx;
                            if j < k {
                                assert(children@.subrange(0, k as int)[j] == rx);
                            }
                        }
                        if children@.subrange(0, k as int).contains(rx) {
                            let j = choose|j: int| 0 <= j < k && children@.subrange(0, k as int)[j] == rx;
                            assert(sub[j] == rx);
                        }
                        if rx == c {
                            assert(sub[k as int] == rx);
                        }
                    }
                }
            }
            k = k + 1;
        }
        proof {
            assert(children@.subrange(0, n as int) =~= children@);
            assert forall|x: Id| old(self).live(x) && !children@.contains(x) implies #[trigger] self@[x] == old(self)@[x] by {
                assert(x != id);
                assert(start@[x] == old(self)@[x]);
            }
        }
        id
    }

    proof fn lemma_child_subtree(&self, w: Id, c: Id, x: Id)
        requires
            self.wf(),
            self.live(w),
            self.children_of(w).contains(c),
            self.live(x),
            self.in_subtree(x, c),
        ensures
            self.in_subtree(x, w),
            x != w,
            self.path(c).len() == self.path(w).len() + 1,
    {
        assert(self.node_ok(w));
        let k = choose|k: int| 0 <= k < self.children_of(w).len() && self.children_of(w)[k] == c;
        assert(self.parent_of(c) == Some(w));
        assert(self.node_ok(c));
        let dw = self.path(w).len() as int;
        let dc = dw + 1;
        if x != c {
            self.lemma_path_elem_root(x, dc);
            assert(self.path(x)[dw] == self.path(c)[dw]);
        }
    }

    proof fn lemma_subtree_split(&self, w: Id, x: Id)
        requires
            self.wf(),
            self.live(w),
            self.live(x),
            self.in_subtree(x, w),
            x != w,
        ensures
            exists|k: int| 0 <= k < self.children_of(w).len() && self.in_subtree(x, #[trigger] self.children_of(w)[k]),
    {
        assert(self.node_ok(x));
        let dw = self.path(w).len() as int;
        if self.path(x).len() == dw + 1 {
            let q = self.parent_of(x)->0;
            self.lemma_parent(x);
            assert(self.path(x) == self.path(q).push(q));
            assert(self.path(x)[dw] == q);
            assert(q == w);
            let k = choose|k: int| 0 <= k < self.children_of(w).len() && self.children_of(w)[k] == x;
            assert(self.in_subtree(x, self.children_of(w)[k]));
        } else {
            self.lemma_path_elem_root(x, dw + 1);
            let c = self.path(x)[dw + 1];
            assert(self.path(c) == self.path(x).subrange(0, dw + 1));
            assert(self.node_ok(c));
            assert(self.path(c)[dw] == w);
            assert(self.parent_of(c) is Some);
            let q = self.parent_of(c)->0;
            assert(self.path(c) == self.path(q).push(q));
            assert(self.path(c)[dw] == q);
            assert(q == w);
            let k = choose|k: int| 0 <= k < self.children_of(w).len() && self.children_of(w)[k] == c;
            assert(self.in_subtree(x, self.children_of(w)[k]));
        }
    }

    proof fn lemma_siblings_disjoint(&self, w: Id, k1: int, k2: int, x: Id)
        requires
            self.wf(),
            self.live(w),
            0 <= k1 < self.children_of(w).len(),
            0 <= k2 < self.children_of(w).len(),
            k1 != k2,
            self.in_subtree(x, self.children_of(w)[k1]),
        ensures
            !self.in_subtree(x, self.children_of(w)[k2]),
    {
        assert(self.node_ok(w));
        let c1 = self.children_of(w)[k1];
        let c2 = self.children_of(w)[k2];
        assert(self.node_ok(c1));
        assert(self.node_ok(c2));
        assert(c1 != c2);
    }

    /// The nodes of `o` that lie in the subtree of one of the first `j`
    /// entries of `ch`.
    spec fn covered_by(o: Self, ch: Seq<Id>, j: int) -> Set<Id> {
        o@.dom().filter(|x: Id| exists|k: int| 0 <= k < j && o.in_subtree(x, #[trigger] ch[k]))
    }

    /// Removes from the arena every node of the subtree that `w` has in `o`.
    fn delete_subtree(&mut self, w: Id, Ghost(o): Ghost<Self>)
        requires
            o.wf(),
            o.live(w),
            forall|x: Id| o.live(x) && #[trigger] o.in_subtree(x, w) ==> old(self).live(x) && old(self)@[x] == o@[x],
        ensures
            final(self)@ == old(self)@.remove_keys(o.subtree(w)),
            final(self).paths() == old(self).paths(),
            final(self).issued() == old(self).issued(),
        decreases old(self)@.len(),
    {
        assert(o.in_subtree(w, w));
        let node = self.take(w);
        let ghost base = self@;
        let Node { parent: _, contents } = node;
        match contents {
            NodeContents::Leaf(_) => {
                proof {
                    assert(self@ =~= old(self)@.remove_keys(o.subtree(w))) by {
                        assert forall|x: Id| #[trigger] o.subtree(w).contains(x) implies x == w by {
                            if x != w {
                                o.lemma_subtree_split(w, x);
                            }
                        }
                    }
                }
            },
            NodeContents::Branch(_, children) => {
                let ghost ch = children@;
                assert(ch == o.children_of(w));
                proof {
                    assert(o.node_ok(w));
                }
                let n = children.len();
                let mut j: usize = 0;
                assert(self@ =~= base.remove_keys(Self::covered_by(o, ch, 0)));
                while j < n
                    invariant
                        o.wf(),
                        o.live(w),
                        n == ch.len(),
                        ch == children@,
                        ch == o.children_of(w),
                        j <= n,
                        base == old(self)@.remove(w),
                        old(self).live(w),
                        self@ == base.remove_keys(Self::covered_by(o, ch, j as int)),
                        self.paths() == old(self).paths(),
                        self.issued() == old(self).issued(),
                        forall|x: Id| o.live(x) && #[trigger] o.in_subtree(x, w) ==> old(self).live(x) && old(self)@[x] == o@[x],
                    decreases n - j,
                {
                    let c = children[j];
                    proof {
                        assert(o.node_ok(w));
                        assert(o.live(c));
                        assert(o.children_of(w).contains(c)) by {
                            assert(o.children_of(w)[j as int] == c);
                        }
                        assert forall|x: Id| o.live(x) && #[trigger] o.in_subtree(x, c) implies self.live(x) && self@[x] == o@[x] by {
                            o.lemma_child_subtree(w, c, x);
                            assert(!Self::covered_by(o, ch, j as int).contains(x)) by {
                                if Self::covered_by(o, ch, j as int).contains(x) {
                                    let k = choose|k: int| 0 <= k < j && o.in_subtree(x, #[trigger] ch[k]);
                                    o.lemma_siblings_disjoint(w, k, j as int, x);
                                }
                            }
                        }
                        assert(old(self)@.dom().finite());
                        assert(self@.dom().subset_of(old(self)@.dom().remove(w)));
                        vstd::set_lib::lemma_len_subset(self@.dom(), old(self)@.dom().remove(w));
                        assert(self@.len() < old(self)@.len());
                    }
                    self.delete_subtree(c, Ghost(o));
                    proof {
                        assert(self@ =~= base.remove_keys(Self::covered_by(o, ch, j + 1))) by {
                            assert forall|x: Id| #[trigger] Self::covered_by(o, ch, j + 1).contains(x) <==> (
                            Self::covered_by(o, ch, j as int).contains(x) || o.subtree(c).contains(x)) by {
                                if Self::covered_by(o, ch, j + 1).contains(x) {
                                    let k = choose|k: int| 0 <= k < j + 1 && o.in_subtree(x, #[trigger] ch[k]);
                                    if k < j {
                                        assert(Self::covered_by(o, ch, j as int).contains(x));
                                    }
                                }
                                if o.subtree(c).contains(x) {
                                    assert(o.in_subtree(x, ch[j as int]));
                                }
                                if Self::covered_by(o, ch, j as int).contains(x) {
                                    let k = choose|k: int| 0 <= k < j && o.in_subtree(x, #[trigger] ch[k]);
                                    assert(o.in_subtree(x, ch[k]));
                                }
                            }
                        }
                    }
                    j = j + 1;
                }
                proof {
                    assert(self@ =~= old(self)@.remove_keys(o.subtree(w))) by {
                        assert forall|x: Id| #[trigger] o.subtree(w).contains(x) <==> (x == w || Self::covered_by(o, ch, n as int).contains(x)) by {
                            if o.subtree(w).contains(x) && x != w {
                                o.lemma_subtree_split(w, x);
                                let k = choose|k: int| 0 <= k < o.children_of(w).len() && o.in_subtree(x, #[trigger] o.children_of(w)[k]);
                                assert(o.in_subtree(x, ch[k]));
                            }
                            if Self::covered_by(o, ch, n as int).contains(x) {
                                let k = choose|k: int| 0 <= k < n && o.in_subtree(x, #[trigger] ch[k]);
                                assert(o.children_of(w).contains(ch[k])) by {
                                    assert(o.children_of(w)[k] == ch[k]);
                                }
                                o.lemma_child_subtree(w, ch[k], x);
                            }
                        }
                    }
                }
            },
        }
    }

    /// Removes the tree rooted at `id`, and every node in it, from the arena.
    pub fn delete_tree(&mut self, id: Id)
        requires
            old(self).wf(),
            old(self).is_root(id),
        ensures
            final(self).wf(),
            final(self)@ == old(self)@.remove_keys(old(self).subtree(id)),
            final(self)@.len() == old(self)@.len() - old(self).subtree(id).len(),
            final(self).issued() == old(self).issued(),
            forall|x: Id| #[trigger] final(self).live(x) ==> final(self).root_of(x) == old(self).root_of(x),
    {
        let ghost o = *self;
        proof {
            assert(o.node_ok(id));
        }
        self.delete_subtree(id, Ghost(o));
        proof {
            let s = o.subtree(id);
            assert forall|x: Id| #[trigger] o.live(x) implies (s.contains(x) <==> o.root_of(x) == id) by {
                assert(o.path(id).len() == 0);
            }
            assert forall|x: Id| #[trigger] self.live(x) implies self.node_ok(x) by {
                assert(o.node_ok(x));
                assert(self@[x] == o@[x]);
                assert(o.root_of(x) != id);
                if let Some(q) = self.parent_of(x) {
                    o.lemma_parent(x);
                    assert(self@[q] == o@[q]);
                }
                assert forall|k: int| 0 <= k < self.children_of(x).len() implies self.live(#[trigger] self.children_of(x)[k])
                    && self.parent_of(self.children_of(x)[k]) == Some(x) by {
                    o.lemma_child_root(x, k);
                    let c = o.children_of(x)[k];
                    assert(self@[c] == o@[c]);
                }
                assert forall|k: int| 0 <= k < self.path(x).len() implies self.live(#[trigger] self.path(x)[k])
                    && self.path(self.path(x)[k]) == self.path(x).subrange(0, k) by {
                    o.lemma_path_elem_root(x, k);
                }
            }
            assert(s.subset_of(o@.dom()));
            vstd::set_lib::lemma_set_difference_len(o@.dom(), s);
            assert(o@.dom().intersect(s) =~= s);
            assert(self@.dom() =~= o@.dom().difference(s));
        }
    }
}

} // verus!
