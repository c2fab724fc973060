use vstd::prelude::*;
use crate::forest::{Forest, Id};

verus! {

/// A cursor into a tree of a forest that owns the whole tree: `root` is
/// the tree's top and `id` the node the cursor is at. A handle is used
/// with the forest it came from, and consumed when its tree is deleted or
/// spliced into another.
pub struct Tree {
    root: Id,
    id: Id,
}

/// A saved position: the identifier of a node, looked up again on use.
#[derive(Clone, Copy, Debug, PartialEq, Eq, Structural)]
pub struct Bookmark {
    id: Id,
}

impl Bookmark {
    pub closed spec fn node(&self) -> Id {
        self.id
    }
}

impl Tree {
    /// The top of the owned tree.
    pub closed spec fn root(&self) -> Id {
        self.root
    }

    /// The node the cursor is at.
    pub closed spec fn focus(&self) -> Id {
        self.id
    }

    /// The handle fits `f`: it owns a whole tree of `f`, and the cursor is
    /// in that tree.
    pub open spec fn valid_in<D, L>(&self, f: Forest<D, L>) -> bool {
        &&& f.wf()
        &&& f.is_root(self.root())
        &&& f.live(self.focus())
        &&& f.root_of(self.focus()) == self.root()
    }

    /// The nodes that this handle owns.
    pub open spec fn members<D, L>(&self, f: Forest<D, L>) -> Set<Id> {
        f.subtree(self.root())
    }

    /// The identifier of the node the cursor is at.
    pub fn id(&self) -> (r: Id)
        ensures
            r == self.focus(),
    {
        self.id
    }

    /// The identifier of the top of the owned tree.
    pub fn root_id(&self) -> (r: Id)
        ensures
            r == self.root(),
    {
        self.root
    }

    /// A bookmark of a node inside this handle's tree leads back to it:
    /// `goto_bookmark` succeeds exactly for the nodes of the tree. Each
    /// splice says which nodes stay in the tree, so a bookmark outlives
    /// edits that keep its node there.
    pub proof fn lemma_bookmark_resolves<D, L>(&self, f: Forest<D, L>, mark: Bookmark)
        requires
            self.valid_in(f),
        ensures
            self.members(f).contains(mark.node()) <==> (f.live(mark.node()) && f.root_of(mark.node()) == self.root()),
    {
        f.lemma_root(self.root());
        if f.live(mark.node()) {
            f.lemma_root(mark.node());
        }
    }

    /// Whether the cursor is at a leaf.
    pub fn is_leaf<D, L>(&self, f: &Forest<D, L>) -> (r: bool)
        requires
            self.valid_in(*f),
        ensures
            r == !f.is_branch(self.focus()),
    {
        f.is_leaf(self.id)
    }

    /// The data payload at the cursor, which must be at a branch.
    pub fn data<'a, D, L>(&self, f: &'a Forest<D, L>) -> (r: &'a D)
        requires
            self.valid_in(*f),
            f.is_branch(self.focus()),
        ensures
            *r == f.data_of(self.focus()),
    {
        f.data(self.id)
    }

    /// The leaf payload at the cursor, which must be at a leaf.
    pub fn leaf<'a, D, L>(&self, f: &'a Forest<D, L>) -> (r: &'a L)
        requires
            self.valid_in(*f),
            !f.is_branch(self.focus()),
        ensures
            *r == f.leaf_of(self.focus()),
    {
        f.leaf(self.id)
    }

    /// The number of children of the branch at the cursor.
    pub fn num_children<D, L>(&self, f: &Forest<D, L>) -> (r: usize)
        requires
            self.valid_in(*f),
            f.is_branch(self.focus()),
        ensures
            r == f.children_of(self.focus()).len(),
    {
        f.children(self.id).len()
    }

    /// Mutable access to the data payload at the cursor, which must be at
    /// a branch.
    pub fn data_mut<'a, D, L>(&self, f: &'a mut Forest<D, L>) -> (r: &'a mut D)
        requires
            self.valid_in(*old(f)),
            old(f).is_branch(self.focus()),
        ensures
            *r == old(f).data_of(self.focus()),
            final(f).data_of(self.focus()) == *final(r),
            self.valid_in(*final(f)),
            final(f).issued() == old(f).issued(),
            final(f).is_branch(self.focus()),
            final(f).children_of(self.focus()) == old(f).children_of(self.focus()),
            final(f)@.dom() == old(f)@.dom(),
            forall|x: Id| old(f).live(x) && x != self.focus() ==> #[trigger] final(f)@[x] == old(f)@[x],
            forall|x: Id| #[trigger] old(f).live(x) ==> final(f).root_of(x) == old(f).root_of(x),
    {
        f.data_mut(self.id)
    }

    /// Mutable access to the leaf payload at the cursor, which must be at
    /// a leaf.
    pub fn leaf_mut<'a, D, L>(&self, f: &'a mut Forest<D, L>) -> (r: &'a mut L)
        requires
            self.valid_in(*old(f)),
            !old(f).is_branch(self.focus()),
        ensures
            *r == old(f).leaf_of(self.focus()),
            final(f).leaf_of(self.focus()) == *final(r),
            self.valid_in(*final(f)),
            final(f).issued() == old(f).issued(),
            !final(f).is_branch(self.focus()),
            final(f)@.dom() == old(f)@.dom(),
            forall|x: Id| old(f).live(x) && x != self.focus() ==> #[trigger] final(f)@[x] == old(f)@[x],
            forall|x: Id| #[trigger] old(f).live(x) ==> final(f).root_of(x) == old(f).root_of(x),
    {
        f.leaf_mut(self.id)
    }

    /// Puts the tree of `tree` in place of the `i`'th child of the branch
    /// at the cursor, and returns a handle that owns the child it replaced.
    pub fn replace_child<D, L>(&mut self, f: &mut Forest<D, L>, i: usize, tree: Tree) -> (r: Tree)
        requires
            old(self).valid_in(*old(f)),
            tree.valid_in(*old(f)),
            tree.root() != old(self).root(),
            old(f).is_branch(old(self).focus()),
            i < old(f).children_of(old(self).focus()).len(),
        ensures
            *final(self) == *old(self),
            final(self).valid_in(*final(f)),
            r.valid_in(*final(f)),
            r.root() == old(f).children_of(old(self).focus())[i as int],
            r.focus() == r.root(),
            final(f).children_of(old(self).focus()) == old(f).children_of(old(self).focus()).update(
                i as int,
                tree.root(),
            ),
            final(f).parent_of(tree.root()) == Some(old(self).focus()),
            final(f)@[tree.root()].contents == old(f)@[tree.root()].contents,
            final(f).parent_of(r.root()) is None,
            final(f)@[r.root()].contents == old(f)@[r.root()].contents,
            final(f).parent_of(old(self).focus()) == old(f).parent_of(old(self).focus()),
            final(f).is_branch(old(self).focus()),
            final(f).data_of(old(self).focus()) == old(f).data_of(old(self).focus()),
            forall|x: Id| old(f).live(x) && x != old(self).focus() && x != r.root() && x != tree.root()
                ==> #[trigger] final(f)@[x] == old(f)@[x],
            final(f)@.dom() == old(f)@.dom(),
            final(f).issued() == old(f).issued(),
            forall|x: Id| #[trigger] old(f).live(x) && old(f).root_of(x) == old(self).root() && !old(f).in_subtree(x, r.root())
                ==> final(f).root_of(x) == old(self).root(),
    {
        proof {
            old(f).lemma_root(tree.root);
        }
        let old_id = f.replace_child(self.id, i, tree.root);
        proof {
            old(f).lemma_child_root(self.id, i as int);
            assert(!old(f).in_subtree(self.id, old_id)) by {
                old(f).lemma_parent(old_id);
            }
        }
        Tree { root: old_id, id: old_id }
    }

    /// Inserts the tree of `tree` as the `i`'th child of the branch at the
    /// cursor.
    pub fn insert_child<D, L>(&mut self, f: &mut Forest<D, L>, i: usize, tree: Tree)
        requires
            old(self).valid_in(*old(f)),
            tree.valid_in(*old(f)),
            tree.root() != old(self).root(),
            old(f).is_branch(old(self).focus()),
            i <= old(f).children_of(old(self).focus()).len(),
        ensures
            *final(self) == *old(self),
            final(self).valid_in(*final(f)),
            final(f).children_of(old(self).focus()) == old(f).children_of(old(self).focus()).insert(
                i as int,
                tree.root(),
            ),
            final(f).parent_of(tree.root()) == Some(old(self).focus()),
            final(f)@[tree.root()].contents == old(f)@[tree.root()].contents,
            final(f).parent_of(old(self).focus()) == old(f).parent_of(old(self).focus()),
            final(f).is_branch(old(self).focus()),
            final(f).data_of(old(self).focus()) == old(f).data_of(old(self).focus()),
            forall|x: Id| old(f).live(x) && x != old(self).focus() && x != tree.root() ==> #[trigger] final(f)@[x]
                == old(f)@[x],
            final(f)@.dom() == old(f)@.dom(),
            final(f).issued() == old(f).issued(),
            forall|x: Id| #[trigger] old(f).live(x) && (old(f).root_of(x) == old(self).root() || old(f).root_of(x)
                == tree.root()) ==> final(f).root_of(x) == old(self).root(),
    {
        proof {
            old(f).lemma_root(tree.root);
        }
        f.insert_child(self.id, i, tree.root);
    }

    /// Removes the `i`'th child of the branch at the cursor, and returns a
    /// handle that owns it.
    pub fn remove_child<D, L>(&mut self, f: &mut Forest<D, L>, i: usize) -> (r: Tree)
        requires
            old(self).valid_in(*old(f)),
            old(f).is_branch(old(self).focus()),
            i < old(f).children_of(old(self).focus()).len(),
        ensures
            *final(self) == *old(self),
            final(self).valid_in(*final(f)),
            r.valid_in(*final(f)),
            r.root() == old(f).children_of(old(self).focus())[i as int],
            r.focus() == r.root(),
            final(f).children_of(old(self).focus()) == old(f).children_of(old(self).focus()).remove(i as int),
            final(f).parent_of(r.root()) is None,
            final(f)@[r.root()].contents == old(f)@[r.root()].contents,
            final(f).parent_of(old(self).focus()) == old(f).parent_of(old(self).focus()),
            final(f).is_branch(old(self).focus()),
            final(f).data_of(old(self).focus()) == old(f).data_of(old(self).focus()),
            forall|x: Id| old(f).live(x) && x != old(self).focus() && x != r.root() ==> #[trigger] final(f)@[x]
                == old(f)@[x],
            final(f)@.dom() == old(f)@.dom(),
            final(f).issued() == old(f).issued(),
            forall|x: Id| #[trigger] old(f).live(x) && old(f).root_of(x) == old(self).root() && !old(f).in_subtree(x, r.root())
                ==> final(f).root_of(x) == old(self).root(),
    {
        let old_id = f.remove_child(self.id, i);
        proof {
            old(f).lemma_child_root(self.id, i as int);
            assert(!old(f).in_subtree(self.id, old_id)) by {
                old(f).lemma_parent(old_id);
            }
            assert(old(f).in_subtree(old_id, old_id));
            assert(!old(f).in_subtree(self.root, old_id)) by {
                old(f).lemma_root(self.id);
                old(f).lemma_parent(old_id);
            }
        }
        Tree { root: old_id, id: old_id }
    }

    /// Saves the cursor's position.
    pub fn bookmark(&self) -> (r: Bookmark)
        ensures
            r.node() == self.focus(),
    {
        Bookmark { id: self.id }
    }

    /// Moves the cursor to the bookmarked node if that node is still in
    /// this handle's tree, and says whether it did.
    pub fn goto_bookmark<D, L>(&mut self, f: &Forest<D, L>, mark: Bookmark) -> (r: bool)
        requires
            old(self).valid_in(*f),
        ensures
            r == (f.live(mark.node()) && f.root_of(mark.node()) == old(self).root()),
            final(self).root() == old(self).root(),
            final(self).focus() == (if r { mark.node() } else { old(self).focus() }),
            final(self).valid_in(*f),
    {
        if f.is_valid(mark.id) && f.root(mark.id) == self.root {
            self.id = mark.id;
            true
        } else {
            false
        }
    }

    /// Whether the cursor is at the top of the tree.
    pub fn at_root<D, L>(&self, f: &Forest<D, L>) -> (r: bool)
        requires
            self.valid_in(*f),
        ensures
            r == (self.focus() == self.root()),
    {
        proof {
            f.lemma_root(self.id);
        }
        match f.parent(self.id) {
            None => true,
            Some(_) => false,
        }
    }

    /// Moves the cursor to the top of the tree.
    pub fn goto_root(&mut self)
        ensures
            final(self).root() == old(self).root(),
            final(self).focus() == old(self).root(),
    {
        self.id = self.root;
    }

    /// Moves the cursor to its parent; the cursor must not be at the top
    /// of the tree.
    pub fn goto_parent<D, L>(&mut self, f: &Forest<D, L>)
        requires
            old(self).valid_in(*f),
            old(self).focus() != old(self).root(),
        ensures
            f.parent_of(old(self).focus()) is Some,
            final(self).root() == old(self).root(),
            final(self).focus() == f.parent_of(old(self).focus())->0,
            final(self).valid_in(*f),
    {
        proof {
            f.lemma_root(self.id);
            f.lemma_parent(self.id);
        }
        match f.parent(self.id) {
            Some(p) => {
                self.id = p;
            },
            None => unreached(),
        }
    }

    /// Moves the cursor to the `i`'th child of the branch it is at.
    pub fn goto_child<D, L>(&mut self, f: &Forest<D, L>, i: usize)
        requires
            old(self).valid_in(*f),
            f.is_branch(old(self).focus()),
            i < f.children_of(old(self).focus()).len(),
        ensures
            final(self).root() == old(self).root(),
            final(self).focus() == f.children_of(old(self).focus())[i as int],
            final(self).valid_in(*f),
    {
        proof {
            f.lemma_child_root(self.id, i as int);
        }
        self.id = f.child(self.id, i);
    }

    /// Deletes this handle's tree, and every node in it, from the forest.
    pub fn delete<D, L>(self, f: &mut Forest<D, L>)
        requires
            self.valid_in(*old(f)),
        ensures
            final(f).wf(),
            final(f).issued() == old(f).issued(),
            final(f)@ == old(f)@.remove_keys(self.members(*old(f))),
            final(f)@.len() == old(f)@.len() - self.members(*old(f)).len(),
            forall|x: Id| #[trigger] final(f).live(x) ==> final(f).root_of(x) == old(f).root_of(x),
    {
        f.delete_tree(self.root);
    }
}

impl<D, L> Forest<D, L> {
    /// A new tree that is a single leaf.
    pub fn new_leaf(&mut self, leaf: L) -> (r: Tree)
        requires
            old(self).wf(),
            old(self).issued() < u64::MAX,
        ensures
            r.valid_in(*final(self)),
            r.focus() == r.root(),
            !old(self).live(r.root()),
            final(self).issued() == old(self).issued() + 1,
            final(self)@ == old(self)@.insert(
                r.root(),
                crate::forest::Node { parent: None, contents: crate::forest::NodeContents::Leaf(leaf) },
            ),
            forall|x: Id| #[trigger] old(self).live(x) ==> final(self).root_of(x) == old(self).root_of(x),
    {
        let id = self.create_leaf(leaf);
        Tree { root: id, id }
    }

    /// A new tree whose root is a branch with the given data, and whose
    /// children are the trees of the given handles, in order.
    pub fn new_branch(&mut self, data: D, children: Vec<Tree>) -> (r: Tree)
        requires
            old(self).wf(),
            old(self).issued() < u64::MAX,
            forall|k: int| 0 <= k < children@.len() ==> (#[trigger] children@[k]).valid_in(*old(self)),
            forall|j: int, k: int| 0 <= j < children@.len() && 0 <= k < children@.len() && j != k
                ==> (#[trigger] children@[j]).root() != (#[trigger] children@[k]).root(),
        ensures
            r.valid_in(*final(self)),
            r.focus() == r.root(),
            !old(self).live(r.root()),
            final(self).issued() == old(self).issued() + 1,
            final(self)@.dom() == old(self)@.dom().insert(r.root()),
            final(self).parent_of(r.root()) is None,
            forall|x: Id| old(self).live(x) && !children@.map_values(|t: Tree| t.root()).contains(x)
                ==> #[trigger] final(self)@[x] == old(self)@[x],
            forall|k: int| 0 <= k < children@.len() ==> final(self)@[#[trigger] children@[k].root()].contents
                == old(self)@[children@[k].root()].contents,
            final(self).is_branch(r.root()),
            final(self).data_of(r.root()) == data,
            final(self).children_of(r.root()) == children@.map_values(|t: Tree| t.root()),
            forall|k: int| 0 <= k < children@.len() ==> final(self).parent_of(#[trigger] children@[k].root()) == Some(r.root()),
    {
        let mut ids: Vec<Id> = Vec::new();
        let mut k: usize = 0;
        while k < children.len()
            invariant
                k <= children@.len(),
                ids@ == children@.subrange(0, k as int).map_values(|t: Tree| t.root()),
            decreases children@.len() - k,
        {
            ids.push(children[k].root);
            proof {
                assert(children@.subrange(0, k + 1).map_values(|t: Tree| t.root()) =~= children@.subrange(
                    0,
                    k as int,
                ).map_values(|t: Tree| t.root()).push(children@[k as int].root()));
            }
            k = k + 1;
        }
        proof {
            assert(children@.subrange(0, children@.len() as int) =~= children@);
            assert(ids@.no_duplicates()) by {
                assert forall|a: int, b: int| 0 <= a < ids@.len() && 0 <= b < ids@.len() && a != b implies ids@[a] != ids@[b] by {
                    assert(ids@[a] == children@[a].root());
                    assert(ids@[b] == children@[b].root());
                }
            }
            assert forall|j: int| 0 <= j < ids@.len() implies old(self).is_root(#[trigger] ids@[j]) by {
                assert(ids@[j] == children@[j].root());
                assert(children@[j].valid_in(*old(self)));
            }
        }
        let id = self.create_branch(data, ids);
        proof {
            assert forall|j: int| 0 <= j < children@.len() implies self.parent_of(#[trigger] children@[j].root()) == Some(id) by {
                assert(ids@[j] == children@[j].root());
            }
            self.lemma_root(id);
        }
        Tree { root: id, id }
    }
}

} // verus!
