use synless::forest::{Forest, Id};
use synless::tree::Tree;

fn family(f: &mut Forest<&'static str, &'static str>) -> Tree {
    let leaves = vec![f.new_leaf("elder"), f.new_leaf("younger")];
    f.new_branch("parent", leaves)
}

fn mirror(f: &mut Forest<u32, u32>, height: u32, id: u32) -> Tree {
    if height == 0 {
        f.new_leaf(id)
    } else {
        let mut children = vec![];
        for i in 0..height {
            children.push(mirror(f, i, id + 2_u32.pow(i)));
        }
        f.new_branch(id, children)
    }
}

fn sum(f: &Forest<u32, u32>, id: Id) -> u32 {
    if f.is_leaf(id) {
        *f.leaf(id)
    } else {
        let mut total = *f.data(id);
        for child in f.children(id).clone() {
            total += sum(f, child);
        }
        total
    }
}

fn leaves(f: &Forest<&'static str, &'static str>, tree: &Tree) -> Vec<&'static str> {
    f.children(tree.id()).iter().map(|c| *f.leaf(*c)).collect()
}

#[test]
fn test_leaves() {
    let mut f: Forest<(), u32> = Forest::new();
    let tree = f.new_leaf(2);
    assert!(tree.is_leaf(&f));
    assert_eq!(*tree.leaf(&f), 2);
    *tree.leaf_mut(&mut f) = 3;
    assert!(tree.is_leaf(&f));
    assert_eq!(*tree.leaf(&f), 3);
    tree.delete(&mut f);
    assert_eq!(f.tree_count(), 0);
}

#[test]
fn test_data() {
    let mut f: Forest<u32, ()> = Forest::new();
    let tree = f.new_branch(2, vec![]);
    assert!(!tree.is_leaf(&f));
    assert_eq!(*tree.data(&f), 2);
    *tree.data_mut(&mut f) = 3;
    assert!(!tree.is_leaf(&f));
    assert_eq!(*tree.data(&f), 3);
    tree.delete(&mut f);
}

#[test]
fn test_num_children() {
    let mut f: Forest<(), ()> = Forest::new();
    let leaves = vec![f.new_leaf(()), f.new_leaf(()), f.new_leaf(())];
    let tree = f.new_branch((), leaves);
    assert_eq!(tree.num_children(&f), 3);
    tree.delete(&mut f);
}

#[test]
fn test_navigation_ref() {
    let mut f: Forest<&'static str, &'static str> = Forest::new();
    let mut tree = family(&mut f);
    tree.goto_child(&f, 0);
    assert_eq!(*tree.leaf(&f), "elder");
    tree.goto_root();
    tree.goto_child(&f, 1);
    assert_eq!(*tree.leaf(&f), "younger");
    tree.goto_root();
    tree.goto_child(&f, 0);
    assert!(!tree.at_root(&f));
    tree.goto_parent(&f);
    assert_eq!(*tree.data(&f), "parent");
    assert!(f.parent(tree.id()).is_none());
    assert_eq!(leaves(&f, &tree), vec!["elder", "younger"]);
    tree.delete(&mut f);
}

#[test]
fn test_navigation_mut() {
    let mut f: Forest<&'static str, &'static str> = Forest::new();
    let mut tree = family(&mut f);
    tree.goto_child(&f, 1);
    assert_eq!(*tree.leaf(&f), "younger");
    assert!(!tree.at_root(&f));
    tree.goto_parent(&f);
    assert!(tree.at_root(&f));
    assert_eq!(*tree.data(&f), "parent");
    tree.goto_child(&f, 0);
    assert_eq!(*tree.leaf(&f), "elder");
    tree.delete(&mut f);
}

#[test]
fn test_bookmark_ref() {
    let mut f: Forest<&'static str, &'static str> = Forest::new();
    let mut tree = family(&mut f);
    let mut other_tree = f.new_leaf("stranger");
    tree.goto_child(&f, 1);
    let bookmark = tree.bookmark();
    tree.goto_root();
    assert!(!other_tree.goto_bookmark(&f, bookmark));
    assert_eq!(*other_tree.leaf(&f), "stranger");
    assert!(tree.goto_bookmark(&f, bookmark));
    assert_eq!(*tree.leaf(&f), "younger");
    tree.goto_root();
    tree.goto_child(&f, 0);
    assert!(tree.goto_bookmark(&f, bookmark));
    assert_eq!(*tree.leaf(&f), "younger");
    tree.delete(&mut f);
    other_tree.delete(&mut f);
}

#[test]
fn test_bookmark_mut() {
    let mut f: Forest<&'static str, &'static str> = Forest::new();
    let mut tree = family(&mut f);
    let mut other_tree = f.new_leaf("stranger");
    let bookmark = {
        tree.goto_child(&f, 1);
        let b = tree.bookmark();
        tree.goto_root();
        b
    };
    assert!(!other_tree.goto_bookmark(&f, bookmark));
    assert!(tree.goto_bookmark(&f, bookmark));
    assert_eq!(*tree.leaf(&f), "younger");
    tree.goto_root();
    tree.goto_child(&f, 0);
    assert!(tree.goto_bookmark(&f, bookmark));
    assert_eq!(*tree.leaf(&f), "younger");
    tree.delete(&mut f);
    other_tree.delete(&mut f);
}

#[test]
fn test_bookmark_deleted() {
    let mut f: Forest<&'static str, &'static str> = Forest::new();
    let mut tree = family(&mut f);
    tree.goto_child(&f, 1);
    let bookmark = tree.bookmark();
    tree.goto_root();
    let child = tree.remove_child(&mut f, 1);
    child.delete(&mut f);
    assert!(!tree.goto_bookmark(&f, bookmark));
    assert!(tree.at_root(&f));
    tree.delete(&mut f);
}

#[test]
fn test_replace_child() {
    let mut f: Forest<&'static str, &'static str> = Forest::new();
    let mut tree = family(&mut f);
    let old_imposter = f.new_leaf("oldImposter");
    let young_imposter = f.new_leaf("youngImposter");
    let elder = tree.replace_child(&mut f, 0, old_imposter);
    let younger = tree.replace_child(&mut f, 1, young_imposter);
    assert_eq!(*elder.leaf(&f), "elder");
    assert_eq!(*younger.leaf(&f), "younger");
    assert_eq!(tree.num_children(&f), 2);
    assert_eq!(leaves(&f, &tree), vec!["oldImposter", "youngImposter"]);
    tree.delete(&mut f);
    elder.delete(&mut f);
    younger.delete(&mut f);
    assert_eq!(f.tree_count(), 0);
}

#[test]
fn test_remove_child() {
    let mut f: Forest<&'static str, &'static str> = Forest::new();
    let mut tree = family(&mut f);
    let elder = tree.remove_child(&mut f, 0);
    assert_eq!(*elder.leaf(&f), "elder");
    assert!(f.parent(elder.id()).is_none());
    assert_eq!(tree.num_children(&f), 1);
    tree.goto_child(&f, 0);
    assert_eq!(*tree.leaf(&f), "younger");
    assert!(!tree.at_root(&f));
    tree.goto_parent(&f);
    assert_eq!(*tree.data(&f), "parent");
    let younger = tree.remove_child(&mut f, 0);
    assert_eq!(*younger.leaf(&f), "younger");
    assert!(f.parent(younger.id()).is_none());
    assert_eq!(tree.num_children(&f), 0);
    tree.delete(&mut f);
    elder.delete(&mut f);
    younger.delete(&mut f);
}

#[test]
fn test_insert_child() {
    let mut f: Forest<&'static str, &'static str> = Forest::new();
    let mut tree = family(&mut f);
    let malcolm = f.new_leaf("Malcolm");
    let reese = f.new_leaf("Reese");
    let dewey = f.new_leaf("Dewey");
    tree.insert_child(&mut f, 1, malcolm);
    tree.insert_child(&mut f, 0, reese);
    tree.insert_child(&mut f, 4, dewey);
    assert_eq!(leaves(&f, &tree), vec!["Reese", "elder", "Malcolm", "younger", "Dewey"]);
    tree.goto_child(&f, 0);
    assert!(!tree.at_root(&f));
    tree.goto_parent(&f);
    assert_eq!(*tree.data(&f), "parent");
    tree.goto_child(&f, 1);
    assert!(!tree.at_root(&f));
    tree.goto_parent(&f);
    assert_eq!(*tree.data(&f), "parent");
    tree.delete(&mut f);
    assert_eq!(f.tree_count(), 0);
}

#[test]
fn comprehensive_exam() {
    let mut f: Forest<u32, u32> = Forest::new();
    let mut tree = mirror(&mut f, 3, 0);
    let mut canada = f.new_branch(721, vec![]);
    let mut mexico = f.new_leaf(3767);
    assert_eq!(f.tree_count(), 8 + 1 + 1);

    // Data access
    assert_eq!(sum(&f, tree.id()), 28);
    assert_eq!(tree.num_children(&f), 3);

    // Navigation, data access
    tree.goto_child(&f, 2);
    tree.goto_child(&f, 0);
    assert!(tree.is_leaf(&f));
    assert_eq!(*tree.leaf(&f), 5);
    let mark5 = tree.bookmark();
    assert!(!tree.at_root(&f));
    tree.goto_parent(&f);
    assert_eq!(*tree.data(&f), 4);
    let mark4 = tree.bookmark();
    assert!(!tree.at_root(&f));
    tree.goto_parent(&f);
    assert!(tree.at_root(&f));

    // Bookmarks: successful lookup
    tree.goto_child(&f, 1);
    assert!(tree.goto_bookmark(&f, mark5));
    assert!(!tree.at_root(&f));
    tree.goto_parent(&f);
    assert_eq!(*tree.data(&f), 4);
    assert!(tree.goto_bookmark(&f, mark4));
    assert!(!tree.at_root(&f));
    tree.goto_parent(&f);
    tree.goto_child(&f, 1);
    assert_eq!(*tree.data(&f), 2);

    // Bookmarks: failing lookup
    assert!(!canada.goto_bookmark(&f, mark5));
    let mark_mexico = mexico.bookmark();
    assert!(!tree.goto_bookmark(&f, mark_mexico));

    let mark2 = tree.bookmark();
    tree.goto_root();

    // Navigate
    assert!(!tree.is_leaf(&f));
    tree.goto_child(&f, 1);
    assert_eq!(*tree.data(&f), 2);
    // Data mutation
    *tree.data_mut(&mut f) = 22;
    assert_eq!(*tree.data(&f), 22);
    assert_eq!(tree.num_children(&f), 1);
    // Navigate
    assert!(!tree.at_root(&f));
    tree.goto_parent(&f);
    let mark0 = tree.bookmark();
    assert!(tree.at_root(&f));

    // Cut
    let mut snip = tree.remove_child(&mut f, 1);
    assert_eq!(*snip.data(&f), 22);
    assert_eq!(sum(&f, tree.id()), 23);
    assert_eq!(f.tree_count(), 10);

    // Paste
    tree.goto_child(&f, 1);
    tree.insert_child(&mut f, 1, snip);
    tree.insert_child(&mut f, 3, mexico);

    // Leaf mutation
    tree.goto_child(&f, 3);
    assert!(tree.is_leaf(&f));
    assert_eq!(*tree.leaf(&f), 3767);
    let mark3767 = tree.bookmark();
    *tree.leaf_mut(&mut f) = 376;
    assert_eq!(*tree.leaf(&f), 376);
    assert!(!tree.at_root(&f));
    tree.goto_parent(&f);
    assert!(!tree.is_leaf(&f));

    // Replace
    snip = tree.replace_child(&mut f, 1, canada);
    assert!(f.parent(snip.id()).is_none());
    tree.goto_child(&f, 1);
    assert_eq!(*tree.data(&f), 721);
    tree.goto_parent(&f);
    assert_eq!(*tree.data(&f), 4);
    // Further mucking
    mexico = tree.remove_child(&mut f, 3);
    assert!(f.parent(mexico.id()).is_none());
    snip.insert_child(&mut f, 0, mexico);
    canada = snip;
    tree.goto_child(&f, 2);

    // Bookmarks after mutation
    assert!(!tree.goto_bookmark(&f, mark2));
    assert_eq!(*tree.data(&f), 6);
    assert!(tree.goto_bookmark(&f, mark4));
    assert_eq!(*tree.data(&f), 4);
    assert!(canada.goto_bookmark(&f, mark3767));
    assert_eq!(*canada.leaf(&f), 376);
    assert!(!canada.goto_bookmark(&f, mark0));

    // Bookmarks once more, from another position
    tree.goto_root();
    tree.goto_child(&f, 0);
    assert!(!tree.goto_bookmark(&f, mark2));
    assert!(tree.goto_bookmark(&f, mark4));
    assert_eq!(sum(&f, tree.id()), 743);
    // Sums after all the edits
    assert_eq!(sum(&f, tree.root_id()), 744);
    assert_eq!(sum(&f, canada.root_id()), 401);

    // Cleanup
    canada.delete(&mut f);
    tree.delete(&mut f);
    assert_eq!(f.tree_count(), 0);
}

#[test]
fn splice_keeps_roots_and_links() {
    let mut f: Forest<u32, u32> = Forest::new();
    let mut tree = mirror(&mut f, 2, 0);
    let root = tree.root_id();
    // every child reports the same root as its parent
    for c in f.children(root).clone() {
        assert_eq!(f.root(c), root);
        assert_eq!(f.parent(c), Some(root));
    }
    let extra = f.new_leaf(9);
    let extra_id = extra.root_id();
    let before = f.children(root).clone();
    tree.insert_child(&mut f, 1, extra);
    let mut expected = before.clone();
    expected.insert(1, extra_id);
    assert_eq!(*f.children(root), expected);
    assert_eq!(f.parent(extra_id), Some(root));
    assert_eq!(f.root(extra_id), root);
    tree.delete(&mut f);
}

#[test]
fn delete_removes_exactly_the_subtree() {
    let mut f: Forest<u32, u32> = Forest::new();
    let tree = mirror(&mut f, 3, 0);
    let other = mirror(&mut f, 2, 100);
    assert_eq!(f.tree_count(), 8 + 4);
    let ids: Vec<Id> = f.children(tree.root_id()).clone();
    tree.delete(&mut f);
    assert_eq!(f.tree_count(), 4);
    for id in ids {
        assert!(!f.is_valid(id));
    }
    assert!(f.is_valid(other.root_id()));
    other.delete(&mut f);
    assert_eq!(f.tree_count(), 0);
}

#[test]
fn bookmark_survives_unrelated_splices() {
    let mut f: Forest<u32, u32> = Forest::new();
    let mut tree = mirror(&mut f, 3, 0);
    tree.goto_child(&f, 2);
    tree.goto_child(&f, 1);
    let mark6 = tree.bookmark();
    tree.goto_root();
    let removed = tree.remove_child(&mut f, 0);
    let fresh = f.new_leaf(50);
    tree.insert_child(&mut f, 0, fresh);
    assert!(tree.goto_bookmark(&f, mark6));
    assert_eq!(*tree.data(&f), 6);
    removed.delete(&mut f);
    tree.delete(&mut f);
}

#[test]
fn identifiers_are_not_reused() {
    let mut f: Forest<u32, u32> = Forest::new();
    let a = f.new_leaf(1);
    let a_id = a.root_id();
    a.delete(&mut f);
    let b = f.new_leaf(2);
    assert_ne!(a_id, b.root_id());
    assert!(!f.is_valid(a_id));
    b.delete(&mut f);
}
