//! The mathematical model of the heap: a ghost binary tree that mirrors the
//! nodes stored in the arena, together with the spec functions that give the
//! tree its meaning (size, contents, handle set, min-heap order).

use vstd::multiset::Multiset;
use vstd::prelude::*;

verus! {

/// Ghost mirror of one heap tree: each node records the arena handle it
/// occupies, the item stored there, and the two subtrees.
pub enum Tree {
    Leaf,
    Node { handle: usize, item: u64, left: Box<Tree>, right: Box<Tree> },
}

/// Number of nodes in the tree.
pub open spec fn tree_size(t: Tree) -> nat
    decreases t,
{
    match t {
        Tree::Leaf => 0,
        Tree::Node { left, right, .. } => 1 + tree_size(*left) + tree_size(*right),
    }
}

/// The multiset of items held by the tree.
pub open spec fn tree_items(t: Tree) -> Multiset<u64>
    decreases t,
{
    match t {
        Tree::Leaf => Multiset::empty(),
        Tree::Node { item, left, right, .. } => tree_items(*left).add(
            tree_items(*right),
        ).insert(item),
    }
}

/// The set of arena handles occupied by the tree.
pub open spec fn tree_handles(t: Tree) -> Set<usize>
    decreases t,
{
    match t {
        Tree::Leaf => Set::empty(),
        Tree::Node { handle, left, right, .. } => tree_handles(*left).union(
            tree_handles(*right),
        ).insert(handle),
    }
}

/// No arena handle appears twice in the tree: each live slot is a child of
/// at most one parent, and never its own ancestor.
pub open spec fn distinct_handles(t: Tree) -> bool
    decreases t,
{
    match t {
        Tree::Leaf => true,
        Tree::Node { handle, left, right, .. } => {
            &&& distinct_handles(*left)
            &&& distinct_handles(*right)
            &&& tree_handles(*left).disjoint(tree_handles(*right))
            &&& !tree_handles(*left).contains(handle)
            &&& !tree_handles(*right).contains(handle)
        },
    }
}

/// Min-heap order: every node's item is no greater than any item in either
/// of its subtrees.
pub open spec fn heap_ordered(t: Tree) -> bool
    decreases t,
{
    match t {
        Tree::Leaf => true,
        Tree::Node { item, left, right, .. } => {
            &&& heap_ordered(*left)
            &&& heap_ordered(*right)
            &&& forall|x: u64| tree_items(*left).contains(x) ==> item <= x
            &&& forall|x: u64| tree_items(*right).contains(x) ==> item <= x
        },
    }
}

/// A tree has as many items as nodes.
pub proof fn lemma_tree_items_len(t: Tree)
    ensures
        tree_items(t).len() == tree_size(t),
    decreases t,
{
    match t {
        Tree::Leaf => {},
        Tree::Node { left, right, .. } => {
            lemma_tree_items_len(*left);
            lemma_tree_items_len(*right);
        },
    }
}

/// The facts that describe a freshly built one-node tree.
pub proof fn lemma_singleton(h: usize, item: u64)
    ensures
        ({
            let t = Tree::Node {
                handle: h,
                item,
                left: Box::new(Tree::Leaf),
                right: Box::new(Tree::Leaf),
            };
            &&& tree_size(t) == 1
            &&& tree_items(t) =~= Multiset::empty().insert(item)
            &&& tree_handles(t) =~= Set::empty().insert(h)
            &&& distinct_handles(t)
            &&& heap_ordered(t)
        }),
{
    broadcast use vstd::group_vstd_default;

    let t = Tree::Node {
        handle: h,
        item,
        left: Box::new(Tree::Leaf),
        right: Box::new(Tree::Leaf),
    };
    assert(tree_size(Tree::Leaf) == 0);
    assert(tree_items(Tree::Leaf) == Multiset::<u64>::empty());
    assert(tree_handles(Tree::Leaf) == Set::<usize>::empty());
    assert(distinct_handles(Tree::Leaf));
    assert(heap_ordered(Tree::Leaf));
    assert(tree_items(t) =~= Multiset::empty().insert(item));
    assert(tree_handles(t) =~= Set::empty().insert(h));
}

/// In a min-heap-ordered tree the root item is a lower bound for every item
/// in the tree, itself included.
pub proof fn lemma_root_is_min(t: Tree)
    requires
        t is Node,
        heap_ordered(t),
    ensures
        forall|x: u64| tree_items(t).contains(x) ==> t->item <= x,
        tree_items(t).contains(t->item),
{
    assert forall|x: u64| tree_items(t).contains(x) implies t->item <= x by {
        if x != t->item {
            assert(tree_items(*t->left).contains(x) || tree_items(*t->right).contains(x));
        }
    }
}

} // verus!
