//! The node arena: a flat slot table addressed by integer handles, and the
//! correspondence between a region of the table and the ghost tree that its
//! live slots form.

use crate::model::{tree_handles, Tree};
use vstd::prelude::*;

verus! {

broadcast use vstd::group_vstd_default;

/// One arena slot: either free (reclaimable through the free list) or live,
/// holding an item and the handles of the node's children.
#[derive(Clone, Copy)]
pub(crate) enum Slot {
    Free,
    Live { item: u64, left: Option<usize>, right: Option<usize> },
}

/// The slot table `a`, starting from root handle `root`, spells out exactly
/// the ghost tree `t`: each ghost node names a live slot holding its item,
/// whose child handles spell out its subtrees in turn.
pub(crate) open spec fn corresponds(a: Seq<Slot>, root: Option<usize>, t: Tree) -> bool
    decreases t,
{
    match t {
        Tree::Leaf => root is None,
        Tree::Node { handle, item, left, right } => {
            &&& root == Some(handle)
            &&& handle < a.len()
            &&& a[handle as int] matches Slot::Live { item: si, left: sl, right: sr }
                && si == item
                && corresponds(a, sl, *left)
                && corresponds(a, sr, *right)
        },
    }
}

/// Every handle of a tree spelled out by `a` indexes into `a`.
pub(crate) proof fn lemma_handles_bounded(a: Seq<Slot>, root: Option<usize>, t: Tree)
    requires
        corresponds(a, root, t),
    ensures
        forall|h: usize| tree_handles(t).contains(h) ==> h < a.len(),
    decreases t,
{
    match t {
        Tree::Leaf => {},
        Tree::Node { handle, left, right, .. } => {
            let sl = a[handle as int]->left;
            let sr = a[handle as int]->right;
            lemma_handles_bounded(a, sl, *left);
            lemma_handles_bounded(a, sr, *right);
            assert(tree_handles(t) == tree_handles(*left).union(tree_handles(*right)).insert(
                handle,
            ));
            assert forall|h: usize| tree_handles(t).contains(h) implies h < a.len() by {
                if h != handle {
                    assert(tree_handles(*left).contains(h) || tree_handles(*right).contains(h));
                }
            }
        },
    }
}

/// Correspondence only reads the slots at the tree's own handles: any table
/// that agrees with `a1` on those slots spells out the same tree.
pub(crate) proof fn lemma_corresponds_frame(a1: Seq<Slot>, a2: Seq<Slot>, root: Option<usize>, t: Tree)
    requires
        corresponds(a1, root, t),
        forall|h: usize|
            #[trigger] tree_handles(t).contains(h) ==> h < a2.len() && a2[h as int] == a1[h as int],
    ensures
        corresponds(a2, root, t),
    decreases t,
{
    match t {
        Tree::Leaf => {},
        Tree::Node { handle, left, right, .. } => {
            assert(tree_handles(t).contains(handle));
            let sl = a1[handle as int]->left;
            let sr = a1[handle as int]->right;
            assert forall|h: usize| #[trigger] tree_handles(*left).contains(h) implies h
                < a2.len() && a2[h as int] == a1[h as int] by {
                assert(tree_handles(t).contains(h));
            }
            assert forall|h: usize| #[trigger] tree_handles(*right).contains(h) implies h
                < a2.len() && a2[h as int] == a1[h as int] by {
                assert(tree_handles(t).contains(h));
            }
            lemma_corresponds_frame(a1, a2, sl, *left);
            lemma_corresponds_frame(a1, a2, sr, *right);
        },
    }
}

} // verus!
