//! The compaction pass: rebuilding a tree's nodes densely at the front of a
//! fresh slot table. Relocation changes only where nodes are stored — items
//! and tree shape are copied exactly.

use crate::arena::{corresponds, lemma_corresponds_frame, Slot};
use crate::model::{
    distinct_handles, heap_ordered, tree_handles, tree_items, tree_size, Tree,
};
use vstd::pervasive::unreached;
use vstd::prelude::*;

verus! {

broadcast use vstd::group_vstd_default;

/// Copies the tree rooted at `root` in `src` onto the end of `dst`, slot by
/// slot, and returns the relocated root. The copy occupies exactly the
/// appended slots, holds the same items in the same shape, and stays
/// min-heap ordered.
pub(crate) fn rebuild_tree(
    src: &Vec<Slot>,
    root: Option<usize>,
    t: Ghost<Tree>,
    dst: &mut Vec<Slot>,
) -> (res: (Option<usize>, Ghost<Tree>))
    requires
        corresponds(src@, root, t@),
        heap_ordered(t@),
    ensures
        final(dst)@.len() == old(dst)@.len() + tree_size(t@),
        forall|i: int| 0 <= i < old(dst)@.len() ==> final(dst)@[i] == old(dst)@[i],
        corresponds(final(dst)@, res.0, res.1@),
        distinct_handles(res.1@),
        heap_ordered(res.1@),
        forall|h: usize|
            #[trigger] tree_handles(res.1@).contains(h) ==> old(dst)@.len() <= h
                && h < final(dst)@.len(),
        tree_items(res.1@) =~= tree_items(t@),
        tree_size(res.1@) == tree_size(t@),
    decreases tree_size(t@),
{
    match root {
        None => {
            proof {
                assert(t@ is Leaf);
            }
            (None, Ghost(Tree::Leaf))
        },
        Some(h) => {
            proof {
                assert(t@ is Node && t@->handle == h && h < src@.len());
            }
            let s = src[h];
            let (it, l, r) = match s {
                Slot::Live { item, left, right } => (item, left, right),
                Slot::Free => unreached(),
            };
            let ghost tl = *t@->left;
            let ghost tr = *t@->right;
            let ghost d0 = dst@;
            let (nl, tl2) = rebuild_tree(src, l, Ghost(tl), dst);
            let ghost d1 = dst@;
            let (nr, tr2) = rebuild_tree(src, r, Ghost(tr), dst);
            let ghost d2 = dst@;
            let nh = dst.len();
            dst.push(Slot::Live { item: it, left: nl, right: nr });
            let ghost tn = Tree::Node {
                handle: nh,
                item: it,
                left: Box::new(tl2@),
                right: Box::new(tr2@),
            };
            proof {
                // The left copy's slots precede everything written later.
                assert forall|x: usize| #[trigger] tree_handles(tl2@).contains(x) implies x
                    < dst@.len() && dst@[x as int] == d1[x as int] by {}
                lemma_corresponds_frame(d1, dst@, nl, tl2@);
                assert forall|x: usize| #[trigger] tree_handles(tr2@).contains(x) implies x
                    < dst@.len() && dst@[x as int] == d2[x as int] by {}
                lemma_corresponds_frame(d2, dst@, nr, tr2@);
                assert(dst@[nh as int] == (Slot::Live { item: it, left: nl, right: nr }));
                assert(corresponds(dst@, Some(nh), tn));
                // The two copies occupy disjoint slot ranges below `nh`.
                assert forall|x: usize| #[trigger] tree_handles(tl2@).contains(x) implies
                    !tree_handles(tr2@).contains(x) by {}
                assert(distinct_handles(tn));
                // Order is inherited: the items under each child are exactly
                // the items that were under it before the copy.
                assert forall|x: u64| tree_items(tl2@).contains(x) implies it <= x by {
                    assert(tree_items(tl).contains(x));
                }
                assert forall|x: u64| tree_items(tr2@).contains(x) implies it <= x by {
                    assert(tree_items(tr).contains(x));
                }
                assert(heap_ordered(tn));
                assert(tree_items(tn) =~= tree_items(t@));
            }
            (Some(nh), Ghost(tn))
        },
    }
}

} // verus!
