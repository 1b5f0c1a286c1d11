//! The heap itself: the arena-backed skew heap and its public operations.

use crate::arena::{corresponds, lemma_corresponds_frame, lemma_handles_bounded, Slot};
use crate::compact::rebuild_tree;
use crate::laws::is_min;
use crate::model::{
    distinct_handles, heap_ordered, lemma_root_is_min, lemma_singleton, lemma_tree_items_len,
    tree_handles, tree_items, tree_size, Tree,
};
use std::collections::VecDeque;
use vstd::multiset::Multiset;
use vstd::pervasive::unreached;
use vstd::pervasive::VecAdditionalExecFns;
use vstd::prelude::*;

verus! {

broadcast use vstd::group_vstd_default;

/// Compaction is considered only once the arena has grown to this many
/// slots.
const COMPACT_MIN_SLOTS: usize = 100;

/// A free-list entry must name a free slot of the arena that the live tree
/// does not occupy.
pub(crate) open spec fn free_entry_ok(a: Seq<Slot>, t: Tree, h: usize) -> bool {
    &&& h < a.len()
    &&& a[h as int] is Free
    &&& !tree_handles(t).contains(h)
}

/// The binary-merge primitive that every mutating operation is built on:
/// combines the two disjoint trees rooted at `a` and `b` into one tree in the
/// same arena, preserving the min-heap order. The node with the smaller item
/// wins (the first tree on ties); its old left child moves to the right, and
/// the loser is merged with its old right child to become the new left child
/// — the skew step that keeps operations cheap over a whole sequence.
///
/// Only slots at the two trees' own handles are touched, so surrounding
/// bookkeeping (the free list in particular) survives unchanged.
fn merge_nodes(
    arena: &mut Vec<Slot>,
    a: Option<usize>,
    b: Option<usize>,
    ta: Ghost<Tree>,
    tb: Ghost<Tree>,
) -> (res: (Option<usize>, Ghost<Tree>))
    requires
        corresponds(old(arena)@, a, ta@),
        corresponds(old(arena)@, b, tb@),
        distinct_handles(ta@),
        distinct_handles(tb@),
        heap_ordered(ta@),
        heap_ordered(tb@),
        tree_handles(ta@).disjoint(tree_handles(tb@)),
    ensures
        final(arena)@.len() == old(arena)@.len(),
        corresponds(final(arena)@, res.0, res.1@),
        distinct_handles(res.1@),
        heap_ordered(res.1@),
        tree_handles(res.1@) =~= tree_handles(ta@).union(tree_handles(tb@)),
        tree_items(res.1@) =~= tree_items(ta@).add(tree_items(tb@)),
        tree_size(res.1@) == tree_size(ta@) + tree_size(tb@),
        forall|i: int|
            0 <= i < old(arena)@.len() && !tree_handles(ta@).contains(i as usize)
                && !tree_handles(tb@).contains(i as usize) ==> final(arena)@[i] == old(
                arena,
            )@[i],
    decreases tree_size(ta@) + tree_size(tb@),
{
    match (a, b) {
        (None, _) => {
            proof {
                assert(tree_handles(tb@) =~= tree_handles(ta@).union(tree_handles(tb@)));
                assert(tree_items(tb@) =~= tree_items(ta@).add(tree_items(tb@)));
            }
            (b, tb)
        },
        (_, None) => {
            proof {
                assert(tree_handles(ta@) =~= tree_handles(ta@).union(tree_handles(tb@)));
                assert(tree_items(ta@) =~= tree_items(ta@).add(tree_items(tb@)));
            }
            (a, ta)
        },
        (Some(ha), Some(hb)) => {
            let sa = arena[ha];
            let sb = arena[hb];
            let (ia, la, ra) = match sa {
                Slot::Live { item, left, right } => (item, left, right),
                Slot::Free => unreached(),
            };
            let (ib, lb, rb) = match sb {
                Slot::Live { item, left, right } => (item, left, right),
                Slot::Free => unreached(),
            };
            // Tie-break: equal items let the first argument win, so the
            // outcome is deterministic for equal priorities.
            let w_is_b = ib < ia;
            let (w, iw, wl, wr) = if w_is_b {
                (hb, ib, lb, rb)
            } else {
                (ha, ia, la, ra)
            };
            let ghost tw = if w_is_b { tb@ } else { ta@ };
            let ghost to = if w_is_b { ta@ } else { tb@ };
            let o = if w_is_b { a } else { b };
            let ghost twl = *tw->left;
            let ghost twr = *tw->right;
            proof {
                assert(corresponds(arena@, Some(w), tw));
                assert(corresponds(arena@, wl, twl));
                assert(corresponds(arena@, wr, twr));
                assert(tree_handles(tw) == tree_handles(twl).union(tree_handles(twr)).insert(w));
                assert(tree_size(tw) == 1 + tree_size(twl) + tree_size(twr));
                assert forall|h: usize| #[trigger] tree_handles(to).contains(h) implies
                    !tree_handles(twr).contains(h) by {
                    if tree_handles(twr).contains(h) {
                        assert(tree_handles(tw).contains(h));
                    }
                }
                assert(tree_handles(to).disjoint(tree_handles(twr)));
            }
            let (m, tm) = merge_nodes(arena, o, wr, Ghost(to), Ghost(twr));
            let ghost mid = arena@;
            proof {
                // The winner's slot and its left subtree were outside the
                // recursive merge, so they are untouched.
                assert(!tree_handles(to).contains(w) && !tree_handles(twr).contains(w));
                assert(mid[w as int] == old(arena)@[w as int]);
                lemma_handles_bounded(old(arena)@, wl, twl);
                assert forall|h: usize| #[trigger] tree_handles(twl).contains(h) implies h
                    < mid.len() && mid[h as int] == old(arena)@[h as int] by {
                    assert(tree_handles(tw).contains(h));
                    assert(!tree_handles(to).contains(h));
                    assert(!tree_handles(twr).contains(h));
                }
                lemma_corresponds_frame(old(arena)@, mid, wl, twl);
            }
            arena.set(w, Slot::Live { item: iw, left: m, right: wl });
            let ghost tr = Tree::Node {
                handle: w,
                item: iw,
                left: Box::new(tm@),
                right: Box::new(twl),
            };
            proof {
                // Handle sets of the pieces, and the winner handle, are
                // mutually disjoint.
                assert(!tree_handles(tm@).contains(w));
                assert(!tree_handles(twl).contains(w));
                assert forall|h: usize| #[trigger] tree_handles(tm@).contains(h) implies
                    !tree_handles(twl).contains(h) by {
                    if tree_handles(twl).contains(h) {
                        assert(tree_handles(tw).contains(h));
                        assert(!tree_handles(to).contains(h));
                        assert(!tree_handles(twr).contains(h));
                    }
                }
                assert(tree_handles(tm@).disjoint(tree_handles(twl)));
                assert(distinct_handles(tr));
                // Correspondence: the merged left child and the kept right
                // child both survive the single write at `w`.
                assert forall|h: usize| #[trigger] tree_handles(tm@).contains(h) implies h
                    < arena@.len() && arena@[h as int] == mid[h as int] by {
                    lemma_handles_bounded(mid, m, tm@);
                }
                lemma_corresponds_frame(mid, arena@, m, tm@);
                assert forall|h: usize| #[trigger] tree_handles(twl).contains(h) implies h
                    < arena@.len() && arena@[h as int] == mid[h as int] by {}
                lemma_corresponds_frame(mid, arena@, wl, twl);
                assert(arena@[w as int] == (Slot::Live { item: iw, left: m, right: wl }));
                assert(corresponds(arena@, Some(w), tr));
                // Min-heap order: the winner's item bounds everything that
                // went under it.
                assert forall|x: u64| tree_items(tm@).contains(x) implies iw <= x by {
                    if tree_items(to).contains(x) {
                        lemma_root_is_min(to);
                    } else {
                        assert(tree_items(twr).contains(x));
                    }
                }
                assert(heap_ordered(tr));
                // The result holds exactly the handles and items of the two
                // inputs.
                assert(tree_handles(tr) =~= tree_handles(ta@).union(tree_handles(tb@)));
                assert(tree_items(tr) =~= tree_items(ta@).add(tree_items(tb@)));
                assert(tree_size(tr) == tree_size(ta@) + tree_size(tb@));
            }
            (Some(w), Ghost(tr))
        },
    }
}

/// A mergeable min-heap of `u64` items.
///
/// Nodes live in `arena`, a slot table addressed by integer handles; `root`
/// names the slot of the least item, `count` the number of live items, and
/// `freed` queues reclaimable slots for reuse in the order they were freed.
/// The ghost `tree` mirrors the live node structure.
pub struct SkewHeap {
    count: usize,
    root: Option<usize>,
    arena: Vec<Slot>,
    freed: VecDeque<usize>,
    tree: Ghost<Tree>,
}

impl View for SkewHeap {
    type V = Multiset<u64>;

    /// The heap denotes the multiset of items it holds.
    closed spec fn view(&self) -> Multiset<u64> {
        tree_items(self.tree@)
    }
}

impl SkewHeap {
    /// The invariant that every public operation preserves: the arena spells
    /// out the ghost tree, handles are never shared, the tree is min-heap
    /// ordered, `count` counts the live nodes, every slot is either live or
    /// on the free list, and free-list entries are distinct free slots.
    pub closed spec fn wf(self) -> bool {
        &&& corresponds(self.arena@, self.root, self.tree@)
        &&& distinct_handles(self.tree@)
        &&& heap_ordered(self.tree@)
        &&& self.count == tree_size(self.tree@)
        &&& self.arena@.len() == self.count + self.freed@.len()
        &&& self.freed@.no_duplicates()
        &&& forall|k: int|
            0 <= k < self.freed@.len() ==> free_entry_ok(
                self.arena@,
                self.tree@,
                #[trigger] self.freed@[k],
            )
    }

    /// Returns a new, empty heap.
    pub fn new() -> (h: SkewHeap)
        ensures
            h.wf(),
            h@ == Multiset::<u64>::empty(),
    {
        SkewHeap {
            count: 0,
            root: None,
            arena: Vec::new(),
            freed: VecDeque::new(),
            tree: Ghost(Tree::Leaf),
        }
    }

    /// Claims a slot for a fresh singleton node holding `item`: the oldest
    /// free-list entry if one exists, else a slot appended to the arena. The
    /// live tree, the root and the count are untouched; the arena afterwards
    /// has exactly one slot (the returned one) beyond the live nodes and the
    /// remaining free list.
    fn allocate(&mut self, item: u64) -> (h: usize)
        requires
            old(self).wf(),
        ensures
            final(self).root == old(self).root,
            final(self).count == old(self).count,
            final(self).tree == old(self).tree,
            h < final(self).arena@.len(),
            final(self).arena@[h as int] == (Slot::Live { item, left: None, right: None }),
            !tree_handles(final(self).tree@).contains(h),
            corresponds(final(self).arena@, final(self).root, final(self).tree@),
            final(self).arena@.len() == tree_size(final(self).tree@) + final(self).freed@.len()
                + 1,
            final(self).freed@.no_duplicates(),
            forall|k: int|
                0 <= k < final(self).freed@.len() ==> free_entry_ok(
                    final(self).arena@,
                    final(self).tree@,
                    #[trigger] final(self).freed@[k],
                ) && final(self).freed@[k] != h,
    {
        let popped = self.freed.pop_front();
        match popped {
            Some(h) => {
                proof {
                    assert(free_entry_ok(self.arena@, self.tree@, old(self).freed@[0]));
                }
                self.arena.set(h, Slot::Live { item, left: None, right: None });
                proof {
                    assert forall|x: usize| #[trigger]
                        tree_handles(self.tree@).contains(x) implies x < self.arena@.len()
                        && self.arena@[x as int] == old(self).arena@[x as int] by {
                        lemma_handles_bounded(old(self).arena@, self.root, self.tree@);
                        assert(x != h);
                    }
                    lemma_corresponds_frame(old(self).arena@, self.arena@, self.root, self.tree@);
                    assert forall|k: int|
                        0 <= k < self.freed@.len() implies free_entry_ok(
                        self.arena@,
                        self.tree@,
                        #[trigger] self.freed@[k],
                    ) && self.freed@[k] != h by {
                        assert(self.freed@[k] == old(self).freed@[k + 1]);
                        assert(free_entry_ok(
                            old(self).arena@,
                            self.tree@,
                            old(self).freed@[k + 1],
                        ));
                    }
                }
                h
            },
            None => {
                let h = self.arena.len();
                self.arena.push(Slot::Live { item, left: None, right: None });
                proof {
                    assert forall|x: usize| #[trigger]
                        tree_handles(self.tree@).contains(x) implies x < self.arena@.len()
                        && self.arena@[x as int] == old(self).arena@[x as int] by {
                        lemma_handles_bounded(old(self).arena@, self.root, self.tree@);
                    }
                    lemma_corresponds_frame(old(self).arena@, self.arena@, self.root, self.tree@);
                    assert(!tree_handles(self.tree@).contains(h)) by {
                        lemma_handles_bounded(old(self).arena@, self.root, self.tree@);
                    }
                }
                h
            },
        }
    }

    /// Inserts an item into the heap and returns the new size.
    pub fn put(&mut self, item: u64) -> (n: usize)
        requires
            old(self).wf(),
            old(self)@.len() < usize::MAX,
        ensures
            final(self).wf(),
            final(self)@ == old(self)@.insert(item),
            n == final(self)@.len(),
    {
        proof {
            lemma_tree_items_len(self.tree@);
        }
        let h = self.allocate(item);
        let ghost singleton = Tree::Node {
            handle: h,
            item,
            left: Box::new(Tree::Leaf),
            right: Box::new(Tree::Leaf),
        };
        proof {
            lemma_singleton(h, item);
            assert(corresponds(self.arena@, None, Tree::Leaf));
            assert(corresponds(self.arena@, Some(h), singleton));
            assert(tree_handles(self.tree@).disjoint(tree_handles(singleton)));
        }
        let ghost pre_arena = self.arena@;
        let ghost pre_tree = self.tree@;
        let (r, t) = merge_nodes(
            &mut self.arena,
            self.root,
            Some(h),
            Ghost(self.tree@),
            Ghost(singleton),
        );
        self.root = r;
        self.tree = t;
        self.count = self.count + 1;
        proof {
            lemma_tree_items_len(self.tree@);
            assert(tree_items(singleton) =~= Multiset::empty().insert(item));
            assert(self@ =~= old(self)@.insert(item));
            // The free list is untouched by the merge: its slots lie outside
            // both trees' handles.
            assert forall|k: int|
                0 <= k < self.freed@.len() implies free_entry_ok(
                self.arena@,
                self.tree@,
                #[trigger] self.freed@[k],
            ) by {
                assert(free_entry_ok(pre_arena, pre_tree, self.freed@[k]));
                assert(!tree_handles(singleton).contains(self.freed@[k]));
                assert(self.arena@[self.freed@[k] as int] == pre_arena[self.freed@[k] as int]);
            }
            assert(self.wf());
        }
        self.count
    }

    /// Retrieves the top (least) item from the heap without removing it.
    pub fn peek(&self) -> (r: Option<u64>)
        requires
            self.wf(),
        ensures
            self@.len() == 0 ==> r is None,
            self@.len() > 0 ==> (r matches Some(m) && is_min(self@, m)),
    {
        proof {
            lemma_tree_items_len(self.tree@);
        }
        if self.count == 0 {
            return None;
        }
        proof {
            assert(self.tree@ is Node);
            lemma_root_is_min(self.tree@);
        }
        let h = match self.root {
            Some(h) => h,
            None => unreached(),
        };
        match self.arena[h] {
            Slot::Live { item, .. } => Some(item),
            Slot::Free => unreached(),
        }
    }

    /// Removes and retrieves the top (least) item from the heap, then lets
    /// the compactor shrink the arena if almost all of it is free slots.
    pub fn take(&mut self) -> (r: Option<u64>)
        requires
            old(self).wf(),
        ensures
            final(self).wf(),
            old(self)@.len() == 0 ==> r is None && final(self)@ == old(self)@,
            old(self)@.len() > 0 ==> (r matches Some(m) && is_min(old(self)@, m) && final(self)@
                == old(self)@.remove(m)),
    {
        proof {
            lemma_tree_items_len(self.tree@);
        }
        if self.count == 0 {
            return None;
        }
        proof {
            assert(self.tree@ is Node);
            lemma_root_is_min(self.tree@);
        }
        let h = match self.root {
            Some(h) => h,
            None => unreached(),
        };
        let (it, l, r0) = match self.arena[h] {
            Slot::Live { item, left, right } => (item, left, right),
            Slot::Free => unreached(),
        };
        let ghost t = self.tree@;
        let ghost tl = *t->left;
        let ghost tr = *t->right;
        let ghost pre_arena = self.arena@;
        proof {
            assert(corresponds(self.arena@, l, tl));
            assert(corresponds(self.arena@, r0, tr));
        }
        let (nr, nt) = merge_nodes(&mut self.arena, l, r0, Ghost(tl), Ghost(tr));
        let ghost mid = self.arena@;
        proof {
            // The old root sat outside both subtrees; it is still live and
            // may now be freed.
            assert(!tree_handles(tl).contains(h) && !tree_handles(tr).contains(h));
            assert(mid[h as int] == pre_arena[h as int]);
        }
        self.arena.set(h, Slot::Free);
        proof {
            assert forall|x: usize| #[trigger] tree_handles(nt@).contains(x) implies x
                < self.arena@.len() && self.arena@[x as int] == mid[x as int] by {
                lemma_handles_bounded(mid, nr, nt@);
                assert(x != h);
            }
            lemma_corresponds_frame(mid, self.arena@, nr, nt@);
        }
        proof {
            // The old root's handle is not yet on the free list: its slot
            // was live, free-list slots are free.
            assert(!old(self).freed@.contains(h)) by {
                if old(self).freed@.contains(h) {
                    let k = choose|k: int|
                        0 <= k < old(self).freed@.len() && old(self).freed@[k] == h;
                    assert(free_entry_ok(pre_arena, t, old(self).freed@[k]));
                }
            }
        }
        self.freed.push_back(h);
        self.root = nr;
        self.tree = Ghost(nt@);
        self.count = self.count - 1;
        proof {
            lemma_tree_items_len(self.tree@);
            assert(old(self)@ == tree_items(tl).add(tree_items(tr)).insert(it));
            assert(self@ =~= old(self)@.remove(it));
            assert(is_min(old(self)@, it));
            // Free-list entries kept their slots: each lies outside both
            // subtrees and differs from the freshly freed root.
            assert forall|k: int|
                0 <= k < self.freed@.len() implies free_entry_ok(
                self.arena@,
                self.tree@,
                #[trigger] self.freed@[k],
            ) by {
                if k < old(self).freed@.len() {
                    assert(free_entry_ok(pre_arena, t, self.freed@[k]));
                    assert(!tree_handles(tl).contains(self.freed@[k]));
                    assert(!tree_handles(tr).contains(self.freed@[k]));
                    assert(self.freed@[k] != h);
                } else {
                    assert(self.freed@[k] == h);
                }
            }
            assert(self.wf());
        }
        // Compaction trigger: a large arena that is more than nine-tenths
        // free slots is rebuilt densely.
        if self.arena.len() >= COMPACT_MIN_SLOTS && (self.freed.len() as u128) * 10 > (
        self.arena.len() as u128) * 9 {
            self.compact();
        }
        Some(it)
    }

    /// Merges another heap's contents into this one and leaves the other
    /// empty. The donor's nodes are copied onto the end of this heap's
    /// arena and its tree is merged below this heap's root; the donor is
    /// reset to a fresh empty heap so the moved items are counted once.
    pub fn adopt(&mut self, other: &mut SkewHeap)
        requires
            old(self).wf(),
            old(other).wf(),
            old(self)@.len() + old(other)@.len() <= usize::MAX,
        ensures
            final(self).wf(),
            final(other).wf(),
            final(self)@ == old(self)@.add(old(other)@),
            final(other)@ == Multiset::<u64>::empty(),
    {
        proof {
            lemma_tree_items_len(self.tree@);
            lemma_tree_items_len(other.tree@);
        }
        let ghost pre_arena = self.arena@;
        let ghost pre_tree = self.tree@;
        let (gr, gt) = rebuild_tree(&other.arena, other.root, Ghost(other.tree@), &mut self.arena);
        proof {
            // This heap's own tree sits in the untouched prefix.
            assert forall|x: usize| #[trigger] tree_handles(pre_tree).contains(x) implies x
                < self.arena@.len() && self.arena@[x as int] == pre_arena[x as int] by {
                lemma_handles_bounded(pre_arena, self.root, pre_tree);
            }
            lemma_corresponds_frame(pre_arena, self.arena@, self.root, pre_tree);
            // The copied nodes all sit past the old end of the arena.
            assert forall|x: usize| #[trigger] tree_handles(pre_tree).contains(x) implies
                !tree_handles(gt@).contains(x) by {
                lemma_handles_bounded(pre_arena, self.root, pre_tree);
            }
            assert(tree_handles(pre_tree).disjoint(tree_handles(gt@)));
        }
        let ghost mid = self.arena@;
        let (nr, nt) = merge_nodes(&mut self.arena, self.root, gr, Ghost(self.tree@), gt);
        self.root = nr;
        self.tree = Ghost(nt@);
        self.count = self.count + other.count;
        proof {
            lemma_tree_items_len(self.tree@);
            assert(self@ =~= old(self)@.add(old(other)@));
            // Free-list slots lie below the old end and outside both trees.
            assert forall|k: int|
                0 <= k < self.freed@.len() implies free_entry_ok(
                self.arena@,
                self.tree@,
                #[trigger] self.freed@[k],
            ) by {
                let fh = self.freed@[k];
                assert(free_entry_ok(pre_arena, pre_tree, fh));
                assert(!tree_handles(gt@).contains(fh));
                assert(mid[fh as int] == pre_arena[fh as int]);
                assert(self.arena@[fh as int] == mid[fh as int]);
            }
            assert(self.wf());
        }
        other.arena = Vec::new();
        other.freed = VecDeque::new();
        other.root = None;
        other.count = 0;
        other.tree = Ghost(Tree::Leaf);
        proof {
            assert(other.wf());
        }
    }

    /// Relocates the live nodes into a fresh, dense arena and drops the
    /// free list: behaviour is untouched, and the arena afterwards is
    /// exactly as long as the live item count.
    fn compact(&mut self)
        requires
            old(self).wf(),
        ensures
            final(self).wf(),
            final(self)@ == old(self)@,
            final(self).arena@.len() == final(self)@.len(),
    {
        let mut dense: Vec<Slot> = Vec::new();
        let (nr, nt) = rebuild_tree(&self.arena, self.root, Ghost(self.tree@), &mut dense);
        self.arena = dense;
        self.root = nr;
        self.tree = Ghost(nt@);
        self.freed.clear();
        proof {
            lemma_tree_items_len(self.tree@);
            assert(self.wf());
        }
    }

    /// Returns the number of items in the heap.
    pub fn size(&self) -> (n: usize)
        requires
            self.wf(),
        ensures
            n == self@.len(),
    {
        proof {
            lemma_tree_items_len(self.tree@);
        }
        self.count
    }

    /// Returns true if there are no items currently in the heap.
    pub fn is_empty(&self) -> (e: bool)
        requires
            self.wf(),
        ensures
            e == (self@.len() == 0),
    {
        proof {
            lemma_tree_items_len(self.tree@);
        }
        self.count == 0
    }
}

} // verus!
