//! The order-theoretic vocabulary of the heap's contracts, and the laws that
//! tie the contracts together: draining a heap lists its items in
//! non-decreasing order, and draining a merged heap interleaves the two
//! individual drains as a two-way sorted merge.

use vstd::multiset::Multiset;
use vstd::prelude::*;

verus! {

broadcast use vstd::group_vstd_default;

/// `x` is a least element of `m`.
pub open spec fn is_min(m: Multiset<u64>, x: u64) -> bool {
    &&& m.contains(x)
    &&& forall|y: u64| m.contains(y) ==> x <= y
}

/// `s` is a drain of `m`: the record of taking from a heap that holds `m`
/// until it is empty, each taken item being a least element of what was
/// still held.
pub open spec fn drains(m: Multiset<u64>, s: Seq<u64>) -> bool
    decreases s.len(),
{
    if s.len() == 0 {
        m.len() == 0
    } else {
        is_min(m, s[0]) && drains(m.remove(s[0]), s.drop_first())
    }
}

/// `s` is in non-decreasing order.
pub open spec fn sorted(s: Seq<u64>) -> bool {
    forall|i: int, j: int| 0 <= i <= j < s.len() ==> s[i] <= s[j]
}

/// The two-way merge of two sorted sequences: at each step the smaller head
/// moves to the output, the first sequence winning ties.
pub open spec fn merge_drains(a: Seq<u64>, b: Seq<u64>) -> Seq<u64>
    decreases a.len(), b.len(),
{
    if a.len() == 0 {
        b
    } else if b.len() == 0 {
        a
    } else if a[0] <= b[0] {
        seq![a[0]] + merge_drains(a.drop_first(), b)
    } else {
        seq![b[0]] + merge_drains(a, b.drop_first())
    }
}

/// Draining a heap lists its items: the sequence of items taken from a heap
/// holding `m`, until it is empty, is non-decreasing, and holds exactly the
/// items of `m`.
pub proof fn lemma_drain_sorted(m: Multiset<u64>, s: Seq<u64>)
    requires
        drains(m, s),
    ensures
        sorted(s),
        s.to_multiset() == m,
    decreases s.len(),
{
    broadcast use vstd::seq_lib::group_to_multiset_ensures;

    if s.len() == 0 {
        assert(s.to_multiset() =~= m);
    } else {
        let x = s[0];
        let rest = s.drop_first();
        lemma_drain_sorted(m.remove(x), rest);
        assert(rest =~= s.remove(0));
        assert(rest.to_multiset() == s.to_multiset().remove(x));
        assert(s.to_multiset().contains(x)) by {
            assert(s.contains(x));
        }
        assert(s.to_multiset() =~= m) by {
            assert forall|v: u64| s.to_multiset().count(v) == m.count(v) by {
                if v == x {
                    assert(s.to_multiset().count(x) == rest.to_multiset().count(x) + 1);
                    assert(m.count(x) == m.remove(x).count(x) + 1);
                } else {
                    assert(s.to_multiset().count(v) == rest.to_multiset().count(v));
                    assert(m.count(v) == m.remove(x).count(v));
                }
            }
        }
        assert forall|i: int, j: int| 0 <= i <= j < s.len() implies s[i] <= s[j] by {
            if i == 0 {
                if j > 0 {
                    assert(rest.contains(rest[j - 1]));
                    assert(rest.to_multiset().contains(s[j]));
                    assert(m.contains(s[j]));
                }
            } else {
                assert(rest[i - 1] <= rest[j - 1]);
            }
        }
    }
}

/// Two sorted sequences holding the same items are the same sequence: a
/// drain is determined by the multiset it drains.
pub proof fn lemma_sorted_unique(s1: Seq<u64>, s2: Seq<u64>)
    requires
        sorted(s1),
        sorted(s2),
        s1.to_multiset() == s2.to_multiset(),
    ensures
        s1 == s2,
    decreases s1.len(),
{
    broadcast use vstd::seq_lib::group_to_multiset_ensures;

    if s1.len() == 0 {
        assert(s2.to_multiset().len() == 0);
        assert(s1 =~= s2);
    } else {
        assert(s1.to_multiset().len() == s1.len());
        assert(s2.to_multiset().len() == s2.len());
        assert(s2.len() == s1.len());
        // The heads are least elements of the same multiset, so they agree.
        assert(s2.to_multiset().contains(s1[0]));
        assert(s2.contains(s1[0]));
        assert(s1.to_multiset().contains(s2[0]));
        assert(s1.contains(s2[0]));
        let i1 = choose|i: int| 0 <= i < s1.len() && s1[i] == s2[0];
        let i2 = choose|i: int| 0 <= i < s2.len() && s2[i] == s1[0];
        assert(s1[0] <= s1[i1] && s2[0] <= s2[i2]);
        assert(s1[0] == s2[0]);
        let r1 = s1.drop_first();
        let r2 = s2.drop_first();
        assert(r1 =~= s1.remove(0));
        assert(r2 =~= s2.remove(0));
        assert(r1.to_multiset() == s1.to_multiset().remove(s1[0]));
        assert(r2.to_multiset() == s2.to_multiset().remove(s2[0]));
        lemma_sorted_unique(r1, r2);
        assert forall|i: int| 0 <= i < s1.len() implies s1[i] == s2[i] by {
            if i > 0 {
                assert(s1[i] == r1[i - 1]);
                assert(s2[i] == r2[i - 1]);
            }
        }
        assert(s1 =~= s2);
    }
}

/// The two-way merge of two sorted sequences is sorted and holds the items
/// of both.
pub proof fn lemma_merge_drains_sorted(a: Seq<u64>, b: Seq<u64>)
    requires
        sorted(a),
        sorted(b),
    ensures
        sorted(merge_drains(a, b)),
        merge_drains(a, b).to_multiset() == a.to_multiset().add(b.to_multiset()),
        merge_drains(a, b).len() == a.len() + b.len(),
    decreases a.len(), b.len(),
{
    broadcast use vstd::seq_lib::group_to_multiset_ensures;

    if a.len() == 0 {
        assert(a.to_multiset() =~= Multiset::<u64>::empty());
        assert(merge_drains(a, b).to_multiset() =~= a.to_multiset().add(b.to_multiset()));
    } else if b.len() == 0 {
        assert(b.to_multiset() =~= Multiset::<u64>::empty());
        assert(merge_drains(a, b).to_multiset() =~= a.to_multiset().add(b.to_multiset()));
    } else {
        let c = merge_drains(a, b);
        let h = if a[0] <= b[0] {
            a[0]
        } else {
            b[0]
        };
        let rest = if a[0] <= b[0] {
            merge_drains(a.drop_first(), b)
        } else {
            merge_drains(a, b.drop_first())
        };
        if a[0] <= b[0] {
            lemma_merge_drains_sorted(a.drop_first(), b);
            lemma_head_multiset(a);
        } else {
            lemma_merge_drains_sorted(a, b.drop_first());
            lemma_head_multiset(b);
        }
        assert(c == seq![h] + rest);
        assert(c.to_multiset() == a.to_multiset().add(b.to_multiset())) by {
            lemma_head_multiset(c);
            assert(c[0] == h && c.drop_first() =~= rest);
            assert(c.to_multiset() =~= rest.to_multiset().insert(h));
            assert(c.to_multiset() =~= a.to_multiset().add(b.to_multiset()));
        }
        // The head is a lower bound for everything merged behind it.
        assert forall|i: int, j: int| 0 <= i <= j < c.len() implies c[i] <= c[j] by {
            if i == 0 {
                if j > 0 {
                    assert(rest.contains(rest[j - 1]));
                    assert(rest.to_multiset().contains(c[j]));
                    lemma_min_head(a, b, c[j]);
                }
            } else {
                assert(rest[i - 1] <= rest[j - 1]);
            }
        }
    }
}

/// The items of a non-empty sequence are its head and the items of its
/// tail.
proof fn lemma_head_multiset(s: Seq<u64>)
    requires
        s.len() > 0,
    ensures
        s.to_multiset() == s.drop_first().to_multiset().insert(s[0]),
{
    broadcast use vstd::seq_lib::group_to_multiset_ensures;

    assert(s.drop_first() =~= s.remove(0));
    assert(s.drop_first().to_multiset() == s.to_multiset().remove(s[0]));
    assert(s.contains(s[0]));
    assert(s.to_multiset().contains(s[0]));
    assert(s.to_multiset() =~= s.drop_first().to_multiset().insert(s[0]));
}

/// An item found in either sorted sequence is bounded below by the smaller
/// of the two heads.
proof fn lemma_min_head(a: Seq<u64>, b: Seq<u64>, x: u64)
    requires
        sorted(a),
        sorted(b),
        a.len() > 0,
        b.len() > 0,
        a.to_multiset().add(b.to_multiset()).contains(x),
    ensures
        a[0] <= x || b[0] <= x,
{
    broadcast use vstd::seq_lib::group_to_multiset_ensures;

    if a.to_multiset().contains(x) {
        assert(a.contains(x));
        let i = choose|i: int| 0 <= i < a.len() && a[i] == x;
        assert(a[0] <= a[i]);
    } else {
        assert(b.to_multiset().contains(x));
        assert(b.contains(x));
        let i = choose|i: int| 0 <= i < b.len() && b[i] == x;
        assert(b[0] <= b[i]);
    }
}

/// Draining a heap that adopted another interleaves the two individual
/// drains: the one drain of the union is exactly the two-way sorted merge
/// of the separate drains.
pub proof fn lemma_adopt_drain(
    ma: Multiset<u64>,
    mb: Multiset<u64>,
    sa: Seq<u64>,
    sb: Seq<u64>,
    sab: Seq<u64>,
)
    requires
        drains(ma, sa),
        drains(mb, sb),
        drains(ma.add(mb), sab),
    ensures
        sab == merge_drains(sa, sb),
{
    lemma_drain_sorted(ma, sa);
    lemma_drain_sorted(mb, sb);
    lemma_drain_sorted(ma.add(mb), sab);
    lemma_merge_drains_sorted(sa, sb);
    lemma_sorted_unique(sab, merge_drains(sa, sb));
}

/// A multiset has only one least value: what peek reports is exactly what
/// the next take removes.
pub proof fn lemma_min_unique(m: Multiset<u64>, x: u64, y: u64)
    requires
        is_min(m, x),
        is_min(m, y),
    ensures
        x == y,
{
}

/// Successive takes never go back down: the item taken after `x` is at
/// least `x`.
pub proof fn lemma_take_take_monotonic(m: Multiset<u64>, x: u64, y: u64)
    requires
        is_min(m, x),
        is_min(m.remove(x), y),
    ensures
        x <= y,
{
    assert(m.remove(x).count(y) > 0);
    assert(m.count(y) > 0);
    assert(m.contains(y));
}

} // verus!
