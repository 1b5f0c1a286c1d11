use skewheap::SkewHeap;

#[test]
fn test_positive_path() {
    let mut skew = SkewHeap::new();

    assert!(skew.is_empty(), "initially empty");
    assert_eq!(skew.peek(), None, "peek returns None when is_empty");
    assert_eq!(skew.take(), None, "take returns None when is_empty");

    assert_eq!(skew.put(10), 1, "put returns new size");
    assert_eq!(skew.peek(), Some(10), "peek returns top entry after put");
    assert_eq!(skew.size(), 1, "size returns expected count after put");
    assert!(!skew.is_empty(), "is_empty false after put");

    assert_eq!(skew.put(3), 2, "put returns new size");
    assert_eq!(skew.peek(), Some(3), "peek returns top entry after put");
    assert_eq!(skew.size(), 2, "size returns expected count after put");
    assert!(!skew.is_empty(), "is_empty false after put");

    assert_eq!(skew.put(15), 3, "put returns new size");
    assert_eq!(skew.peek(), Some(3), "peak returns top entry after put");
    assert_eq!(skew.size(), 3, "size returns expected count after put");
    assert!(!skew.is_empty(), "is_empty false after put");

    assert_eq!(skew.take(), Some(3), "take returns top entry");
    assert_eq!(skew.peek(), Some(10), "peek returns top entry after take");
    assert_eq!(skew.size(), 2, "size returns expected count after take");
    assert!(!skew.is_empty(), "is_empty false when > 0 entries");

    assert_eq!(skew.take(), Some(10), "take returns top entry");
    assert_eq!(skew.peek(), Some(15), "peek returns top entry after take");
    assert_eq!(skew.size(), 1, "size returns expected count after take");
    assert!(!skew.is_empty(), "is_empty false when > 0 entries");

    assert_eq!(skew.take(), Some(15), "take returns top entry");
    assert_eq!(skew.peek(), None, "peek returns None after final entry returned by take");
    assert_eq!(skew.size(), 0, "size is 0 after final entry returned by take");
    assert!(skew.is_empty(), "is_empty true after final entry returned by take");
}

#[test]
fn test_merge_heaps() {
    let mut a = SkewHeap::new();
    a.put(1);
    a.put(2);
    a.put(3);

    let mut b = SkewHeap::new();
    b.put(4);
    b.put(5);
    b.put(6);

    a.adopt(&mut b);
    assert_eq!(a.size(), 6);
    assert_eq!(a.take(), Some(1));
    assert_eq!(a.take(), Some(2));
    assert_eq!(a.take(), Some(3));
    assert_eq!(a.take(), Some(4));
    assert_eq!(a.take(), Some(5));
    assert_eq!(a.take(), Some(6));
}

/// Draining after an arbitrary burst of puts yields a non-decreasing
/// sequence holding every inserted item.
#[test]
fn drain_is_sorted_after_mixed_puts() {
    let items: [u64; 12] = [41, 7, 7, 0, 99, 23, 5, 88, 7, 64, 2, u64::MAX];
    let mut heap = SkewHeap::new();
    for &x in items.iter() {
        heap.put(x);
    }
    assert_eq!(heap.size(), items.len());

    let mut drained: Vec<u64> = Vec::new();
    while let Some(x) = heap.take() {
        drained.push(x);
    }
    assert!(heap.is_empty());
    assert_eq!(drained.len(), items.len());
    for w in drained.windows(2) {
        assert!(w[0] <= w[1], "drain must be non-decreasing");
    }
    let mut expected = items.to_vec();
    expected.sort();
    assert_eq!(drained, expected);
}

/// size() always equals puts minus successful takes, and is_empty tracks it.
#[test]
fn size_accounts_for_puts_and_takes() {
    let mut heap = SkewHeap::new();
    let mut live: usize = 0;
    for round in 0..10u64 {
        for k in 0..7u64 {
            heap.put(1000 - 7 * round - k);
            live += 1;
            assert_eq!(heap.size(), live);
            assert_eq!(heap.is_empty(), live == 0);
        }
        for _ in 0..5 {
            assert!(heap.take().is_some());
            live -= 1;
            assert_eq!(heap.size(), live);
            assert_eq!(heap.is_empty(), live == 0);
        }
    }
    while heap.take().is_some() {
        live -= 1;
        assert_eq!(heap.size(), live);
    }
    assert_eq!(live, 0);
    // Unsuccessful takes change nothing.
    assert_eq!(heap.take(), None);
    assert_eq!(heap.size(), 0);
}

/// take() and peek() on an empty heap return None and leave the heap as it
/// was.
#[test]
fn empty_take_and_peek_are_stable() {
    let mut heap = SkewHeap::new();
    assert_eq!(heap.peek(), None);
    assert_eq!(heap.size(), 0);
    assert_eq!(heap.take(), None);
    assert_eq!(heap.size(), 0);
    assert!(heap.is_empty());

    heap.put(5);
    assert_eq!(heap.take(), Some(5));
    // Emptied by draining rather than fresh: still stable.
    assert_eq!(heap.take(), None);
    assert_eq!(heap.peek(), None);
    assert_eq!(heap.size(), 0);
}

/// Draining an adopted heap gives the two-way merge of the separate drains.
#[test]
fn adopt_interleaves_like_a_sorted_merge() {
    let xs: [u64; 5] = [9, 1, 5, 5, 3];
    let ys: [u64; 4] = [4, 5, 2, 8];

    let mut a = SkewHeap::new();
    let mut b = SkewHeap::new();
    for &x in xs.iter() {
        a.put(x);
    }
    for &y in ys.iter() {
        b.put(y);
    }
    a.adopt(&mut b);

    let mut merged: Vec<u64> = Vec::new();
    while let Some(x) = a.take() {
        merged.push(x);
    }
    let mut expected: Vec<u64> = Vec::new();
    expected.extend_from_slice(&xs);
    expected.extend_from_slice(&ys);
    expected.sort();
    assert_eq!(merged, expected);
}

/// After adopt the donor is a fresh empty heap and stays usable.
#[test]
fn adopt_empties_the_donor() {
    let mut a = SkewHeap::new();
    let mut b = SkewHeap::new();
    for x in [1u64, 2, 3] {
        a.put(x);
    }
    for y in [4u64, 5, 6] {
        b.put(y);
    }
    a.adopt(&mut b);

    assert_eq!(b.size(), 0);
    assert!(b.is_empty());
    assert_eq!(b.peek(), None);
    assert_eq!(b.take(), None);

    for want in [1u64, 2, 3, 4, 5, 6] {
        assert_eq!(a.take(), Some(want));
    }
    assert!(a.is_empty());

    // The donor works again as an ordinary empty heap.
    b.put(7);
    assert_eq!(b.peek(), Some(7));
    assert_eq!(b.size(), 1);
}

/// Adopting an empty heap, or adopting into an empty heap, keeps the items.
#[test]
fn adopt_with_empty_heaps() {
    let mut a = SkewHeap::new();
    let mut b = SkewHeap::new();
    a.put(2);
    a.put(1);
    a.adopt(&mut b);
    assert_eq!(a.size(), 2);

    let mut c = SkewHeap::new();
    c.adopt(&mut a);
    assert_eq!(c.size(), 2);
    assert_eq!(a.size(), 0);
    assert_eq!(c.take(), Some(1));
    assert_eq!(c.take(), Some(2));
    assert_eq!(c.take(), None);
}

/// Driving the heap across the compaction threshold (an arena of at least
/// 100 slots that becomes more than nine-tenths free) must not change what
/// take returns, only the memory footprint.
#[test]
fn compaction_is_transparent() {
    let total: u64 = 150;
    let mut heap = SkewHeap::new();
    for x in (0..total).rev() {
        heap.put(x);
    }
    // Take most items: the free fraction crosses nine-tenths on the way.
    for want in 0..(total - 5) {
        assert_eq!(heap.take(), Some(want));
    }
    assert_eq!(heap.size(), 5);
    // The survivors are intact and the heap keeps working across further
    // put/take cycles.
    for x in [1000u64, 7, 500] {
        heap.put(x);
    }
    let mut drained: Vec<u64> = Vec::new();
    while let Some(x) = heap.take() {
        drained.push(x);
    }
    assert_eq!(drained, vec![7, 145, 146, 147, 148, 149, 500, 1000]);
}

/// Repeated fill-and-drain cycles, each crossing the threshold, stay
/// correct.
#[test]
fn compaction_across_many_cycles() {
    let mut heap = SkewHeap::new();
    for cycle in 0..4u64 {
        for x in 0..120u64 {
            heap.put(x * 3 + cycle);
        }
        let mut prev: Option<u64> = None;
        while let Some(x) = heap.take() {
            if let Some(p) = prev {
                assert!(p <= x);
            }
            prev = Some(x);
        }
        assert!(heap.is_empty());
    }
}

/// Equal items are all kept and all come back out.
#[test]
fn duplicates_survive() {
    let mut heap = SkewHeap::new();
    for _ in 0..5 {
        heap.put(42);
    }
    heap.put(41);
    heap.put(43);
    assert_eq!(heap.size(), 7);
    assert_eq!(heap.take(), Some(41));
    for _ in 0..5 {
        assert_eq!(heap.take(), Some(42));
    }
    assert_eq!(heap.take(), Some(43));
    assert_eq!(heap.take(), None);
}

/// peek never removes: it reports the same top until a take.
#[test]
fn peek_is_read_only() {
    let mut heap = SkewHeap::new();
    heap.put(8);
    heap.put(4);
    for _ in 0..3 {
        assert_eq!(heap.peek(), Some(4));
        assert_eq!(heap.size(), 2);
    }
    assert_eq!(heap.take(), Some(4));
    assert_eq!(heap.peek(), Some(8));
}
