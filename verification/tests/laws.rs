use btreec::{BTreeC, NodeAllocator};
use std::cmp::Ordering;

fn by_key(a: &(i32, i32), b: &(i32, i32)) -> Ordering {
    a.0.cmp(&b.0)
}

fn tree_of(cap: usize) -> BTreeC<(i32, i32), fn(&(i32, i32), &(i32, i32)) -> Ordering> {
    BTreeC::with_allocator(
        cap,
        NodeAllocator::unlimited(),
        Box::new(by_key as fn(&(i32, i32), &(i32, i32)) -> Ordering),
    )
}

fn scrambled(n: i32) -> Vec<i32> {
    // a permutation of 0..n, since 7919 is prime to the lengths used here
    (0..n).map(|i| (i * 7919) % n).collect()
}

#[test]
fn count_is_the_number_of_distinct_keys() {
    let mut tree = tree_of(3);
    let keys = [4, 1, 4, 9, 1, 1, 7, 9, 0, 4];
    for (round, k) in keys.iter().enumerate() {
        tree.set((*k, round as i32));
    }
    assert_eq!(tree.count(), 5);
    // the value that was set last for each key
    assert_eq!(tree.get((4, 0)), Some(&(4, 9)));
    assert_eq!(tree.get((1, 0)), Some(&(1, 5)));
    assert_eq!(tree.get((9, 0)), Some(&(9, 7)));
    assert_eq!(tree.get((7, 0)), Some(&(7, 6)));
    assert_eq!(tree.get((0, 0)), Some(&(0, 8)));
    assert_eq!(tree.get((2, 0)), None);
}

#[test]
fn descend_is_ascend_reversed() {
    for cap in [3, 5, 255] {
        let mut tree = tree_of(cap);
        for k in scrambled(1000) {
            tree.set((k, -k));
        }
        let mut up = vec![];
        tree.ascend(None, |x| {
            up.push(*x);
            true
        });
        let mut down = vec![];
        tree.descend(None, |x| {
            down.push(*x);
            true
        });
        assert_eq!(up.len(), 1000);
        up.reverse();
        assert_eq!(up, down);
    }
}

#[test]
fn ascend_from_pivot_is_a_suffix_of_ascend() {
    let mut tree = tree_of(3);
    for k in scrambled(500) {
        tree.set((k * 2, 0));
    }
    let mut all = vec![];
    tree.ascend(None, |x| {
        all.push(*x);
        true
    });
    for p in [-1, 0, 1, 2, 499, 500, 997, 998, 999] {
        let mut from = vec![];
        tree.ascend(Some((p, 0)), |x| {
            from.push(*x);
            true
        });
        let expected: Vec<(i32, i32)> = all.iter().copied().filter(|x| x.0 >= p).collect();
        assert_eq!(from, expected);
        assert!(all.ends_with(&from));
    }
}

#[test]
fn delete_then_get_finds_nothing() {
    let mut tree = tree_of(3);
    for k in scrambled(300) {
        tree.set((k, k));
    }
    for k in scrambled(300) {
        let before = tree.count();
        assert_eq!(tree.delete((k, 0)), Some((k, k)));
        assert_eq!(tree.count(), before - 1);
        assert_eq!(tree.get((k, 0)), None);
        assert_eq!(tree.delete((k, 0)), None);
        assert_eq!(tree.count(), before - 1);
    }
    assert_eq!(tree.count(), 0);
}

#[test]
fn pop_min_until_empty_sorts_ascending() {
    let mut tree = tree_of(3);
    for k in scrambled(777) {
        tree.set((k, 0));
    }
    let mut out = vec![];
    while let Some(x) = tree.pop_min() {
        out.push(x.0);
    }
    assert_eq!(out, (0..777).collect::<Vec<i32>>());
    assert_eq!(tree.count(), 0);
    assert_eq!(tree.height(), 0);
}

#[test]
fn pop_max_until_empty_sorts_descending() {
    let mut tree = tree_of(5);
    for k in scrambled(777) {
        tree.set((k, 0));
    }
    let mut out = vec![];
    while let Some(x) = tree.pop_max() {
        out.push(x.0);
    }
    assert_eq!(out, (0..777).rev().collect::<Vec<i32>>());
    assert_eq!(tree.count(), 0);
    assert_eq!(tree.height(), 0);
}

#[test]
fn deleting_inner_items_keeps_the_rest() {
    // with three items per node the keys that sit in inner nodes are many;
    // taking out every third key meets leaves and inner nodes alike
    let mut tree = tree_of(3);
    for k in 0..400 {
        tree.set((k, k));
    }
    for k in (0..400).step_by(3) {
        assert_eq!(tree.delete((k, 0)), Some((k, k)));
    }
    let mut left = vec![];
    tree.ascend(None, |x| {
        left.push(x.0);
        true
    });
    assert_eq!(left, (0..400).filter(|k| k % 3 != 0).collect::<Vec<i32>>());
}
