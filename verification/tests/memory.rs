use btreec::{Action, BTreeC, NodeAllocator};
use std::cmp::Ordering;

fn by_value(a: &i64, b: &i64) -> Ordering {
    a.cmp(b)
}

fn items<F: Fn(&i64, &i64) -> Ordering>(tree: &BTreeC<i64, F>) -> Vec<i64> {
    let mut out = vec![];
    tree.ascend(None, |x| {
        out.push(*x);
        true
    });
    out
}

#[test]
fn allocator_counts_nodes() {
    let mut a = NodeAllocator::limited(2);
    assert_eq!(a.available(), Some(2));
    assert!(a.grant());
    assert!(a.grant());
    assert_eq!(a.available(), Some(0));
    assert!(!a.grant());
    assert_eq!(a.available(), Some(0));
    a.free();
    assert_eq!(a.available(), Some(1));
    assert!(a.grant());
    let mut u = NodeAllocator::unlimited();
    assert_eq!(u.available(), None);
    assert!(u.grant());
    u.free();
    assert_eq!(u.available(), None);
}

#[test]
fn no_node_for_the_root() {
    let mut tree = BTreeC::with_allocator(3, NodeAllocator::limited(0), Box::new(by_value));
    assert!(tree.oom());
    assert_eq!(tree.set(1), None);
    assert_eq!(tree.load(1), None);
    assert_eq!(tree.count(), 0);
    assert_eq!(tree.get(1), None);
    assert_eq!(tree.pop_min(), None);
    assert!(tree.oom());
}

#[test]
fn split_without_memory_leaves_the_items() {
    // one node for the root, none for a split
    let mut tree = BTreeC::with_allocator(3, NodeAllocator::limited(1), Box::new(by_value));
    assert!(!tree.oom());
    assert_eq!(tree.nodes_left(), Some(0));
    for k in [10, 20, 30] {
        assert_eq!(tree.set(k), None);
    }
    assert!(!tree.oom());
    // replacing needs no node
    assert_eq!(tree.set(20), Some(20));
    assert!(!tree.oom());
    // a fourth item needs a split
    assert_eq!(tree.set(40), None);
    assert!(tree.oom());
    assert_eq!(tree.count(), 3);
    assert_eq!(items(&tree), vec![10, 20, 30]);
    // from now on every change is refused
    assert_eq!(tree.set(20), None);
    assert_eq!(tree.set(5), None);
    assert_eq!(tree.load(50), None);
    assert_eq!(tree.delete(10), None);
    assert_eq!(tree.pop_min(), None);
    assert_eq!(tree.pop_max(), None);
    let mut calls = 0;
    tree.action_ascend(None, |_| {
        calls += 1;
        Action::Delete
    });
    assert_eq!(calls, 0);
    assert_eq!(tree.count(), 3);
    assert_eq!(items(&tree), vec![10, 20, 30]);
    // reading goes on
    assert_eq!(tree.get(20), Some(&20));
    assert_eq!(tree.min(), Some(&10));
    assert_eq!(tree.max(), Some(&30));
    assert_eq!(tree.height(), 0);
}

#[test]
fn enough_nodes_for_one_split() {
    // the root, and two nodes for the first split
    let mut tree = BTreeC::with_allocator(3, NodeAllocator::limited(3), Box::new(by_value));
    for k in 1..=4 {
        assert_eq!(tree.set(k), None);
    }
    assert!(!tree.oom());
    assert_eq!(tree.height(), 1);
    assert_eq!(tree.nodes_left(), Some(0));
    // the right leaf holds 3 and 4; one more item fits, the next needs a node
    assert_eq!(tree.set(5), None);
    assert!(!tree.oom());
    assert_eq!(tree.set(6), None);
    assert!(tree.oom());
    assert_eq!(items(&tree), vec![1, 2, 3, 4, 5]);
    assert_eq!(tree.count(), 5);
}

#[test]
fn merged_nodes_go_back_to_the_allocator() {
    let mut tree = BTreeC::with_allocator(3, NodeAllocator::limited(100), Box::new(by_value));
    for k in 0..60 {
        assert_eq!(tree.set(k), None);
    }
    let used = 100 - tree.nodes_left().unwrap();
    assert!(used > 20);
    for k in 0..60 {
        assert_eq!(tree.delete(k), Some(k));
    }
    assert_eq!(tree.count(), 0);
    assert_eq!(tree.height(), 0);
    // all nodes but the root are back
    assert_eq!(tree.nodes_left(), Some(99));
    assert!(!tree.oom());
}

#[test]
fn unlimited_allocator_never_runs_out() {
    let mut tree = BTreeC::with_allocator(3, NodeAllocator::unlimited(), Box::new(by_value));
    for k in 0..5000 {
        assert_eq!(tree.set(k), None);
    }
    assert!(!tree.oom());
    assert_eq!(tree.nodes_left(), None);
    assert_eq!(tree.count(), 5000);
}

#[test]
fn load_without_memory_leaves_the_items() {
    let mut tree = BTreeC::with_allocator(3, NodeAllocator::limited(3), Box::new(by_value));
    for k in 1..=5 {
        assert_eq!(tree.load(k), None);
    }
    assert!(!tree.oom());
    assert_eq!(tree.nodes_left(), Some(0));
    assert_eq!(tree.load(6), None);
    assert!(tree.oom());
    assert_eq!(items(&tree), vec![1, 2, 3, 4, 5]);
    assert_eq!(tree.count(), 5);
    assert_eq!(tree.load(7), None);
    assert_eq!(tree.count(), 5);
}

#[test]
fn nodes_are_drawn_as_nodes_are_split() {
    let mut tree = BTreeC::with_allocator(3, NodeAllocator::limited(100), Box::new(by_value));
    // one node for the root
    assert_eq!(tree.nodes_left(), Some(99));
    let left = [99, 99, 99, 97, 97, 96, 96, 95, 95, 92];
    let height = [0, 0, 0, 1, 1, 1, 1, 1, 1, 2];
    for k in 1..=10 {
        assert_eq!(tree.set(k), None);
        // a split leaf takes one node, a split root two; the tenth item
        // finds the last leaf and the root full and takes three
        assert_eq!(tree.nodes_left(), Some(left[k as usize - 1]));
        assert_eq!(tree.height(), height[k as usize - 1]);
    }
    // an item that is there takes none
    for k in 1..=10 {
        assert_eq!(tree.set(k), Some(k));
    }
    assert_eq!(tree.nodes_left(), Some(92));
    assert!(!tree.oom());
}

#[test]
fn out_of_memory_after_the_root_has_grown() {
    // the root and six nodes: nine items take four of them, and the tenth
    // needs three
    let mut tree = BTreeC::with_allocator(3, NodeAllocator::limited(7), Box::new(by_value));
    for k in 1..=9 {
        assert_eq!(tree.load(k), None);
    }
    assert_eq!(tree.nodes_left(), Some(2));
    assert_eq!(tree.height(), 1);
    assert_eq!(tree.set(10), None);
    assert!(tree.oom());
    // the two nodes went into the split of the root
    assert_eq!(tree.nodes_left(), Some(0));
    assert_eq!(tree.height(), 2);
    assert_eq!(tree.count(), 9);
    assert_eq!(items(&tree), (1..=9).collect::<Vec<i64>>());
    assert_eq!(tree.get(9), Some(&9));
    assert_eq!(tree.get(10), None);
}

#[test]
fn load_draws_what_set_draws() {
    let mut loaded = BTreeC::with_allocator(3, NodeAllocator::limited(1000), Box::new(by_value));
    let mut set = BTreeC::with_allocator(3, NodeAllocator::limited(1000), Box::new(by_value));
    for k in 0..300 {
        assert_eq!(loaded.load(k), None);
        assert_eq!(set.set(k), None);
        assert_eq!(loaded.nodes_left(), set.nodes_left());
        assert_eq!(loaded.height(), set.height());
    }
}
