use btreec::{Action, BTreeC, NodeAllocator};
use std::cmp::Ordering;

fn by_value(a: &i64, b: &i64) -> Ordering {
    a.cmp(b)
}

fn collect_up<F>(tree: &BTreeC<i64, F>, pivot: Option<i64>) -> Vec<i64>
where
    F: Fn(&i64, &i64) -> Ordering,
{
    let mut out = vec![];
    let done = tree.ascend(pivot, |x| {
        out.push(*x);
        true
    });
    assert!(done);
    out
}

fn collect_down<F>(tree: &BTreeC<i64, F>, pivot: Option<i64>) -> Vec<i64>
where
    F: Fn(&i64, &i64) -> Ordering,
{
    let mut out = vec![];
    let done = tree.descend(pivot, |x| {
        out.push(*x);
        true
    });
    assert!(done);
    out
}

#[test]
fn insert_delete_pop_example() {
    let mut tree = BTreeC::new(Box::new(by_value));
    for k in [5, 3, 8, 1, 9, 2] {
        assert_eq!(tree.set(k), None);
    }
    assert_eq!(collect_up(&tree, None), vec![1, 2, 3, 5, 8, 9]);
    assert_eq!(tree.count(), 6);

    assert_eq!(tree.delete(5), Some(5));
    assert_eq!(collect_up(&tree, None), vec![1, 2, 3, 8, 9]);
    assert_eq!(tree.count(), 5);

    assert_eq!(tree.pop_min(), Some(1));
    assert_eq!(tree.count(), 4);
    assert_eq!(collect_up(&tree, None), vec![2, 3, 8, 9]);
}

#[test]
fn action_delete_even_items() {
    let mut tree = BTreeC::with_allocator(3, NodeAllocator::unlimited(), Box::new(by_value));
    for k in [1, 2, 3, 4, 5, 6] {
        tree.set(k);
    }
    let mut seen = vec![];
    tree.action_ascend(None, |x| {
        seen.push(*x);
        if *x % 2 == 0 {
            Action::Delete
        } else {
            Action::Keep
        }
    });
    assert_eq!(seen, vec![1, 2, 3, 4, 5, 6]);
    assert_eq!(collect_up(&tree, None), vec![1, 3, 5]);
    assert_eq!(tree.count(), 3);
}

#[test]
fn action_descend_delete_odd_items() {
    let mut tree = BTreeC::with_allocator(3, NodeAllocator::unlimited(), Box::new(by_value));
    for k in 1..=40 {
        tree.set(k);
    }
    let mut seen = vec![];
    tree.action_descend(Some(30), |x| {
        seen.push(*x);
        if *x % 2 == 1 {
            Action::Delete
        } else {
            Action::Keep
        }
    });
    let expected_seen: Vec<i64> = (1..=30).rev().collect();
    assert_eq!(seen, expected_seen);
    let mut expected: Vec<i64> = (1..=30).filter(|x| x % 2 == 0).collect();
    expected.extend(31..=40);
    assert_eq!(collect_up(&tree, None), expected);
    assert_eq!(tree.count(), 25);
}

#[test]
fn action_from_pivot_leaves_lower_items() {
    let mut tree = BTreeC::with_allocator(5, NodeAllocator::unlimited(), Box::new(by_value));
    for k in 0..100 {
        tree.set(k * 2);
    }
    let mut seen = vec![];
    tree.action_ascend(Some(51), |x| {
        seen.push(*x);
        if *x >= 60 {
            Action::Stop
        } else {
            Action::Delete
        }
    });
    assert_eq!(seen, vec![52, 54, 56, 58, 60]);
    let expected: Vec<i64> = (0..100).map(|k| k * 2).filter(|x| *x < 52 || *x >= 60).collect();
    assert_eq!(collect_up(&tree, None), expected);
}

#[test]
fn action_update_replaces_equivalent_item_only() {
    // items are (key, value) pairs ordered by key
    let mut tree = BTreeC::new(Box::new(|a: &(i64, i64), b: &(i64, i64)| a.0.cmp(&b.0)));
    for k in 0..10 {
        tree.set((k, 0));
    }
    tree.action_ascend(None, |x| {
        if x.0 == 3 {
            // same key: the value is overwritten
            Action::Update((3, 33))
        } else if x.0 == 5 {
            // another key: the item stays as it is
            Action::Update((50, 55))
        } else {
            Action::Keep
        }
    });
    assert_eq!(tree.count(), 10);
    assert_eq!(tree.get((3, 0)), Some(&(3, 33)));
    assert_eq!(tree.get((5, 0)), Some(&(5, 0)));
    assert_eq!(tree.get((50, 0)), None);
}

#[test]
fn action_stop_at_first_item_changes_nothing() {
    let mut tree = BTreeC::new(Box::new(by_value));
    for k in 0..10 {
        tree.set(k);
    }
    let mut calls = 0;
    tree.action_ascend(None, |_| {
        calls += 1;
        Action::Stop
    });
    assert_eq!(calls, 1);
    assert_eq!(collect_up(&tree, None), (0..10).collect::<Vec<i64>>());
    let mut calls = 0;
    tree.action_descend(None, |_| {
        calls += 1;
        Action::Stop
    });
    assert_eq!(calls, 1);
    assert_eq!(tree.count(), 10);
}

#[test]
fn action_delete_everything() {
    let mut tree = BTreeC::with_allocator(3, NodeAllocator::unlimited(), Box::new(by_value));
    for k in 0..200 {
        tree.set(k);
    }
    let mut seen = 0;
    tree.action_ascend(None, |_| {
        seen += 1;
        Action::Delete
    });
    assert_eq!(seen, 200);
    assert_eq!(tree.count(), 0);
    assert_eq!(tree.height(), 0);
    assert_eq!(tree.min(), None);
}

#[test]
fn empty_container() {
    let mut tree = BTreeC::new(Box::new(by_value));
    assert_eq!(tree.count(), 0);
    assert_eq!(tree.height(), 0);
    assert_eq!(tree.min(), None);
    assert_eq!(tree.max(), None);
    assert_eq!(tree.get(1), None);
    assert_eq!(tree.delete(1), None);
    assert_eq!(tree.pop_min(), None);
    assert_eq!(tree.pop_max(), None);
    assert_eq!(collect_up(&tree, None), Vec::<i64>::new());
    assert_eq!(collect_down(&tree, Some(7)), Vec::<i64>::new());
    let mut calls = 0;
    tree.action_ascend(None, |_| {
        calls += 1;
        Action::Delete
    });
    assert_eq!(calls, 0);
    assert!(!tree.oom());
}

#[test]
fn set_replaces_and_returns_previous() {
    let mut tree = BTreeC::new(Box::new(|a: &(i64, &str), b: &(i64, &str)| a.0.cmp(&b.0)));
    assert_eq!(tree.set((1, "one")), None);
    assert_eq!(tree.set((2, "two")), None);
    assert_eq!(tree.set((1, "uno")), Some((1, "one")));
    assert_eq!(tree.count(), 2);
    assert_eq!(tree.get((1, "")), Some(&(1, "uno")));
    assert_eq!(tree.delete((1, "")), Some((1, "uno")));
    assert_eq!(tree.delete((1, "")), None);
    assert_eq!(tree.count(), 1);
}

#[test]
fn less_follows_the_comparator() {
    let tree: BTreeC<i64, _> = BTreeC::new(Box::new(|a: &i64, b: &i64| b.cmp(a)));
    assert!(tree.less(&5, &3));
    assert!(!tree.less(&3, &5));
    assert!(!tree.less(&4, &4));
}

#[test]
fn reversed_comparator_reverses_the_order() {
    let mut tree = BTreeC::new(Box::new(|a: &i64, b: &i64| b.cmp(a)));
    for k in [5, 3, 8, 1, 9, 2] {
        tree.set(k);
    }
    assert_eq!(collect_up(&tree, None), vec![9, 8, 5, 3, 2, 1]);
    assert_eq!(tree.min(), Some(&9));
    assert_eq!(tree.max(), Some(&1));
    assert_eq!(collect_up(&tree, Some(4)), vec![3, 2, 1]);
}

#[test]
fn ascend_stops_when_the_visitor_says_so() {
    let mut tree = BTreeC::with_allocator(3, NodeAllocator::unlimited(), Box::new(by_value));
    for k in 0..50 {
        tree.set(k);
    }
    let mut seen = vec![];
    let done = tree.ascend(Some(10), |x| {
        seen.push(*x);
        *x < 13
    });
    assert!(!done);
    assert_eq!(seen, vec![10, 11, 12, 13]);
    let mut seen = vec![];
    let done = tree.descend(Some(10), |x| {
        seen.push(*x);
        *x > 8
    });
    assert!(!done);
    assert_eq!(seen, vec![10, 9, 8]);
    let done = tree.ascend(Some(1000), |_| false);
    assert!(done);
}

#[test]
fn pivot_between_and_beyond_items() {
    let mut tree = BTreeC::with_allocator(3, NodeAllocator::unlimited(), Box::new(by_value));
    for k in 0..30 {
        tree.set(k * 10);
    }
    assert_eq!(collect_up(&tree, Some(255)), vec![260, 270, 280, 290]);
    assert_eq!(collect_up(&tree, Some(260)), vec![260, 270, 280, 290]);
    assert_eq!(collect_up(&tree, Some(291)), Vec::<i64>::new());
    assert_eq!(collect_up(&tree, Some(-5)).len(), 30);
    assert_eq!(collect_down(&tree, Some(25)), vec![20, 10, 0]);
    assert_eq!(collect_down(&tree, Some(20)), vec![20, 10, 0]);
    assert_eq!(collect_down(&tree, Some(-1)), Vec::<i64>::new());
    assert_eq!(collect_down(&tree, Some(1000)).len(), 30);
}

#[test]
fn node_capacity_is_normalized() {
    let cap = |m: usize| {
        let tree: BTreeC<i64, _> =
            BTreeC::with_allocator(m, NodeAllocator::unlimited(), Box::new(by_value));
        tree.max_items()
    };
    assert_eq!(cap(0), 255);
    assert_eq!(cap(1), 3);
    assert_eq!(cap(2), 3);
    assert_eq!(cap(3), 3);
    assert_eq!(cap(4), 3);
    assert_eq!(cap(5), 5);
    assert_eq!(cap(6), 5);
    assert_eq!(cap(256), 255);
    assert_eq!(cap(4095), 4095);
    assert_eq!(cap(4096), 4095);
    assert_eq!(cap(1_000_000), 4095);
    let tree: BTreeC<i64, _> = BTreeC::new(Box::new(by_value));
    assert_eq!(tree.max_items(), 255);
}

#[test]
fn height_grows_and_shrinks_with_the_items() {
    let mut tree = BTreeC::with_allocator(3, NodeAllocator::unlimited(), Box::new(by_value));
    for k in 1..=3 {
        tree.set(k);
    }
    // three items fill the one leaf
    assert_eq!(tree.height(), 0);
    tree.set(4);
    // the leaf was split under a fresh root
    assert_eq!(tree.height(), 1);
    for k in 5..=100 {
        tree.set(k);
    }
    assert!(tree.height() >= 3);
    assert!(tree.height() <= 6);
    for k in 1..=99 {
        assert_eq!(tree.delete(k), Some(k));
    }
    assert_eq!(tree.count(), 1);
    assert_eq!(tree.height(), 0);
    assert_eq!(tree.pop_max(), Some(100));
    assert_eq!(tree.height(), 0);
    assert_eq!(tree.count(), 0);
}

#[test]
fn load_in_order_and_out_of_order() {
    let mut loaded = BTreeC::with_allocator(5, NodeAllocator::unlimited(), Box::new(by_value));
    let mut set = BTreeC::with_allocator(5, NodeAllocator::unlimited(), Box::new(by_value));
    for k in 0..500 {
        assert_eq!(loaded.load(k), None);
        assert_eq!(set.set(k), None);
    }
    assert_eq!(collect_up(&loaded, None), collect_up(&set, None));
    assert_eq!(loaded.count(), 500);
    // an item that is there already comes back
    assert_eq!(loaded.load(499), Some(499));
    assert_eq!(loaded.load(17), Some(17));
    assert_eq!(loaded.count(), 500);
    // an item out of order goes where it belongs
    assert_eq!(loaded.load(-3), None);
    assert_eq!(loaded.min(), Some(&-3));
    assert_eq!(loaded.count(), 501);
    assert_eq!(loaded.load(1000), None);
    assert_eq!(loaded.max(), Some(&1000));
}

#[test]
fn load_in_ascending_order_does_not_search() {
    let calls = std::cell::Cell::new(0u64);
    let mut tree = BTreeC::with_allocator(
        3,
        NodeAllocator::unlimited(),
        Box::new(|a: &i64, b: &i64| {
            calls.set(calls.get() + 1);
            a.cmp(b)
        }),
    );
    // the first item finds an empty leaf and goes in by way of a search
    assert_eq!(tree.load(0), None);
    let before = calls.get();
    for k in 1..=1000 {
        assert_eq!(tree.load(k), None);
    }
    // one comparison with the largest item, and one more after a split
    assert!(calls.get() - before <= 2000);
    assert_eq!(tree.count(), 1001);
    assert!(tree.height() >= 5);
    assert_eq!(collect_up(&tree, None), (0..=1000).collect::<Vec<i64>>());
    assert_eq!(collect_down(&tree, None), (0..=1000).rev().collect::<Vec<i64>>());
}
