use btreec::{Action, BTreeC, NodeAllocator};
use std::cmp::Ordering;

fn by_value(a: &u64, b: &u64) -> Ordering {
    a.cmp(b)
}

fn items<F: Fn(&u64, &u64) -> Ordering>(tree: &BTreeC<u64, F>) -> Vec<u64> {
    let mut out = vec![];
    tree.ascend(None, |x| {
        out.push(*x);
        true
    });
    out
}

fn filled(cap: usize, n: u64) -> BTreeC<u64, fn(&u64, &u64) -> Ordering> {
    let mut tree = BTreeC::with_allocator(
        cap,
        NodeAllocator::unlimited(),
        Box::new(by_value as fn(&u64, &u64) -> Ordering),
    );
    for k in 0..n {
        tree.set(k * 3);
    }
    tree
}

#[test]
fn hint_from_get_then_set_adjacent_key() {
    let mut with_hint = filled(5, 300);
    let mut without = filled(5, 300);
    let mut hint = 0u64;
    assert_eq!(with_hint.get_hint(150, &mut hint), Some(&150));
    // the neighbour key is absent: both ways insert it
    assert_eq!(with_hint.set_hint(151, &mut hint), None);
    assert_eq!(without.set(151), None);
    assert_eq!(items(&with_hint), items(&without));
    // and now it is there: both ways replace it
    assert_eq!(with_hint.get_hint(150, &mut hint), Some(&150));
    assert_eq!(with_hint.set_hint(151, &mut hint), Some(151));
    assert_eq!(without.set(151), Some(151));
    assert_eq!(with_hint.count(), without.count());
    assert_eq!(with_hint.height(), without.height());
}

#[test]
fn hint_records_the_path_of_a_search() {
    let tree = filled(255, 100);
    let mut hint = 0u64;
    assert_eq!(tree.get_hint(30, &mut hint), Some(&30));
    // one leaf: the position of 30 among the items is 10
    assert_eq!(tree.height(), 0);
    assert_eq!(hint & 0xff, 10);
    assert_eq!(tree.get_hint(31, &mut hint), None);
    assert_eq!(hint & 0xff, 11);
}

#[test]
fn any_hint_gives_the_same_answers() {
    let hints = [0u64, 1, 0xff, 0x0102_0304_0506_0708, u64::MAX, 0x8000_0000_0000_0001];
    for &start in hints.iter() {
        let mut tree = filled(3, 200);
        let plain = filled(3, 200);
        let mut hint = start;
        for k in 0..620u64 {
            assert_eq!(tree.get_hint(k, &mut hint).copied(), plain.get(k).copied());
        }
        let mut hint = start;
        for k in (0..620u64).rev() {
            assert_eq!(tree.get_hint(k, &mut hint).copied(), plain.get(k).copied());
        }
        let mut hint = start;
        let mut up = vec![];
        assert!(tree.ascend_hint(Some(301), |x| {
            up.push(*x);
            true
        }, &mut hint));
        assert_eq!(up, (101..200).map(|k| k * 3).collect::<Vec<u64>>());
        let mut hint = start;
        let mut down = vec![];
        assert!(tree.descend_hint(Some(301), |x| {
            down.push(*x);
            true
        }, &mut hint));
        assert_eq!(down, (0..=100).rev().map(|k| k * 3).collect::<Vec<u64>>());
        let mut hint = start;
        for k in 0..200u64 {
            if k % 2 == 0 {
                assert_eq!(tree.delete_hint(k * 3, &mut hint), Some(k * 3));
                assert_eq!(tree.delete_hint(k * 3, &mut hint), None);
            } else {
                assert_eq!(tree.set_hint(k * 3 + 1, &mut hint), None);
                assert_eq!(tree.set_hint(k * 3, &mut hint), Some(k * 3));
            }
        }
        let mut expected = vec![];
        for k in 0..200u64 {
            if k % 2 == 1 {
                expected.push(k * 3);
                expected.push(k * 3 + 1);
            }
        }
        assert_eq!(items(&tree), expected);
        let mut hint = start;
        tree.action_ascend_hint(
            Some(300),
            |x| if *x % 3 == 1 { Action::Delete } else { Action::Keep },
            &mut hint,
        );
        let mut hint = start;
        tree.action_descend_hint(
            Some(299),
            |x| if *x % 3 == 1 { Action::Delete } else { Action::Keep },
            &mut hint,
        );
        let expected: Vec<u64> = (0..200u64).filter(|k| k % 2 == 1).map(|k| k * 3).collect();
        assert_eq!(items(&tree), expected);
    }
}

#[test]
fn hint_holds_one_position_for_each_level() {
    let mut tree = filled(3, 0);
    for k in 1..=4u64 {
        tree.set(k);
    }
    // the root holds 2, the leaves hold 1 and 3, 4
    assert_eq!(tree.height(), 1);
    let mut hint = 0u64;
    assert_eq!(tree.get_hint(4, &mut hint), Some(&4));
    assert_eq!(hint, 0x0101);
    assert_eq!(tree.get_hint(3, &mut hint), Some(&3));
    assert_eq!(hint, 0x0001);
    assert_eq!(tree.get_hint(1, &mut hint), Some(&1));
    assert_eq!(hint, 0x0000);
    // found in the root: the byte of the leaves stays
    let mut hint = 0xffffu64;
    assert_eq!(tree.get_hint(2, &mut hint), Some(&2));
    assert_eq!(hint, 0xff00);
    // a walk leaves the route of its pivot
    let mut hint = 0u64;
    tree.ascend_hint(Some(4), |_| true, &mut hint);
    assert_eq!(hint, 0x0101);
    let mut hint = 0x0707u64;
    tree.descend_hint(None, |_| true, &mut hint);
    assert_eq!(hint, 0x0707);
    // a deletion leaves the route to the key in the tree as it was
    let mut hint = 0u64;
    assert_eq!(tree.delete_hint(4, &mut hint), Some(4));
    assert_eq!(hint, 0x0101);
    // an insertion leaves the route to the item in the tree as it is
    let mut hint = 0u64;
    assert_eq!(tree.set_hint(4, &mut hint), None);
    assert_eq!(hint, 0x0101);
    assert_eq!(tree.set_hint(5, &mut hint), None);
    assert_eq!(hint, 0x0201);
    // the right leaf is full: 6 splits it, and stands in the third leaf
    assert_eq!(tree.set_hint(6, &mut hint), None);
    assert_eq!(items(&tree), vec![1, 2, 3, 4, 5, 6]);
    assert_eq!(hint, 0x0102);
}
