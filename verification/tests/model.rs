use btreec::{Action, BTreeC, NodeAllocator};
use std::cmp::Ordering;
use std::collections::BTreeMap;

fn by_key(a: &(u32, u32), b: &(u32, u32)) -> Ordering {
    a.0.cmp(&b.0)
}

fn next(seed: &mut u64) -> u32 {
    *seed = seed.wrapping_mul(6364136223846793005).wrapping_add(1442695040888963407);
    (*seed >> 33) as u32
}

fn items<F>(tree: &BTreeC<(u32, u32), F>) -> Vec<(u32, u32)>
where
    F: Fn(&(u32, u32), &(u32, u32)) -> Ordering,
{
    let mut out = vec![];
    assert!(tree.ascend(None, |x| {
        out.push(*x);
        true
    }));
    out
}

fn run_against_model(cap: usize, steps: u32, keys: u32, seed: u64) {
    let mut seed = seed;
    let mut tree = BTreeC::with_allocator(cap, NodeAllocator::unlimited(), Box::new(by_key));
    let mut model: BTreeMap<u32, u32> = BTreeMap::new();
    for step in 0..steps {
        let k = next(&mut seed) % keys;
        match next(&mut seed) % 8 {
            0 | 1 | 2 => {
                let prev = tree.set((k, step));
                assert_eq!(prev.map(|p| p.1), model.insert(k, step));
            },
            3 => {
                let prev = tree.load((k, step));
                assert_eq!(prev.map(|p| p.1), model.insert(k, step));
            },
            4 | 5 => {
                let gone = tree.delete((k, 0));
                assert_eq!(gone.map(|p| p.1), model.remove(&k));
            },
            6 => {
                let gone = tree.pop_min();
                let first = model.keys().next().copied();
                assert_eq!(gone.map(|p| p.0), first);
                if let Some(f) = first {
                    model.remove(&f);
                }
            },
            _ => {
                let gone = tree.pop_max();
                let last = model.keys().next_back().copied();
                assert_eq!(gone.map(|p| p.0), last);
                if let Some(l) = last {
                    model.remove(&l);
                }
            },
        }
        assert_eq!(tree.count(), model.len() as u64);
        let probe = next(&mut seed) % keys;
        assert_eq!(tree.get((probe, 0)).map(|p| p.1), model.get(&probe).copied());
        if step % 97 == 0 {
            let expected: Vec<(u32, u32)> = model.iter().map(|(k, v)| (*k, *v)).collect();
            assert_eq!(items(&tree), expected);
            assert_eq!(tree.min().copied(), expected.first().copied());
            assert_eq!(tree.max().copied(), expected.last().copied());
            let mut down = vec![];
            tree.descend(Some((probe, 0)), |x| {
                down.push(*x);
                true
            });
            let expected_down: Vec<(u32, u32)> =
                model.range(..=probe).rev().map(|(k, v)| (*k, *v)).collect();
            assert_eq!(down, expected_down);
            let mut up = vec![];
            tree.ascend(Some((probe, 0)), |x| {
                up.push(*x);
                true
            });
            let expected_up: Vec<(u32, u32)> =
                model.range(probe..).map(|(k, v)| (*k, *v)).collect();
            assert_eq!(up, expected_up);
        }
    }
    while let Some(p) = tree.pop_min() {
        assert_eq!(model.remove(&p.0), Some(p.1));
    }
    assert!(model.is_empty());
    assert_eq!(tree.count(), 0);
    assert_eq!(tree.height(), 0);
}

#[test]
fn random_changes_smallest_nodes() {
    run_against_model(3, 20_000, 300, 1);
}

#[test]
fn random_changes_small_nodes() {
    run_against_model(5, 20_000, 2_000, 2);
}

#[test]
fn random_changes_default_nodes() {
    run_against_model(0, 30_000, 5_000, 3);
}

#[test]
fn random_changes_few_keys() {
    run_against_model(7, 20_000, 10, 4);
}

fn action_for(key: u32, round: u32) -> u32 {
    (key.wrapping_mul(2654435761).wrapping_add(round)) % 16
}

fn run_actions_against_model(cap: usize, upward: bool, seed: u64) {
    let mut seed = seed;
    let mut tree = BTreeC::with_allocator(cap, NodeAllocator::unlimited(), Box::new(by_key));
    let mut model: BTreeMap<u32, u32> = BTreeMap::new();
    for _ in 0..600 {
        let k = next(&mut seed) % 1000;
        tree.set((k, 0));
        model.insert(k, 0);
    }
    for round in 1..40u32 {
        let pivot = if round % 5 == 0 { None } else { Some(next(&mut seed) % 1000) };
        // what the walk is to meet, and what it is to leave behind
        let reach: Vec<u32> = match (upward, pivot) {
            (true, None) => model.keys().copied().collect(),
            (true, Some(p)) => model.range(p..).map(|(k, _)| *k).collect(),
            (false, None) => model.keys().rev().copied().collect(),
            (false, Some(p)) => model.range(..=p).rev().map(|(k, _)| *k).collect(),
        };
        let mut expected_seen = vec![];
        for k in reach {
            expected_seen.push(k);
            match action_for(k, round) {
                0 => break,
                1 | 2 | 3 => {
                    model.remove(&k);
                },
                4 | 5 => {
                    model.insert(k, round);
                },
                // an update under another key is left out
                _ => {},
            }
        }
        let mut seen = vec![];
        let visitor = |x: &(u32, u32)| {
            seen.push(x.0);
            match action_for(x.0, round) {
                0 => Action::Stop,
                1 | 2 | 3 => Action::Delete,
                4 | 5 => Action::Update((x.0, round)),
                6 => Action::Update((x.0 + 1, round)),
                _ => Action::Keep,
            }
        };
        if upward {
            tree.action_ascend(pivot.map(|p| (p, 0)), visitor);
        } else {
            tree.action_descend(pivot.map(|p| (p, 0)), visitor);
        }
        assert_eq!(seen, expected_seen);
        let expected: Vec<(u32, u32)> = model.iter().map(|(k, v)| (*k, *v)).collect();
        assert_eq!(items(&tree), expected);
        assert_eq!(tree.count(), model.len() as u64);
        // fill up again
        for _ in 0..30 {
            let k = next(&mut seed) % 1000;
            tree.set((k, 0));
            model.insert(k, 0);
        }
    }
}

#[test]
fn random_actions_upward() {
    run_actions_against_model(3, true, 11);
    run_actions_against_model(7, true, 12);
}

#[test]
fn random_actions_downward() {
    run_actions_against_model(3, false, 13);
    run_actions_against_model(255, false, 14);
}

#[test]
fn random_changes_with_few_nodes() {
    // the allocator runs dry now and then: whatever happens, the items that
    // are in stay in, and a container that is out of memory stays so
    let mut seed = 5u64;
    for limit in [1usize, 2, 3, 5, 8, 13, 21] {
        let mut tree = BTreeC::with_allocator(3, NodeAllocator::limited(limit), Box::new(by_key));
        let mut model: BTreeMap<u32, u32> = BTreeMap::new();
        for step in 0..400u32 {
            let k = next(&mut seed) % 60;
            let was_oom = tree.oom();
            if next(&mut seed) % 3 == 0 {
                let gone = tree.delete((k, 0));
                if was_oom {
                    assert_eq!(gone, None);
                } else {
                    assert_eq!(gone.map(|p| p.1), model.remove(&k));
                }
            } else {
                let prev = tree.set((k, step));
                if tree.oom() {
                    assert_eq!(prev, None);
                } else {
                    assert_eq!(prev.map(|p| p.1), model.insert(k, step));
                }
            }
            if was_oom {
                assert!(tree.oom());
            }
            assert_eq!(tree.count(), model.len() as u64);
        }
        let expected: Vec<(u32, u32)> = model.iter().map(|(k, v)| (*k, *v)).collect();
        assert_eq!(items(&tree), expected);
    }
}
