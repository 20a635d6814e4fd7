use quickcheck::quickcheck;
use quickcheck::Arbitrary;
use quickcheck::Gen;
use quickcheck::TestResult;
use tree::map::Entry;
use tree::map::TreeMap;
use tree::model::Bound;
use tree::node::is_balanced;

fn build(items: Vec<(u32, u16)>) -> TreeMap<u32, u16> {
    let mut map = TreeMap::new();
    for (k, v) in items {
        map.insert(k, v);
    }
    map
}

fn pairs(map: &TreeMap<u32, u16>) -> Vec<(u32, u16)> {
    map.iter().collect().into_iter().map(|e| (*e.0, *e.1)).collect()
}

#[derive(Clone, Debug)]
enum Op {
    Insert(u32),
    Remove(usize),
    RemoveMax,
    RemoveMin,
    EntryInsert(u32),
    EntryRemove(usize),
}

impl Arbitrary for Op {
    fn arbitrary(g: &mut Gen) -> Self {
        match u8::arbitrary(g) % 6 {
            0 => Op::Insert(u32::arbitrary(g)),
            1 => Op::Remove(usize::arbitrary(g)),
            2 => Op::RemoveMax,
            3 => Op::RemoveMin,
            4 => Op::EntryInsert(u32::arbitrary(g)),
            _ => Op::EntryRemove(usize::arbitrary(g)),
        }
    }
}

fn exec(op: Op, map: &mut TreeMap<u32, ()>) {
    match op {
        Op::Insert(key) => {
            map.insert(key, ());
        }
        Op::Remove(index) => {
            if !map.is_empty() {
                let key = *map.select(index % map.len()).unwrap().0;
                map.remove(&key);
            }
        }
        Op::RemoveMax => {
            map.remove_max();
        }
        Op::RemoveMin => {
            map.remove_min();
        }
        Op::EntryInsert(key) => {
            map.entry(key).or_insert(());
        }
        Op::EntryRemove(index) => {
            if !map.is_empty() {
                let key = *map.select(index % map.len()).unwrap().0;
                match map.entry(key) {
                    Entry::Occupied(e) => {
                        e.remove();
                    }
                    Entry::Vacant(_) => panic!("expected an occupied entry"),
                }
            }
        }
    }
}

#[test]
fn test_andersson() {
    fn check(ops: Vec<Op>) -> TestResult {
        let mut map = TreeMap::new();
        for op in ops {
            exec(op, &mut map);
        }
        assert!(is_balanced(map.root()));
        TestResult::passed()
    }
    quickcheck(check as fn(Vec<Op>) -> TestResult);
}

#[test]
fn agrees_with_get() {
    fn test(items: Vec<(u32, u16)>, key: u32) -> bool {
        let mut map = build(items);
        let value = map.get(&key).cloned();
        match map.entry(key) {
            Entry::Occupied(e) => value == Some(*e.get()),
            Entry::Vacant(_) => value.is_none(),
        }
    }
    quickcheck(test as fn(Vec<(u32, u16)>, u32) -> bool);
}

#[test]
fn quickcheck_agrees_with_iter() {
    fn last(items: Vec<(u32, u16)>) -> bool {
        let map = build(items);
        map.max() == map.iter().next_back()
    }
    fn first(items: Vec<(u32, u16)>) -> bool {
        let map = build(items);
        map.min() == map.iter().next()
    }
    quickcheck(last as fn(Vec<(u32, u16)>) -> bool);
    quickcheck(first as fn(Vec<(u32, u16)>) -> bool);
}

#[test]
fn quickcheck_exclusive_agrees_with_iter() {
    fn succ(items: Vec<(u32, u16)>, key: u32) -> bool {
        let map = build(items);
        map.succ(&key, false) == map.iter().collect().into_iter().find(|e| *e.0 > key)
    }
    fn pred(items: Vec<(u32, u16)>, key: u32) -> bool {
        let map = build(items);
        map.pred(&key, false) == map.iter().collect_rev().into_iter().find(|e| *e.0 < key)
    }
    quickcheck(succ as fn(Vec<(u32, u16)>, u32) -> bool);
    quickcheck(pred as fn(Vec<(u32, u16)>, u32) -> bool);
}

#[test]
fn quickcheck_inclusive_agrees_with_iter() {
    fn succ(items: Vec<(u32, u16)>, key: u32) -> bool {
        let map = build(items);
        map.succ(&key, true) == map.iter().collect().into_iter().find(|e| *e.0 >= key)
    }
    fn pred(items: Vec<(u32, u16)>, key: u32) -> bool {
        let map = build(items);
        map.pred(&key, true) == map.iter().collect_rev().into_iter().find(|e| *e.0 <= key)
    }
    quickcheck(succ as fn(Vec<(u32, u16)>, u32) -> bool);
    quickcheck(pred as fn(Vec<(u32, u16)>, u32) -> bool);
}

#[test]
fn ascends() {
    fn test(items: Vec<(u32, u16)>) -> bool {
        let map = build(items);
        let all = map.iter().collect();
        all.iter().zip(all.iter().skip(1)).all(|(e1, e2)| e1.0 < e2.0)
    }
    quickcheck(test as fn(Vec<(u32, u16)>) -> bool);
}

#[test]
fn descends_when_reversed() {
    fn test(items: Vec<(u32, u16)>) -> bool {
        let map = build(items);
        let all = map.iter().collect_rev();
        all.iter().zip(all.iter().skip(1)).all(|(e2, e1)| e2.0 > e1.0)
    }
    quickcheck(test as fn(Vec<(u32, u16)>) -> bool);
}

#[test]
fn size_hint_is_exact() {
    fn test(items: Vec<(u32, u16)>) -> bool {
        let map = build(items);
        let mut len = map.len();
        let mut it = map.iter();
        loop {
            if it.size_hint() != (len, Some(len)) {
                return false;
            }
            if it.next().is_none() {
                break;
            }
            len -= 1;
        }
        len == 0 && it.size_hint() == (0, Some(0))
    }
    quickcheck(test as fn(Vec<(u32, u16)>) -> bool);
}

#[derive(Clone, Debug)]
enum End {
    Included(u32),
    Excluded(u32),
    Unbounded,
}

impl End {
    fn bound(&self) -> Bound<&u32> {
        match self {
            End::Included(t) => Bound::Included(t),
            End::Excluded(t) => Bound::Excluded(t),
            End::Unbounded => Bound::Unbounded,
        }
    }
}

impl Arbitrary for End {
    fn arbitrary(g: &mut Gen) -> Self {
        match u8::arbitrary(g) % 3 {
            0 => End::Included(u32::arbitrary(g)),
            1 => End::Excluded(u32::arbitrary(g)),
            _ => End::Unbounded,
        }
    }
}

#[test]
fn range() {
    fn test(items: Vec<(u32, u16)>, min: End, max: End) -> bool {
        let map = build(items);
        let r = map.range(min.bound(), max.bound()).collect();
        let i = map
            .iter()
            .collect()
            .into_iter()
            .skip_while(|e| match min {
                End::Included(ref t) => e.0 < t,
                End::Excluded(ref t) => e.0 <= t,
                End::Unbounded => false,
            })
            .take_while(|e| match max {
                End::Included(ref t) => e.0 <= t,
                End::Excluded(ref t) => e.0 < t,
                End::Unbounded => true,
            });
        r == i.collect::<Vec<_>>()
    }
    quickcheck(test as fn(Vec<(u32, u16)>, End, End) -> bool);
}

#[test]
fn range_rev() {
    fn test(items: Vec<(u32, u16)>, min: End, max: End) -> bool {
        let map = build(items);
        let r = map.range(min.bound(), max.bound()).collect_rev();
        let i = map
            .iter()
            .collect_rev()
            .into_iter()
            .skip_while(|e| match max {
                End::Included(ref t) => e.0 > t,
                End::Excluded(ref t) => e.0 >= t,
                End::Unbounded => false,
            })
            .take_while(|e| match min {
                End::Included(ref t) => e.0 >= t,
                End::Excluded(ref t) => e.0 > t,
                End::Unbounded => true,
            });
        r == i.collect::<Vec<_>>()
    }
    quickcheck(test as fn(Vec<(u32, u16)>, End, End) -> bool);
}

#[test]
fn insert_sets_len_and_returns_old_value() {
    fn test(items: Vec<(u32, u16)>, key: u32, value: u16) -> bool {
        let mut map = build(items);
        let old_len = map.len();
        let before = map.get(&key).cloned();
        let returned = map.insert(key, value);
        returned == before
            && map.len() == if before.is_some() { old_len } else { old_len + 1 }
            && map.get(&key) == Some(&value)
            && map.contains_key(&key)
    }
    quickcheck(test as fn(Vec<(u32, u16)>, u32, u16) -> bool);
}

#[test]
fn insert_affects_no_others() {
    fn test(items: Vec<(u32, u16)>, key: u32, value: u16) -> bool {
        let mut map = build(items);
        let before: Vec<(u32, u16)> = pairs(&map).into_iter().filter(|e| e.0 != key).collect();
        map.insert(key, value);
        let after: Vec<(u32, u16)> = pairs(&map).into_iter().filter(|e| e.0 != key).collect();
        before == after
    }
    quickcheck(test as fn(Vec<(u32, u16)>, u32, u16) -> bool);
}

#[test]
fn remove_removes_key_and_affects_no_others() {
    fn test(items: Vec<(u32, u16)>, pick: usize) -> TestResult {
        let mut map = build(items);
        if map.is_empty() {
            return TestResult::discard();
        }
        let key = *map.select(pick % map.len()).unwrap().0;
        let before = pairs(&map);
        let old_len = map.len();
        let removed = map.remove(&key);
        let expected: Vec<(u32, u16)> = before.iter().cloned().filter(|e| e.0 != key).collect();
        TestResult::from_bool(
            removed == before.iter().cloned().find(|e| e.0 == key)
                && !map.contains_key(&key)
                && map.get(&key).is_none()
                && map.get_mut(&key).is_none()
                && map.len() == old_len - 1
                && pairs(&map) == expected,
        )
    }
    quickcheck(test as fn(Vec<(u32, u16)>, usize) -> TestResult);
}

#[test]
fn remove_of_absent_key_changes_nothing() {
    fn test(items: Vec<(u32, u16)>, key: u32) -> TestResult {
        let mut map = build(items);
        if map.contains_key(&key) {
            return TestResult::discard();
        }
        let before = pairs(&map);
        TestResult::from_bool(map.remove(&key).is_none() && pairs(&map) == before)
    }
    quickcheck(test as fn(Vec<(u32, u16)>, u32) -> TestResult);
}
