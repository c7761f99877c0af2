use treapkit::treap::iter::Iter;
use treapkit::treap::map::{TreapMap, TreapSet, TreapValue};
use treapkit::treap::node::TreapNode;
use treapkit::treap::ordering::Bound;
use treapkit::treap::payload::{
    Direction, ImpliedKeyPayload, KeyPayload, Payload, PureDataPayload, Pushable, Replaceable,
    SizePayload,
};

fn keys_forward<V>(mut it: Iter<'_, TreapValue<i32, V>>) -> Vec<i32> {
    let mut out = Vec::new();
    while let Some(node) = it.next() {
        out.push(*node.key().unwrap());
    }
    out
}

fn keys_backward<V>(mut it: Iter<'_, TreapValue<i32, V>>) -> Vec<i32> {
    let mut out = Vec::new();
    while let Some(node) = it.next_back() {
        out.push(*node.key().unwrap());
    }
    out
}

fn keys_of<V>(node: &TreapNode<TreapValue<i32, V>>) -> Vec<i32> {
    keys_forward(node.range(Bound::Unbounded, Bound::Unbounded))
}

fn treap_of(keys: std::ops::RangeInclusive<i32>) -> TreapNode<TreapValue<i32, i32>> {
    let mut treap = TreapNode::none();
    for k in keys {
        let node = TreapNode::new(KeyPayload::from((k, k * 10)));
        treap = TreapNode::merge(treap, node);
    }
    treap
}

#[test]
fn inserts_come_out_in_key_order() {
    let mut map = TreapMap::new();
    for k in [5, 3, 8, 1, 4] {
        assert_eq!(map.insert(k, ()), None);
    }
    assert_eq!(keys_forward(map.range(Bound::Unbounded, Bound::Unbounded)), vec![1, 3, 4, 5, 8]);
    assert_eq!(map.len(), 5);
}

#[test]
fn remove_returns_the_value_and_forgets_the_key() {
    let mut map = TreapMap::new();
    map.insert(1, "a");
    map.insert(2, "b");
    map.insert(3, "c");
    assert_eq!(map.remove(&2), Some("b"));
    assert_eq!(map.search(&2), None);
    assert_eq!(map.search(&1), Some(&"a"));
    assert_eq!(map.search(&3), Some(&"c"));
    assert_eq!(map.len(), 2);
}

#[test]
fn split_range_parts_the_keys_in_three() {
    let treap = treap_of(1..=10);
    let (below, within, above) = treap.split_range(Bound::Included(&3), Bound::Included(&7));
    assert_eq!(keys_of(&within), vec![3, 4, 5, 6, 7]);
    assert_eq!(keys_of(&below), vec![1, 2]);
    assert_eq!(keys_of(&above), vec![8, 9, 10]);
}

#[test]
fn split_range_with_open_and_excluded_ends() {
    let (below, within, above) =
        treap_of(1..=10).split_range(Bound::Excluded(&3), Bound::Excluded(&7));
    assert_eq!(keys_of(&below), vec![1, 2, 3]);
    assert_eq!(keys_of(&within), vec![4, 5, 6]);
    assert_eq!(keys_of(&above), vec![7, 8, 9, 10]);

    let (below, within, above) = treap_of(1..=4).split_range(Bound::Unbounded, Bound::Unbounded);
    assert!(below.is_none());
    assert_eq!(keys_of(&within), vec![1, 2, 3, 4]);
    assert!(above.is_none());

    let (below, within, above) =
        treap_of(1..=10).split_range(Bound::Included(&8), Bound::Included(&3));
    assert_eq!(keys_of(&below), vec![1, 2, 3, 4, 5, 6, 7]);
    assert!(within.is_none());
    assert_eq!(keys_of(&above), vec![8, 9, 10]);
}

#[test]
fn range_walks_forward_and_backward() {
    let mut map = TreapMap::new();
    for k in 1..=10 {
        map.insert(k, k);
    }
    assert_eq!(
        keys_forward(map.range(Bound::Excluded(&2), Bound::Included(&8))),
        vec![3, 4, 5, 6, 7, 8]
    );
    assert_eq!(
        keys_backward(map.range(Bound::Excluded(&2), Bound::Included(&8))),
        vec![8, 7, 6, 5, 4, 3]
    );
}

#[test]
fn range_from_both_ends_meets_in_the_middle() {
    let treap = treap_of(1..=6);
    let mut it = treap.range(Bound::Included(&2), Bound::Excluded(&6));
    assert_eq!(it.next().and_then(|n| n.key()), Some(&2));
    assert_eq!(it.next_back().and_then(|n| n.key()), Some(&5));
    assert_eq!(it.next().and_then(|n| n.key()), Some(&3));
    assert_eq!(it.next_back().and_then(|n| n.key()), Some(&4));
    assert!(it.next().is_none());
    assert!(it.next_back().is_none());
}

#[test]
fn range_outside_the_keys_is_empty() {
    let treap = treap_of(1..=5);
    assert_eq!(keys_forward(treap.range(Bound::Included(&6), Bound::Unbounded)), vec![]);
    assert_eq!(keys_forward(treap.range(Bound::Unbounded, Bound::Excluded(&1))), vec![]);
    assert_eq!(keys_forward(treap.range(Bound::Included(&4), Bound::Included(&2))), vec![]);
    let empty: TreapNode<TreapValue<i32, i32>> = TreapNode::none();
    assert!(empty.range(Bound::Unbounded, Bound::Unbounded).next().is_none());
}

#[test]
fn inserting_a_key_again_replaces_its_value() {
    let mut map = TreapMap::new();
    assert_eq!(map.insert(3, "x"), None);
    let before = map.len();
    assert_eq!(map.insert(3, "y"), Some("x"));
    assert_eq!(map.len(), before);
    assert_eq!(map.len(), 1);
    assert_eq!(map.search(&3), Some(&"y"));
}

#[test]
fn split_then_merge_gives_the_treap_back() {
    for to_left in [false, true] {
        let (left, right) = treap_of(1..=9).split(&5, to_left);
        let last_left = if to_left { 5 } else { 4 };
        assert_eq!(keys_of(&left), (1..=last_left).collect::<Vec<_>>());
        assert_eq!(keys_of(&right), (last_left + 1..=9).collect::<Vec<_>>());
        assert!(TreapNode::mergeable(&left, &right));
        let merged = TreapNode::merge(left, right);
        assert_eq!(keys_of(&merged), (1..=9).collect::<Vec<_>>());
        for k in 1..=9 {
            let found = merged.find(&k).payload().unwrap();
            assert_eq!(found.inner.inner.data, k * 10);
        }
    }
}

#[test]
fn split_and_merge_of_the_empty_treap_change_nothing() {
    let empty: TreapNode<TreapValue<i32, i32>> = TreapNode::none();
    let (left, right) = empty.split(&1, true);
    assert!(left.is_none() && right.is_none());
    let merged = TreapNode::merge(left, right);
    assert!(merged.is_none());
    let merged = TreapNode::merge(treap_of(1..=3), TreapNode::none());
    assert_eq!(keys_of(&merged), vec![1, 2, 3]);
    let merged = TreapNode::merge_unsafe(TreapNode::none(), treap_of(1..=3));
    assert_eq!(keys_of(&merged), vec![1, 2, 3]);
}

#[test]
fn mergeable_tells_overlapping_treaps() {
    assert!(TreapNode::mergeable(&treap_of(1..=3), &treap_of(4..=6)));
    assert!(!TreapNode::mergeable(&treap_of(1..=4), &treap_of(4..=6)));
    assert!(!TreapNode::mergeable(&treap_of(4..=6), &treap_of(1..=3)));
    assert!(TreapNode::mergeable(&TreapNode::none(), &treap_of(1..=3)));
}

#[test]
fn insert_then_remove_restores_the_map() {
    let mut map = TreapMap::new();
    for k in [10, 20, 30, 40] {
        map.insert(k, k + 1);
    }
    let before = keys_forward(map.range(Bound::Unbounded, Bound::Unbounded));
    assert_eq!(map.search(&25), None);
    assert_eq!(map.insert(25, 7), None);
    assert_eq!(map.remove(&25), Some(7));
    assert_eq!(keys_forward(map.range(Bound::Unbounded, Bound::Unbounded)), before);
    for k in [10, 20, 30, 40] {
        assert_eq!(map.search(&k), Some(&(k + 1)));
    }
}

#[test]
fn removing_an_absent_key_changes_nothing() {
    let mut map = TreapMap::new();
    assert_eq!(map.remove(&1), None::<i32>);
    map.insert(1, 1);
    assert_eq!(map.remove(&2), None);
    assert_eq!(map.len(), 1);
}

#[test]
fn search_twice_gives_the_same() {
    let mut map = TreapMap::new();
    map.insert(7, "seven");
    assert_eq!(map.search(&7), map.search(&7));
    assert_eq!(map.search(&8), map.search(&8));
}

#[test]
fn sizes_and_priorities_hold_at_every_node_on_a_walk() {
    let treap = treap_of(1..=50);
    for target in [1, 17, 33, 50] {
        let mut seen = 0;
        treap.binary_search(|key, payload, left, right| {
            let l = left.map_or(0, |p| p.inner.size);
            let r = right.map_or(0, |p| p.inner.size);
            assert_eq!(payload.inner.size, 1 + l + r);
            seen += 1;
            if *key == target {
                None
            } else if target < *key {
                Some(Direction::Left)
            } else {
                Some(Direction::Right)
            }
        });
        assert!(seen >= 1);
    }
    assert_eq!(treap.payload().unwrap().inner.size, 50);
    let (left, right) = treap.split(&20, true);
    assert_eq!(left.payload().unwrap().inner.size, 20);
    assert_eq!(right.payload().unwrap().inner.size, 30);
    assert!(left.priority() >= left.leftmost().unwrap().priority());
    assert!(right.priority() >= right.rightmost().unwrap().priority());
}

#[test]
fn neighbours_of_a_key() {
    let mut treap = TreapNode::none();
    for k in [10, 20, 30] {
        treap = TreapNode::merge(treap, TreapNode::new(KeyPayload::from((k, ()))));
    }
    let treap: TreapNode<TreapValue<i32, ()>> = treap;
    let key = |n: Option<&TreapNode<TreapValue<i32, ()>>>| n.and_then(|n| n.key()).copied();
    assert_eq!(key(treap.lower(&20)), Some(10));
    assert_eq!(key(treap.floor(&20)), Some(20));
    assert_eq!(key(treap.higher(&20)), Some(30));
    assert_eq!(key(treap.ceil(&20)), Some(20));
    assert_eq!(key(treap.lower(&10)), None);
    assert_eq!(key(treap.floor(&9)), None);
    assert_eq!(key(treap.higher(&30)), None);
    assert_eq!(key(treap.ceil(&31)), None);
    assert_eq!(key(treap.floor(&25)), Some(20));
    assert_eq!(key(treap.ceil(&25)), Some(30));
    assert_eq!(key(treap.leftmost()), Some(10));
    assert_eq!(key(treap.rightmost()), Some(30));
    assert!(treap.find(&20).is_some());
    assert!(treap.find(&25).is_none());
}

#[test]
fn node_basics() {
    let none: TreapNode<TreapValue<i32, i32>> = TreapNode::default();
    assert!(none.is_none());
    assert_eq!(none.priority(), 0);
    assert!(none.payload().is_none());
    assert!(none.key().is_none());
    assert!(none.leftmost().is_none());
    assert!(none.into_payload().is_none());

    let mut node: TreapNode<TreapValue<i32, i32>> = TreapNode::new(KeyPayload::from((4, 40)));
    assert!(node.is_some());
    assert_eq!(node.key(), Some(&4));
    assert_eq!(node.replace(41), 40);
    assert_eq!(node.payload().unwrap().inner.inner.data, 41);
    let parent = KeyPayload::from((9, 90));
    node.push(&parent, Direction::Right);
    node.push_delta(&parent);
    assert_eq!(node.key(), Some(&4));
    let payload = node.into_payload().unwrap();
    assert_eq!((payload.key, payload.inner.size, payload.inner.inner.data), (4, 1, 41));
}

#[test]
fn payload_layers_forward_to_the_data() {
    let mut data = PureDataPayload::from(5);
    assert_eq!(data.replace(6), 5);
    assert_eq!(data.data, 6);

    let mut sized: SizePayload<PureDataPayload<i32>> = SizePayload::from(1);
    let left: SizePayload<PureDataPayload<i32>> = SizePayload::from(2);
    let mut right: SizePayload<PureDataPayload<i32>> = SizePayload::from(3);
    right.update(None, Some(&left));
    assert_eq!(right.size, 2);
    sized.update(Some(&left), Some(&right));
    assert_eq!(sized.size, 4);
    sized.push_delta(&left, Direction::Left);
    sized.reset_delta();
    sized.push(&left);
    assert_eq!((sized.size, sized.inner.data), (4, 1));
    assert_eq!(sized.replace(9), 1);

    let mut keyed: KeyPayload<&str, SizePayload<PureDataPayload<i32>>> =
        KeyPayload::from(("k", 1));
    assert_eq!(*keyed.key(), "k");
    keyed.update(None, None);
    assert_eq!(keyed.inner.size, 1);
    assert_eq!(keyed.replace(2), 1);

    let mut implied = ImpliedKeyPayload::from(PureDataPayload::from('a'));
    let other = ImpliedKeyPayload::from(PureDataPayload::from('b'));
    assert_eq!(*implied.key(), 1);
    implied.update(Some(&other), None);
    assert_eq!(*implied.key(), 2);
    assert_eq!(implied.replace('c'), 'a');
}

#[test]
fn set_insert_and_remove_say_whether_the_key_was_there() {
    let mut set = TreapSet::new();
    assert!(!set.insert(3));
    assert!(set.insert(3));
    assert!(!set.insert(1));
    assert_eq!(set.len(), 2);
    assert!(set.search(&3).is_some());
    assert!(set.search(&2).is_none());
    assert!(set.remove(&3));
    assert!(!set.remove(&3));
    assert_eq!(keys_forward(set.range(Bound::Unbounded, Bound::Unbounded)), vec![1]);
    let other: TreapSet<i32> = TreapSet::default();
    assert_eq!(other.len(), 0);
    let map: TreapMap<i32, i32> = TreapMap::default();
    assert_eq!(map.len(), 0);
}

#[test]
fn many_keys_stay_in_order() {
    let mut map = TreapMap::new();
    let mut k: i32 = 7;
    for _ in 0..500 {
        k = (k * 31 + 11) % 1009;
        map.insert(k, k);
    }
    let keys = keys_forward(map.range(Bound::Unbounded, Bound::Unbounded));
    assert_eq!(keys.len(), map.len());
    assert!(keys.windows(2).all(|w| w[0] < w[1]));
    for key in keys {
        assert_eq!(map.search(&key), Some(&key));
    }
}

#[test]
fn a_node_keeps_the_priority_it_is_given() {
    let node: TreapNode<TreapValue<i32, i32>> =
        TreapNode::with_priority(KeyPayload::from((1, 10)), 77);
    assert_eq!(node.priority(), 77);
    assert_eq!(keys_of(&node), vec![1]);
    assert_eq!(TreapNode::<TreapValue<i32, i32>>::none().priority(), 0);
}

#[test]
fn merge_and_split_keep_the_priorities() {
    let low: TreapNode<TreapValue<i32, i32>> =
        TreapNode::with_priority(KeyPayload::from((1, 10)), 5);
    let high = TreapNode::with_priority(KeyPayload::from((2, 20)), 9);
    let middle = TreapNode::with_priority(KeyPayload::from((3, 30)), 7);
    let treap = TreapNode::merge(TreapNode::merge(low, high), middle);
    assert_eq!(treap.priority(), 9);
    assert_eq!(*treap.key().unwrap(), 2);
    assert_eq!(keys_of(&treap), vec![1, 2, 3]);
    let (left, right) = treap.split(&2, false);
    assert_eq!(left.priority(), 5);
    assert_eq!(right.priority(), 9);
    let (two, three) = right.split(&3, false);
    assert_eq!(two.priority(), 9);
    assert_eq!(three.priority(), 7);
    let again = TreapNode::merge(left, TreapNode::merge(two, three));
    assert_eq!(again.priority(), 9);
    assert_eq!(keys_of(&again), vec![1, 2, 3]);
}

#[test]
fn the_walk_asks_at_the_root_and_goes_where_it_is_told() {
    let low: TreapNode<TreapValue<i32, i32>> =
        TreapNode::with_priority(KeyPayload::from((1, 10)), 5);
    let high = TreapNode::with_priority(KeyPayload::from((2, 20)), 9);
    let middle = TreapNode::with_priority(KeyPayload::from((3, 30)), 7);
    let treap = TreapNode::merge(TreapNode::merge(low, high), middle);
    let mut asked = Vec::new();
    treap.binary_search(|key, _, left, right| {
        asked.push((*key, left.is_some(), right.is_some()));
        Some(Direction::Right)
    });
    assert_eq!(asked, vec![(2, true, true), (3, false, false)]);
    let mut asked = Vec::new();
    treap.binary_search(|key, _, _, _| {
        asked.push(*key);
        if *key == 2 {
            Some(Direction::Left)
        } else {
            None
        }
    });
    assert_eq!(asked, vec![2, 1]);
    let mut count = 0;
    TreapNode::<TreapValue<i32, i32>>::none().binary_search(|_, _, _, _| {
        count += 1;
        None
    });
    assert_eq!(count, 0);
}

#[test]
fn two_empty_treaps_merge_to_an_empty_one() {
    let merged = TreapNode::<TreapValue<i32, i32>>::merge(TreapNode::none(), TreapNode::none());
    assert!(merged.is_none());
    let merged = TreapNode::<PureDataPayload<i32>>::merge_unsafe(TreapNode::none(), TreapNode::none());
    assert!(merged.is_none());
}
