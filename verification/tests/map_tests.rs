use skiplist::list::SkipList;
use skiplist::node::HEIGHT;
use std::collections::BTreeMap;

fn keys_of(list: &mut SkipList<i32, i32>) -> Vec<i32> {
    list.iter().iter().map(|e| *e.key()).collect()
}

#[test]
fn insert_then_get_gives_the_value() {
    let mut list = SkipList::with_seed(7);
    assert!(list.insert(10, "ten").is_none());
    assert_eq!(list.get(&10).map(|e| *e.val()), Some("ten"));
    assert_eq!(list.get(&10).map(|e| *e.key()), Some(10));
    assert!(list.get(&11).is_none());
    assert_eq!(list.len(), 1);
}

#[test]
fn insert_twice_replaces_the_value() {
    let mut list = SkipList::with_seed(7);
    assert!(list.insert(10, "one").is_none());
    let before = list.insert(10, "two").map(|e| (*e.key(), *e.val()));
    assert_eq!(before, Some((10, "one")));
    assert_eq!(list.get(&10).map(|e| *e.val()), Some("two"));
    assert_eq!(list.len(), 1);
}

#[test]
fn insert_then_remove_gives_the_entry_back() {
    let mut list = SkipList::with_seed(7);
    list.insert(10, "ten");
    let gone = list.remove(&10).map(|e| (*e.key(), *e.val()));
    assert_eq!(gone, Some((10, "ten")));
    assert!(list.get(&10).is_none());
    assert!(list.remove(&10).is_none());
    assert_eq!(list.len(), 0);
    assert!(list.is_empty());
}

#[test]
fn iterator_yields_keys_in_ascending_order() {
    let mut list = SkipList::with_seed(3);
    for k in [5, 1, 2] {
        list.insert(k, k * 10);
    }
    assert_eq!(keys_of(&mut list), vec![1, 2, 5]);
    assert_eq!(list.len(), 3);
    let values: Vec<i32> = list.iter().iter().map(|e| *e.val()).collect();
    assert_eq!(values, vec![10, 20, 50]);
}

#[test]
fn insert_one_two_five_in_order() {
    let mut list = SkipList::new();
    list.insert(1, 1);
    list.insert(2, 2);
    list.insert(5, 3);
    assert_eq!(keys_of(&mut list), vec![1, 2, 5]);
    assert_eq!(list.len(), 3);
}

#[test]
fn removals_empty_the_list() {
    let mut list = SkipList::new();
    list.insert(1, 1);
    list.insert(2, 2);
    list.insert(5, 3);
    assert_eq!(list.remove(&1).map(|e| *e.key()), Some(1));
    assert!(list.remove(&6).is_none());
    assert!(list.remove(&1).is_none());
    assert!(list.remove(&5).is_some());
    assert!(list.remove(&2).is_some());
    assert_eq!(list.len(), 0);
    assert_eq!(keys_of(&mut list), Vec::<i32>::new());
}

#[test]
fn length_is_the_number_of_distinct_keys() {
    let mut list = SkipList::with_seed(0x9e37_79b9_7f4a_7c15);
    let mut model = BTreeMap::new();
    let mut rng: u16 = 0xace1;
    let mut sequence = Vec::new();
    for i in 0..100_000u32 {
        rng ^= rng << 3;
        rng ^= rng >> 12;
        rng ^= rng << 7;
        sequence.push(rng);
        list.insert(rng, i);
        model.insert(rng, i);
    }
    assert_eq!(list.len(), model.len());
    let entries: Vec<(u16, u32)> = list.iter().iter().map(|e| (*e.key(), *e.val())).collect();
    let expected: Vec<(u16, u32)> = model.iter().map(|(k, v)| (*k, *v)).collect();
    assert_eq!(entries, expected);
    for key in sequence {
        let gone = list.remove(&key).map(|e| *e.val());
        assert_eq!(gone, model.remove(&key));
    }
    assert_eq!(list.len(), 0);
    assert!(list.iter().is_empty());
}

#[test]
fn first_and_last() {
    let mut list: SkipList<i32, &str> = SkipList::with_seed(11);
    assert!(list.get_first().is_none());
    assert!(list.get_last().is_none());
    list.insert(4, "four");
    assert_eq!(list.get_first().map(|e| *e.key()), Some(4));
    assert_eq!(list.get_last().map(|e| *e.key()), Some(4));
    list.insert(9, "nine");
    list.insert(-3, "minus three");
    assert_eq!(list.get_first().map(|e| (*e.key(), *e.val())), Some((-3, "minus three")));
    assert_eq!(list.get_last().map(|e| (*e.key(), *e.val())), Some((9, "nine")));
    list.remove(&9);
    assert_eq!(list.get_last().map(|e| *e.key()), Some(4));
}

#[test]
fn get_on_an_empty_list() {
    let mut list: SkipList<u8, u8> = SkipList::new();
    assert!(list.get(&0).is_none());
    assert!(list.remove(&0).is_none());
    assert!(list.is_empty());
    assert!(list.iter().is_empty());
    assert!(list.room());
}

#[test]
fn same_seed_draws_the_same_heights() {
    let mut one: SkipList<u32, ()> = SkipList::with_seed(42);
    let mut two: SkipList<u32, ()> = SkipList::with_seed(42);
    for k in 0..500u32 {
        one.insert(k, ());
        two.insert(k, ());
    }
    for k in 0..500u32 {
        let a = one.find(&k, false).target.unwrap();
        let b = two.find(&k, false).target.unwrap();
        let height = one.node(&a).height();
        assert_eq!(height, two.node(&b).height());
        assert!(1 <= height && height <= HEIGHT);
        // A published node holds one reference for each of its levels.
        assert_eq!(one.node(&a).refs(), height);
        assert!(!one.node(&a).removed());
    }
}

#[test]
fn heights_rise_one_level_at_a_time() {
    // A seed of zero proposes the greatest height at every draw; the cap
    // lets each tower rise one level above the populated ones.
    let mut list: SkipList<u32, ()> = SkipList::with_seed(0);
    for k in 0..40u32 {
        list.insert(k, ());
        let node = list.find(&k, false).target.unwrap();
        let expected = if k < 32 { k as usize + 1 } else { HEIGHT };
        assert_eq!(list.node(&node).height(), expected);
    }
}

#[test]
fn find_records_the_neighbours_at_level_zero() {
    let mut list = SkipList::with_seed(5);
    for k in [10, 20, 30] {
        list.insert(k, ());
    }
    let three = list.find(&10, false).target.unwrap().as_ptr();
    let search = list.find(&20, false);
    let target = search.target.unwrap().as_ptr();
    assert_eq!(search.prev.len(), HEIGHT);
    assert_eq!(search.prev[0].0.as_ptr(), three);
    assert_eq!(search.prev[0].1.as_ref().map(|n| n.as_ptr()), Some(target));

    assert_eq!(list.find(&20, false).target, list.find(&20, true).target);
    assert_ne!(list.find(&10, false).target, list.find(&20, false).target);

    let search = list.find(&25, false);
    assert!(search.target.is_none());
    assert_eq!(search.prev[0].0.as_ptr(), target);
    let closest = list.find(&25, true).target.unwrap();
    assert_eq!(list.node(&closest).key, 30);
    assert!(list.find(&35, true).target.is_none());
}

#[test]
fn a_marked_node_shadows_its_key() {
    let mut list = SkipList::with_seed(9);
    list.insert(3, "three");
    list.insert(4, "four");
    let node_4 = list.find(&4, false).target.unwrap();
    assert!(list.mark_removed(&node_4));
    assert!(!list.mark_removed(&node_4));
    // The marked node stands where the key belongs: nothing is published.
    assert!(list.insert(4, "again").is_none());
    assert!(list.get(&4).is_none());
    assert_eq!(list.len(), 2);
    let keys: Vec<i32> = list.iter().iter().map(|e| *e.key()).collect();
    assert_eq!(keys, vec![3, 4]);
}

#[test]
fn an_insert_behind_a_marked_node_is_taken_back() {
    let mut list = SkipList::with_seed(9);
    for k in [3, 4, 5] {
        list.insert(k, k);
    }
    let node_4 = list.find(&4, false).target.unwrap();
    assert!(list.mark_removed(&node_4));
    // Again and again: every attempt ends, and leaves no trace.
    for round in 0..10 {
        assert!(list.insert(4, round).is_none());
        assert_eq!(list.len(), 3);
        assert_eq!(list.eager_reclaim(), 0);
    }
    assert!(list.clear_removed(&node_4));
    assert_eq!(list.get(&4).map(|e| *e.val()), Some(4));
    assert_eq!(list.insert(4, 44).map(|e| *e.val()), Some(4));
    assert_eq!(list.get(&4).map(|e| *e.val()), Some(44));
    assert_eq!(list.len(), 3);
}

#[test]
fn a_replacing_insert_is_capped_by_the_populated_levels() {
    // A seed of zero proposes the greatest height at every draw.
    let mut list: SkipList<u32, u32> = SkipList::with_seed(0);
    list.insert(7, 0);
    let first = list.find(&7, false).target.unwrap();
    assert_eq!(list.node(&first).height(), 1);
    // The entry that is replaced leaves before the draw: no level is
    // populated then, and the new tower has height 1 again.
    assert_eq!(list.insert(7, 1).map(|e| *e.val()), Some(0));
    let second = list.find(&7, false).target.unwrap();
    assert_eq!(list.node(&second).height(), 1);
    list.insert(8, 0);
    let third = list.find(&8, false).target.unwrap();
    assert_eq!(list.node(&third).height(), 2);
}

#[test]
fn reclaim_frees_what_was_removed() {
    let mut list = SkipList::with_seed(1);
    for k in 0..100 {
        list.insert(k, k);
    }
    for k in 0..100 {
        assert!(list.remove(&k).is_some());
    }
    // Every removal frees the node of the one before; the last one waits.
    assert_eq!(list.eager_reclaim(), 1);
    assert_eq!(list.eager_reclaim(), 0);
    assert_eq!(list.len(), 0);
}

#[test]
fn many_rounds_of_inserts_stay_in_order() {
    let mut list = SkipList::new();
    for _ in 0..20 {
        for _ in 0..1_000 {
            let target: u8 = rand::random();
            list.insert(target, ());
        }
    }
    assert!(list.len() <= 256);
    let keys: Vec<u8> = list.iter().iter().map(|e| *e.key()).collect();
    assert_eq!(keys.len(), list.len());
    for pair in keys.windows(2) {
        assert!(pair[0] < pair[1]);
    }
}

#[test]
fn mixed_rounds_agree_with_a_model() {
    let mut list = SkipList::new();
    let mut model = BTreeMap::new();
    for round in 0..20u32 {
        for step in 0..5_000u32 {
            let target: u8 = rand::random();
            let dice: u8 = rand::random();
            if dice % 5 == 0 {
                let gone = list.remove(&target).map(|e| *e.val());
                assert_eq!(gone, model.remove(&target));
            } else {
                let value = round * 5_000 + step;
                let before = list.insert(target, value).map(|e| *e.val());
                assert_eq!(before, model.insert(target, value));
            }
            assert_eq!(list.len(), model.len());
        }
        let entries: Vec<(u8, u32)> = list.iter().iter().map(|e| (*e.key(), *e.val())).collect();
        let expected: Vec<(u8, u32)> = model.iter().map(|(k, v)| (*k, *v)).collect();
        assert_eq!(entries, expected);
        assert_eq!(list.get_first().map(|e| *e.key()), model.keys().next().copied());
        assert_eq!(list.get_last().map(|e| *e.key()), model.keys().next_back().copied());
    }
}

#[test]
fn a_search_unlinks_what_was_logically_removed() {
    let mut list = SkipList::with_seed(21);
    for k in 0..10 {
        list.insert(k, k * k);
    }
    let node = list.find(&4, false).target.unwrap();
    let height = list.node(&node).height();
    assert_eq!(list.node(&node).refs(), height);
    // Logical removal only: the node is marked and tagged, and stays linked.
    assert!(list.remove_entry(&node));
    assert!(!list.remove_entry(&node));
    assert!(!list.clear_removed(&node));
    assert_eq!(list.node(&node).refs(), height);
    // The next search that comes by unlinks it from every level.
    assert!(list.get(&4).is_none());
    assert_eq!(list.node(&node).refs(), 0);
    assert_eq!(keys_of(&mut list), vec![0, 1, 2, 3, 5, 6, 7, 8, 9]);
    assert_eq!(list.get(&5).map(|e| *e.val()), Some(25));
    // It was retired with its last link, and goes with the next reclaim.
    assert_eq!(list.eager_reclaim(), 1);
    assert_eq!(list.eager_reclaim(), 0);
    assert!(list.insert(4, 16).is_none());
    assert_eq!(keys_of(&mut list), vec![0, 1, 2, 3, 4, 5, 6, 7, 8, 9]);
}

#[test]
fn an_iteration_unlinks_what_was_logically_removed() {
    let mut list = SkipList::with_seed(33);
    for k in 0..6 {
        list.insert(k, ());
    }
    for k in [0, 2, 5] {
        let node = list.find(&k, false).target.unwrap();
        assert!(list.remove_entry(&node));
    }
    let keys: Vec<i32> = list.iter().iter().map(|e| *e.key()).collect();
    assert_eq!(keys, vec![1, 3, 4]);
    assert_eq!(list.get_first().map(|e| *e.key()), Some(1));
    assert_eq!(list.get_last().map(|e| *e.key()), Some(4));
    // The walk helps at level 0 only; a search finishes the higher levels.
    assert!(list.find(&5, false).target.is_none());
    assert_eq!(list.eager_reclaim(), 3);
    assert_eq!(list.eager_reclaim(), 0);
}

#[test]
fn a_mark_can_be_taken_back() {
    let mut list = SkipList::with_seed(17);
    list.insert(1, "one");
    list.insert(2, "two");
    let node = list.find(&2, false).target.unwrap();
    assert!(!list.clear_removed(&node));
    assert!(list.mark_removed(&node));
    assert!(list.get(&2).is_none());
    assert!(list.remove(&2).is_none());
    assert_eq!(list.len(), 2);
    assert!(list.clear_removed(&node));
    assert_eq!(list.get(&2).map(|e| *e.val()), Some("two"));
    assert_eq!(list.remove(&2).map(|e| *e.val()), Some("two"));
    assert_eq!(list.len(), 1);
}

#[test]
fn node_mut_hands_out_the_node() {
    let mut list = SkipList::with_seed(17);
    list.insert(1, 10);
    let node = list.find(&1, false).target.unwrap();
    list.node_mut(&node).val = 11;
    assert_eq!(list.get(&1).map(|e| *e.val()), Some(11));
}
