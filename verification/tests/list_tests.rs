use skiplist::list::SkipList;
use std::sync::atomic::{AtomicUsize, Ordering};
use std::sync::Arc;

struct CountOnDrop<K> {
    key: K,
    counter: Arc<AtomicUsize>,
}

impl<K> CountOnDrop<K> {
    fn new(key: K, counter: Arc<AtomicUsize>) -> Self {
        CountOnDrop { key, counter }
    }

    fn new_none(key: K) -> Self {
        CountOnDrop { key, counter: Arc::new(AtomicUsize::new(0)) }
    }
}

impl<K: Eq> PartialEq for CountOnDrop<K> {
    fn eq(&self, other: &Self) -> bool {
        self.key == other.key
    }
}

impl<K: Eq> Eq for CountOnDrop<K> {}

impl<K: Ord> PartialOrd for CountOnDrop<K> {
    fn partial_cmp(&self, other: &Self) -> Option<std::cmp::Ordering> {
        Some(self.key.cmp(&other.key))
    }
}

impl<K: Ord> Ord for CountOnDrop<K> {
    fn cmp(&self, other: &Self) -> std::cmp::Ordering {
        self.key.cmp(&other.key)
    }
}

impl<K> Drop for CountOnDrop<K> {
    fn drop(&mut self) {
        println!("writing to counter!");
        println!("count: {}", self.counter.load(Ordering::SeqCst));
        self.counter.fetch_add(1, Ordering::SeqCst);
        println!("wrote to counter");
    }
}

fn print_keys(list: &mut SkipList<i32, i32>) {
    for n in list.iter() {
        println!("k: {},", n.key());
    }
}

#[test]
fn sync_test_new_list_sync() {
    let _: SkipList<usize, usize> = SkipList::new();
}

#[test]
fn mod_test_new_list_sync() {
    let _: SkipList<usize, usize> = SkipList::new();
}

#[test]
fn sync_test_insert_sync() {
    let mut list = SkipList::new();
    let mut rng: u16 = rand::random();

    for _ in 0..100_000 {
        rng ^= rng << 3;
        rng ^= rng >> 12;
        rng ^= rng << 7;
        list.insert(rng, "hello there!");
    }
}

#[test]
fn mod_test_insert_sync() {
    let mut list = SkipList::new();
    let mut rng: u16 = rand::random();

    for _ in 0..10_000 {
        rng ^= rng << 3;
        rng ^= rng >> 12;
        rng ^= rng << 7;
        list.insert(rng, "hello there!");
    }
}

#[test]
fn test_drop() {
    let counter = Arc::new(AtomicUsize::new(0));

    let mut list = SkipList::new();

    list.insert(CountOnDrop::new(1, counter.clone()), ());

    list.remove(&CountOnDrop::new_none(1));

    list.insert(CountOnDrop::new(1, counter.clone()), ());

    list.insert(CountOnDrop::new(1, counter.clone()), ());

    println!("length: {}", list.len());

    list.eager_reclaim();

    std::sync::atomic::fence(Ordering::SeqCst);

    assert_eq!(counter.load(Ordering::SeqCst), 2);

    drop(list);

    assert_eq!(counter.load(Ordering::SeqCst), 3);
}

#[test]
fn sync_test_insert_verbose_sync() {
    let mut list = SkipList::new();

    list.insert(1, 1);
    print_keys(&mut list);

    println!("/////////////////////////////////////////////////////////////////////////");
    println!("/////////////////////////////////////////////////////////////////////////");

    list.insert(2, 2);
    print_keys(&mut list);

    println!("/////////////////////////////////////////////////////////////////////////");
    println!("/////////////////////////////////////////////////////////////////////////");

    list.insert(5, 3);
    print_keys(&mut list);

    println!("trying to drop");
}

#[test]
fn mod_test_insert_verbose_sync() {
    let mut list = SkipList::new();

    list.insert(1, 1);

    list.iter().iter().for_each(|n| println!("k: {},", n.key()));

    list.insert(2, 2);

    list.iter().iter().for_each(|n| println!("k: {},", n.key()));

    list.insert(5, 3);

    list.iter().iter().for_each(|n| println!("k: {},", n.key()));
}

#[test]
fn sync_test_remove() {
    let mut list = SkipList::new();
    let mut rng: u16 = rand::random();

    for _ in 0..100_000 {
        rng ^= rng << 3;
        rng ^= rng >> 12;
        rng ^= rng << 7;
        list.insert(rng, "hello there!");
    }
    for _ in 0..100_000 {
        rng ^= rng << 3;
        rng ^= rng >> 12;
        rng ^= rng << 7;
        list.remove(&rng);
    }
}

#[test]
fn mod_test_remove() {
    let mut list = SkipList::new();
    let mut rng: u16 = rand::random();

    for _ in 0..10_000 {
        rng ^= rng << 3;
        rng ^= rng >> 12;
        rng ^= rng << 7;
        list.insert(rng, "hello there!");
    }
    for _ in 0..10_000 {
        rng ^= rng << 3;
        rng ^= rng >> 12;
        rng ^= rng << 7;
        list.remove(&rng);
    }
}

#[test]
fn sync_test_verbose_remove() {
    let mut list = SkipList::new();

    list.insert(1, 1);
    list.insert(2, 2);
    list.insert(2, 2);
    list.insert(5, 3);

    print_keys(&mut list);

    assert!(list.remove(&1).is_some());

    println!("/////////////////////////////////////////////////////////////////////////");
    println!("/////////////////////////////////////////////////////////////////////////");

    print_keys(&mut list);

    println!("removing 6");
    assert!(list.remove(&6).is_none());
    println!("removing 1");
    assert!(list.remove(&1).is_none());
    println!("removing 5");
    assert!(list.remove(&5).is_some());
    println!("removing 2");
    assert!(list.remove(&2).is_some());

    println!("/////////////////////////////////////////////////////////////////////////");
    println!("/////////////////////////////////////////////////////////////////////////");

    print_keys(&mut list);

    assert_eq!(list.len(), 0);
}

#[test]
fn mod_test_verbose_remove() {
    let mut list = SkipList::new();

    list.insert(1, 1);
    list.insert(2, 2);
    list.insert(2, 2);
    list.insert(5, 3);

    list.iter().iter().for_each(|n| println!("k: {},", n.key()));

    assert!(list.remove(&1).is_some());

    list.iter().iter().for_each(|n| println!("k: {},", n.key()));

    println!("removing 6");
    assert!(list.remove(&6).is_none());
    println!("removing 1");
    assert!(list.remove(&1).is_none());
    println!("removing 5");
    assert!(list.remove(&5).is_some());
    println!("removing 2");
    assert!(list.remove(&2).is_some());

    list.iter().iter().for_each(|n| println!("k: {},", n.key()));

    assert_eq!(list.len(), 0);
}

#[test]
fn sync_test_find_removed() {
    let mut list = SkipList::new();

    list.insert(3, ());

    list.insert(4, ());

    list.insert(5, ());

    assert!(list.find(&3, false).target.is_some());
    assert!(list.find(&4, false).target.is_some());

    // get references to the nodes
    let node_3 = list.find(&3, false).target.unwrap();
    let node_4 = list.find(&4, false).target.unwrap();
    let node_5 = list.find(&5, false).target.unwrap();

    // make sure it is the right node
    assert_eq!(list.node(&node_3).key, 3);
    println!("{:?}", list.node(&node_3));
    assert_eq!(list.node(&node_4).key, 4);
    println!("{:?}", list.node(&node_4));
    assert_eq!(list.node(&node_5).key, 5);
    println!("{:?}", list.node(&node_5));

    // remove the node logically
    assert!(list.mark_removed(&node_4));

    assert!(list.find(&4, false).target.is_none());

    assert!(list.find(&4, true).target.is_some());

    println!("{:?}", list.find(&3, false).target);

    assert!(!list.node(&node_3).removed());

    assert!(list.remove(&4).is_none());

    // take the mark back
    assert!(list.clear_removed(&node_4));

    assert!(!list.node(&node_4).removed());

    assert!(list.remove(&4).is_some());
}

#[test]
fn mod_test_find_removed() {
    let mut list = SkipList::new();

    list.insert(3, ());

    list.insert(4, ());

    list.insert(5, ());

    assert!(list.find(&3, false).target.is_some());
    assert!(list.find(&4, false).target.is_some());

    // get references to the nodes
    let node_3 = list.find(&3, false).target.unwrap();
    let node_4 = list.find(&4, false).target.unwrap();
    let node_5 = list.find(&5, false).target.unwrap();

    // make sure it is the right node
    assert_eq!(list.node(&node_3).key, 3);
    println!("{:?}", list.node(&node_3));
    assert_eq!(list.node(&node_4).key, 4);
    println!("{:?}", list.node(&node_4));
    assert_eq!(list.node(&node_5).key, 5);
    println!("{:?}", list.node(&node_5));

    // remove the node logically
    assert!(list.mark_removed(&node_4));

    assert!(list.find(&4, false).target.is_none());

    println!("{:?}", list.find(&3, false).target);

    assert!(!list.node(&node_3).removed());

    assert!(list.remove(&4).is_none());

    // take the mark back
    assert!(list.clear_removed(&node_4));

    assert!(!list.node(&node_4).removed());

    assert!(list.remove(&4).is_some());
}

#[test]
fn every_key_is_dropped_once() {
    let counter = Arc::new(AtomicUsize::new(0));
    let mut made = 0usize;
    let mut list = SkipList::new();
    for _ in 0..20 {
        for _ in 0..5_000 {
            let target: u8 = rand::random();
            let dice: u8 = rand::random();
            if dice % 5 == 0 {
                // The probe is a key of its own, with a counter of its own.
                list.remove(&CountOnDrop::new_none(target));
            } else {
                made += 1;
                list.insert(CountOnDrop::new(target, counter.clone()), ());
            }
        }
    }
    let held = list.len();
    list.eager_reclaim();
    assert_eq!(counter.load(Ordering::SeqCst), made - held);
    drop(list);
    assert_eq!(counter.load(Ordering::SeqCst), made);
}
