use skiplist::list::SkipList;
use skiplist::node::{Levels, Node, HEIGHT};
use skiplist::tagged::MaybeTagged;

#[test]
fn test_set_height() {
    let mut node = Node::new(3, (), 5);

    assert_eq!(node.height(), 5);

    assert!(!node.removed());

    assert!(node.set_removed().is_ok());

    assert!(node.removed());

    assert_eq!(node.height(), 5);

    node.set_height(3);

    assert_eq!(node.height(), 3);

    assert!(node.removed());

    assert_eq!(node.height(), 3);

    node.set_height(2);

    assert_eq!(node.height(), 2);

    assert_eq!(node.height(), 2);
}

#[test]
fn sync_test_new_node_sync() {
    let node = Node::new(100, "hello", 1);
    let other = Node::new(100, "hello", 1);
    println!("node 1: {:?},", node);
    println!("node 2: {:?},", other);
    let other = Node { key: 100, val: "hello", state: 1, levels: Levels::new(1) };

    println!("node 1: {:?}, node 2: {:?}", node, other);

    assert_eq!(node, other);
}

#[test]
fn mod_test_new_node_sync() {
    let node = Node::new(100, "hello", 1);
    let other = Node::new(100, "hello", 1);
    println!("node 1: {:?},", node);
    println!("node 2: {:?},", other);
    let other = Node { key: 100, val: "hello", state: 1, levels: Levels::new(1) };

    println!("node 1: {:?}, node 2: {:?}", node, other);

    assert_eq!(node, other);
}

#[test]
fn sync_test_rand_height_sync() {
    let mut list: SkipList<i32, i32> = SkipList::new();
    let node = Node::new_rand_height("Hello", "There!", &mut list);

    let height = node.levels.pointers.len();
    assert!(height >= 1);
    assert!(height <= HEIGHT);
    assert_eq!(height, node.height());

    println!("height: {}", height);

    println!("{:?}", node);
}

#[test]
fn mod_test_rand_height_sync() {
    let mut list: SkipList<i32, i32> = SkipList::new();
    let node = Node::new_rand_height("Hello", "There!", &mut list);

    let height = node.levels.pointers.len();
    assert!(height >= 1);
    assert!(height <= HEIGHT);
    assert_eq!(height, node.height());

    println!("height: {}", height);

    println!("{:?}", node);
}

#[test]
fn node_differs_by_key_or_value() {
    let node = Node::new(100, "hello", 1);
    assert_ne!(node, Node::new(101, "hello", 1));
    assert_ne!(node, Node::new(100, "there", 1));
    assert_eq!(node, Node::new(100, "hello", 7));
}

#[test]
fn tagged_cell_packs_address_and_tag() {
    let mut cell = MaybeTagged::null();
    assert_eq!(cell.load_decomposed(), (0, 0));
    cell.store_ptr(64);
    assert_eq!(cell.load_ptr(), 64);
    assert_eq!(cell.load_tag(), 0);
    assert_eq!(cell.word, 64);

    assert_eq!(cell.compare_exchange_tag(0, 1), Ok(0));
    assert_eq!(cell.load_decomposed(), (64, 1));
    assert_eq!(cell.word, 65);

    // A tagged address is not the same address without a tag.
    assert_eq!(cell.compare_exchange(64, 128), Err((64, 1)));
    assert_eq!(cell.load_decomposed(), (64, 1));

    assert_eq!(cell.compare_exchange_with_tag(64, 1, 128, 2), Ok((64, 1)));
    assert_eq!(cell.load_decomposed(), (128, 2));
    assert_eq!(cell.compare_exchange_tag(0, 1), Err(2));
    assert_eq!(cell.compare_exchange_with_tag(128, 1, 8, 0), Err((128, 2)));
    assert_eq!(cell.compare_exchange_with_tag(128, 2, 8, 0), Ok((128, 2)));
    assert_eq!(cell.compare_exchange(8, 12), Ok((8, 0)));
    assert_eq!(cell.load_decomposed(), (12, 0));
}

#[test]
fn state_word_packs_height_count_and_flag() {
    let mut node = Node::new(1u8, 2u8, 32);
    assert_eq!(node.height(), 32);
    assert_eq!(node.refs(), 0);
    assert!(!node.removed());
    assert_eq!(node.state, 32);

    assert_eq!(node.add_ref(), 0);
    assert_eq!(node.add_ref(), 1);
    assert_eq!(node.refs(), 2);
    assert_eq!(node.state, 32 + 2 * 64);
    assert_eq!(node.height(), 32);

    assert_eq!(node.set_removed(), Ok(32 + 2 * 64));
    assert!(node.removed());
    assert_eq!(node.state, 0x8000_0000 + 32 + 2 * 64);
    // The flag is set once.
    assert_eq!(node.set_removed(), Err(()));
    assert!(node.removed());
    assert_eq!(node.refs(), 2);
    assert_eq!(node.height(), 32);

    assert_eq!(node.sub_ref(), 2);
    assert_eq!(node.try_sub_ref(), Ok(0));
    assert_eq!(node.try_sub_ref(), Err(()));
    assert_eq!(node.refs(), 0);
    // A node that nothing links to is not brought back.
    assert_eq!(node.try_add_ref(), Err(()));
    assert_eq!(node.refs(), 0);
    assert_eq!(node.add_ref(), 0);
    assert_eq!(node.try_add_ref(), Ok(2));
    assert!(node.removed());
}

#[test]
fn set_har_with_swaps_the_state_word() {
    let mut node = Node::new(1u8, (), 4);
    assert_eq!(node.set_har_with(|w| w), Err(()));
    assert_eq!(node.state, 4);
    assert_eq!(node.set_har_with(|w| w | 0x8000_0000), Ok(4));
    assert!(node.removed());
    assert_eq!(node.set_har_with(|w| w & (u32::MAX >> 1)), Ok(0x8000_0004));
    assert!(!node.removed());
    assert_eq!(node.height(), 4);
}

#[test]
fn tag_levels_goes_from_the_top_down() {
    let mut node = Node::new(1u8, (), 3);
    assert_eq!(node.tag_levels(1), Ok(2));
    for level in 0..3 {
        assert_eq!(node.levels.index(level).load_tag(), 1);
    }
    // Every level carries a tag now: the top one rejects the change.
    assert_eq!(node.tag_levels(2), Err(2));

    let mut node = Node::new(1u8, (), 3);
    assert_eq!(node.levels.pointers[1].compare_exchange_tag(0, 2), Ok(0));
    assert_eq!(node.tag_levels(1), Err(1));
    assert_eq!(node.levels.index(2).load_tag(), 1);
    assert_eq!(node.levels.index(1).load_tag(), 2);
    assert_eq!(node.levels.index(0).load_tag(), 0);
}

#[test]
fn try_remove_and_tag_marks_then_tags() {
    let mut node = Node::new(1u8, (), 2);
    assert_eq!(node.try_remove_and_tag(), Ok(()));
    assert!(node.removed());
    assert_eq!(node.levels.index(0).load_tag(), 1);
    assert_eq!(node.levels.index(1).load_tag(), 1);
    assert_eq!(node.try_remove_and_tag(), Err(()));
}

#[test]
fn try_remove_and_tag_fails_on_a_tagged_level() {
    let mut node = Node::new(1u8, (), 3);
    assert_eq!(node.levels.pointers[1].compare_exchange_tag(0, 2), Ok(0));
    assert_eq!(node.try_remove_and_tag(), Err(()));
    // The flag is set, and the level above the tagged one is tagged.
    assert!(node.removed());
    assert_eq!(node.levels.index(2).load_tag(), 1);
    assert_eq!(node.levels.index(1).load_tag(), 2);
    assert_eq!(node.levels.index(0).load_tag(), 0);
}

#[test]
fn levels_size_counts_the_cells_above_the_first() {
    let word = std::mem::size_of::<usize>();
    assert_eq!(Levels::get_size(1), 0);
    assert_eq!(Levels::get_size(2), word);
    assert_eq!(Levels::get_size(32), 31 * word);
    assert_eq!(Levels::new(5).len(), 5);
}
