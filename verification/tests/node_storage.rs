use matrix_graph::node_storage::{NodeStorage, NodeStorageIterator};

fn create_node_storage() -> NodeStorage<u32> {
    NodeStorage::<u32>::default()
}

fn collect(mut cursor: NodeStorageIterator<'_, u32>) -> Vec<&u32> {
    let mut out = Vec::new();
    while let Some(node) = cursor.next() {
        out.push(node);
    }
    out
}

#[test]
fn test_add_new_node() {
    let mut ns = create_node_storage();
    ns.add(54);
    assert_eq!(ns.len(), 1);
    assert!(ns.contains(&54));
}

#[test]
fn test_add_insert_to_removed_index() {
    let mut ns = create_node_storage();
    ns.add(34);
    ns.add(46);
    ns.add(90);

    ns.remove(1);

    ns.add(56);

    assert_eq!(ns.get_index_of(&56).unwrap(), 1);
}

#[test]
fn test_remove_returns_node() {
    let mut ns = create_node_storage();
    ns.add(54);
    ns.remove(0);
    assert_eq!(ns.len(), 0);
}

#[test]
fn test_remove_returns_none_if_not_exists() {
    let mut ns = create_node_storage();
    let node = ns.remove(123);
    assert!(node.is_none());
}

#[test]
fn test_get_index_of_returns_correct_index() {
    let mut ns = create_node_storage();
    let nodes = vec![134, 235, 2342, 2123, 543];
    for (idx, node) in nodes.iter().enumerate() {
        ns.add(*node);
        assert_eq!(ns.get_index_of(node).unwrap(), idx);
    }
}

#[test]
fn test_iter_iterates_over_all_some_elements() {
    let mut ns = create_node_storage();
    let nodes = vec![123, 123123, 213533, 234, 1254];
    for node in nodes.iter() {
        ns.add(*node);
    }
    let actual = collect(ns.iter());
    let expected = nodes.iter().collect::<Vec<_>>();
    assert_eq!(expected, actual);
}

#[test]
fn test_get_node_by_index() {
    let mut ns = create_node_storage();
    let nodes = vec![54, 78, 45, 123, 902];
    for node in nodes.iter() {
        ns.add(*node);
    }

    for (idx, node) in nodes.iter().enumerate() {
        let actual = ns.get_node_by_index(idx).unwrap();
        assert_eq!(node, actual);
    }
}

#[test]
fn remove_returns_the_value_and_frees_the_slot() {
    let mut ns = create_node_storage();
    ns.add(7);
    ns.add(8);
    assert_eq!(ns.remove(0), Some(7));
    assert_eq!(ns.remove(0), None);
    assert_eq!(ns.len(), 1);
    assert!(!ns.is_empty());
    assert!(!ns.contains(&7));
    assert_eq!(ns.get_index_of(&7), None);
    assert_eq!(ns.get_checked(0), None);
    assert_eq!(ns.get_checked(1), Some(&8));
    assert_eq!(ns.get_checked(2), None);
    assert_eq!(*ns.get(1), 8);
    assert_eq!(ns.slot_count(), 2);
}

#[test]
fn freed_index_is_reused_last_freed_first() {
    let mut ns = create_node_storage();
    for value in [10, 20, 30, 40] {
        ns.add(value);
    }
    ns.remove(1);
    ns.remove(3);
    assert_eq!(ns.add(50), 3);
    assert_eq!(ns.add(60), 1);
    assert_eq!(ns.add(70), 4);
    assert_eq!(ns.get_index_of(&20), None);
    assert_eq!(ns.get_index_of(&40), None);
    assert_eq!(ns.len(), 5);
}

#[test]
fn store_remove_store_takes_the_same_index() {
    let mut ns = create_node_storage();
    ns.add(1);
    let i = ns.add(2);
    assert_eq!(ns.remove(i), Some(2));
    let j = ns.add(3);
    assert_eq!(i, j);
    assert_eq!(ns.get_index_of(&2), None);
    assert_eq!(ns.get_index_of(&3), Some(i));
}

#[test]
fn values_with_equal_hashes_are_told_apart() {
    // On u8 the hash is the value, so equal hashes cannot be had here; on
    // u64 two values share a bucket only when they are equal. Values that
    // were removed and stored again must still be found at their new index.
    let mut ns = NodeStorage::<u64>::default();
    for value in 0..100u64 {
        assert_eq!(ns.add(value), value as usize);
    }
    for value in (0..100u64).step_by(2) {
        assert_eq!(ns.remove(value as usize), Some(value));
    }
    for value in (0..100u64).step_by(2) {
        assert!(!ns.contains(&value));
        assert_eq!(ns.get_index_of(&(value + 1)), Some(value as usize + 1));
    }
    assert_eq!(ns.len(), 50);
    assert_eq!(ns.add(1000), 98);
}

#[test]
fn iteration_skips_empty_slots_in_index_order() {
    let mut ns = create_node_storage();
    for value in [5, 6, 7, 8] {
        ns.add(value);
    }
    ns.remove(0);
    ns.remove(2);
    assert_eq!(collect(ns.iter()), vec![&6, &8]);
    ns.add(9);
    assert_eq!(collect(ns.iter()), vec![&6, &9, &8]);
    let empty = create_node_storage();
    assert!(collect(empty.iter()).is_empty());
    assert!(empty.is_empty());
}

#[test]
fn signed_values_and_flags_can_be_nodes() {
    let mut ns = NodeStorage::<i32>::default();
    for value in [-3, 0, 3, i32::MIN, i32::MAX] {
        ns.add(value);
    }
    assert_eq!(ns.get_index_of(&-3), Some(0));
    assert_eq!(ns.get_index_of(&i32::MIN), Some(3));
    assert_eq!(ns.get_index_of(&-4), None);
    assert_eq!(ns.remove(0), Some(-3));
    assert!(!ns.contains(&-3));
    assert!(ns.contains(&3));
    let mut flags = NodeStorage::<bool>::default();
    assert_eq!(flags.add(true), 0);
    assert_eq!(flags.add(false), 1);
    assert!(flags.contains(&true));
    assert_eq!(flags.get_index_of(&false), Some(1));
    let mut letters = NodeStorage::<char>::default();
    letters.add('x');
    assert_eq!(letters.get_index_of(&'x'), Some(0));
    assert_eq!(letters.get_index_of(&'y'), None);
}
