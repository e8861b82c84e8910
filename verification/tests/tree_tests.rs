use avl::Tree;

#[test]
fn it_works() {
    let mut tree = Tree::<isize, isize>::new();
    tree.insert(4, 3);
    assert_eq!(tree.get(4), Some(3));
    assert_eq!(tree.get(3), None);
}

#[test]
fn it_wors_string() {
    let mut tree = Tree::<String, String>::new();
    tree.insert("a".into(), "a".into());
    assert_eq!(tree.get("a".into()), Some(String::from("a")));
    assert_eq!(tree.get("b".into()), None);
}

#[test]
fn key_string_value_isize() {
    let mut tree = Tree::<String, isize>::new();
    for i in 0..100 {
        let key = format!("{}", i);
        tree.insert(key, i);
    }
    for i in 0..100 {
        let key = format!("{}", i);
        let got = tree.get(key.clone());
        assert_eq!(got, Some(i));
    }

    for i in -100..0 {
        let key = format!("{}", i);
        let got = tree.get(key.clone());
        assert_eq!(got, None);
    }
    for i in 100..200 {
        let key = format!("{}", i);
        let got = tree.get(key.clone());
        assert_eq!(got, None);
    }
}

#[test]
fn ascending_inserts_rebalance() {
    // Keys 1, 2, 3 arrive in increasing order; after the third insert the
    // right-right rotation must have made 2 the subtree root with 1 and 3
    // as leaves of height 0 under a root of height 1.
    let mut tree = Tree::<isize, isize>::new();
    tree.insert(1, 1);
    tree.insert(2, 2);
    tree.insert(3, 3);
    let rows = tree.show();
    assert_eq!(rows.len(), 3);
    assert_eq!(rows[0].key, 1);
    assert_eq!(rows[1].key, 2);
    assert_eq!(rows[2].key, 3);
    assert_eq!(rows[0].height, 0);
    assert_eq!(rows[1].height, 1);
    assert_eq!(rows[2].height, 0);
    assert_eq!(rows[0].parent, 2);
    assert_eq!(rows[1].parent, 2);
    assert_eq!(rows[2].parent, 2);
    assert_eq!(rows[0].factor, 0);
    assert_eq!(rows[1].factor, 0);
    assert_eq!(rows[2].factor, 0);
    // A fourth ascending key keeps everything balanced.
    tree.insert(4, 4);
    let rows = tree.show();
    assert_eq!(rows.len(), 4);
    for row in rows.iter() {
        assert!(-1 <= row.factor && row.factor <= 1);
    }
}

#[test]
fn inserts_then_deletes() {
    let mut tree = Tree::<isize, isize>::new();
    tree.insert(1, 1);
    tree.insert(2, 2);
    tree.insert(3, 3);
    tree.insert(4, 4);
    assert_eq!(tree.delete(1), Some(1));
    assert_eq!(tree.get(1), None);
    assert_eq!(tree.get(2), Some(2));
    assert_eq!(tree.get(3), Some(3));
    assert_eq!(tree.get(4), Some(4));
    assert_eq!(tree.size, 3);
    assert_eq!(tree.delete(2), Some(2));
    assert_eq!(tree.size, 2);
}

#[test]
fn delete_node_with_two_children() {
    // A 7-node complete balanced tree rooted at 4.  Deleting the root
    // splices in its in-order predecessor (key 3): key 4 becomes absent,
    // every other pair keeps its value, and the remaining tree is still
    // an ordered, balanced search tree.
    let mut tree = Tree::<isize, isize>::new();
    for k in [4, 2, 6, 1, 3, 5, 7] {
        tree.insert(k, k * 10);
    }
    assert_eq!(tree.size, 7);
    assert_eq!(tree.delete(4), Some(40));
    assert_eq!(tree.size, 6);
    assert_eq!(tree.get(4), None);
    for k in [1, 2, 3, 5, 6, 7] {
        assert_eq!(tree.get(k), Some(k * 10));
    }
    // The predecessor now sits where the root was.
    let rows = tree.show();
    assert_eq!(rows.len(), 6);
    for pair in rows.windows(2) {
        assert!(pair[0].key < pair[1].key);
    }
    for row in rows.iter() {
        assert!(-1 <= row.factor && row.factor <= 1);
    }
    assert_eq!(rows[2].key, 3);
    assert_eq!(rows[2].parent, 3);
}

#[test]
fn duplicate_insert_changes_nothing() {
    let mut tree = Tree::<isize, isize>::new();
    assert_eq!(tree.insert(5, 50), Some(()));
    assert_eq!(tree.insert(5, 99), None);
    assert_eq!(tree.size, 1);
    assert_eq!(tree.get(5), Some(50));
}

#[test]
fn update_replaces_and_returns_previous() {
    let mut tree = Tree::<isize, isize>::new();
    tree.insert(7, 1);
    assert_eq!(tree.update(7, 2), Some(1));
    assert_eq!(tree.get(7), Some(2));
    assert_eq!(tree.size, 1);
    assert_eq!(tree.update(8, 3), None);
    assert_eq!(tree.get(8), None);
}

#[test]
fn update_reaches_right_subtree() {
    // Keys stored to the right of every visited node are found too.
    let mut tree = Tree::<isize, isize>::new();
    for k in 1..=10 {
        tree.insert(k, k);
    }
    for k in 1..=10 {
        assert_eq!(tree.update(k, -k), Some(k));
    }
    for k in 1..=10 {
        assert_eq!(tree.get(k), Some(-k));
    }
}

#[test]
fn delete_absent_key_is_a_no_op() {
    let mut tree = Tree::<isize, isize>::new();
    tree.insert(1, 1);
    tree.insert(2, 2);
    assert_eq!(tree.delete(9), None);
    assert_eq!(tree.size, 2);
    assert_eq!(tree.get(1), Some(1));
    assert_eq!(tree.get(2), Some(2));
}

#[test]
fn empty_tree_operations() {
    let mut tree = Tree::<isize, isize>::new();
    assert_eq!(tree.size, 0);
    assert_eq!(tree.get(0), None);
    assert_eq!(tree.delete(0), None);
    assert_eq!(tree.update(0, 1), None);
    assert_eq!(tree.size, 0);
    assert!(tree.show().is_empty());
}

#[test]
fn round_trip_survives_other_operations() {
    // A pair inserted and never deleted keeps its value through many
    // unrelated insertions and deletions.
    let mut tree = Tree::<isize, isize>::new();
    tree.insert(500, 5);
    for k in 0..200 {
        tree.insert(k, k);
    }
    for k in 0..200 {
        if k % 2 == 0 {
            assert_eq!(tree.delete(k), Some(k));
        }
    }
    assert_eq!(tree.get(500), Some(5));
    for k in 0..200 {
        if k % 2 == 0 {
            assert_eq!(tree.get(k), None);
        } else {
            assert_eq!(tree.get(k), Some(k));
        }
    }
}

#[test]
fn large_workload_stays_balanced() {
    let mut tree = Tree::<isize, isize>::new();
    for k in 0..1000 {
        tree.insert(k, k);
    }
    assert_eq!(tree.size, 1000);
    for k in (0..1000).step_by(3) {
        assert_eq!(tree.delete(k), Some(k));
    }
    let rows = tree.show();
    assert_eq!(rows.len(), tree.size);
    for pair in rows.windows(2) {
        assert!(pair[0].key < pair[1].key);
    }
    for row in rows.iter() {
        assert!(-1 <= row.factor && row.factor <= 1);
    }
    // With every factor in {-1, 0, 1} the height is logarithmic; for 667
    // keys it can be at most 13 even in the worst Fibonacci-shaped tree.
    let max_height = rows.iter().map(|r| r.height).max().unwrap();
    assert!(max_height <= 13);
}

#[test]
fn string_keys_sort_lexicographically() {
    let mut tree = Tree::<String, isize>::new();
    for (i, k) in ["pear", "apple", "fig", "banana", "quince", "date"]
        .iter()
        .enumerate()
    {
        tree.insert(k.to_string(), i as isize);
    }
    let rows = tree.show();
    let keys: Vec<&str> = rows.iter().map(|r| r.key.as_str()).collect();
    assert_eq!(keys, vec!["apple", "banana", "date", "fig", "pear", "quince"]);
}
