use btree::{BTree, Node};

fn root_index(t: &BTree) -> usize {
    let r = t.root();
    (0..t.node_count())
        .find(|&i| std::ptr::eq(t.node(i), r))
        .unwrap()
}

/// Arena indices of the nodes reachable from the root, with their depth.
fn reachable(t: &BTree) -> Vec<(usize, usize)> {
    let mut out = Vec::new();
    let mut stack = vec![(root_index(t), 0usize)];
    while let Some((n, d)) = stack.pop() {
        out.push((n, d));
        let node = t.node(n);
        if !node.is_leaf {
            for &c in node.children.iter().rev() {
                stack.push((c, d + 1));
            }
        }
    }
    out
}

fn leaf_depths(t: &BTree) -> Vec<usize> {
    reachable(t)
        .into_iter()
        .filter(|&(n, _)| t.node(n).is_leaf)
        .map(|(_, d)| d)
        .collect()
}

fn check_shape(t: &BTree, order: usize) {
    for (n, _) in reachable(t) {
        let node = t.node(n);
        assert!(node.keys.len() <= order - 1);
        assert!(node.keys.windows(2).all(|w| w[0] <= w[1]));
        if node.is_leaf {
            assert_eq!(node.values.len(), node.keys.len());
        } else {
            assert_eq!(node.children.len(), node.keys.len() + 1);
            for &c in &node.children {
                assert_eq!(t.node(c).parent, Some(n));
            }
        }
    }
    let depths = leaf_depths(t);
    assert!(depths.iter().all(|&d| d == depths[0]));
}

fn leftmost_leaf(t: &BTree) -> usize {
    let mut n = root_index(t);
    while !t.node(n).is_leaf {
        n = t.node(n).children[0];
    }
    n
}

#[test]
fn scenario_three_two_one_four() {
    let mut t = BTree::new(4);
    t.insert(3, 3);
    t.insert(2, 2);
    t.insert(1, 1);
    t.insert(4, 4);
    check_shape(&t, 4);
    assert!(!t.root().is_leaf);
    assert_eq!(t.root().keys, vec![3]);
    assert_eq!(t.get(4), Some(4));
    assert_eq!(t.get(5), None);
    for k in 1..=4 {
        assert_eq!(t.get(k), Some(k));
    }
}

#[test]
fn scenario_one_to_ten() {
    let mut t = BTree::new(4);
    for i in 1..=10 {
        t.insert(i, i);
    }
    check_shape(&t, 4);
    for i in 1..=10 {
        assert_eq!(t.get(i), Some(i));
    }
    assert_eq!(t.get(7), Some(7));
    assert_eq!(t.get(0), None);
    assert_eq!(t.get(11), None);
}

#[test]
fn scenario_duplicate_key_first_wins() {
    let mut t = BTree::new(4);
    t.insert(5, 5);
    t.insert(5, 6);
    let root = t.root();
    assert!(root.is_leaf);
    assert_eq!(root.keys, vec![5, 5]);
    assert_eq!(root.values, vec![5, 6]);
    assert_eq!(t.get(5), Some(5));
}

#[test]
fn scenario_order_two_splits_on_every_key() {
    let mut t = BTree::new(2);
    t.insert(1, 1);
    assert!(t.root().is_leaf);
    assert_eq!(t.node_count(), 1);
    t.insert(2, 2);
    assert!(!t.root().is_leaf);
    assert_eq!(t.node_count(), 3);
    assert_eq!(leaf_depths(&t), vec![1, 1]);
    t.insert(3, 3);
    check_shape(&t, 2);
    assert_eq!(leaf_depths(&t), vec![2, 2, 2]);
    for k in 1..=3 {
        assert_eq!(t.get(k), Some(k));
    }
    assert_eq!(t.get(4), None);
}

#[test]
fn round_trip_unique_keys() {
    let mut t = BTree::new(4);
    for i in 0..101usize {
        let k = (i * 37) % 101;
        t.insert(k, k + 1000);
        assert_eq!(t.get(k), Some(k + 1000));
    }
    for k in 0..101usize {
        assert_eq!(t.get(k), Some(k + 1000));
    }
}

#[test]
fn invariants_hold_after_every_insertion() {
    for order in 2..7usize {
        let mut t = BTree::new(order);
        for i in 0..60usize {
            t.insert((i * 13) % 31, i);
            check_shape(&t, order);
        }
    }
}

#[test]
fn leaf_chain_visits_every_leaf_in_order() {
    let mut t = BTree::new(3);
    for i in 0..40usize {
        t.insert((i * 17) % 41, i);
    }
    let leaves: Vec<usize> = reachable(&t)
        .into_iter()
        .filter(|&(n, _)| t.node(n).is_leaf)
        .map(|(n, _)| n)
        .collect();
    let mut chain = Vec::new();
    let mut keys = Vec::new();
    let mut cur = Some(leftmost_leaf(&t));
    while let Some(n) = cur {
        chain.push(n);
        keys.extend(t.node(n).keys.iter().copied());
        cur = t.node(n).next;
    }
    assert_eq!(chain, leaves);
    assert_eq!(keys.len(), 40);
    assert!(keys.windows(2).all(|w| w[0] <= w[1]));
}

#[test]
fn miss_on_absent_keys() {
    let mut t = BTree::new(4);
    assert_eq!(t.get(0), None);
    for i in 0..20usize {
        t.insert(2 * i, i);
    }
    for i in 0..20usize {
        assert_eq!(t.get(2 * i + 1), None);
        assert_eq!(t.get(2 * i), Some(i));
    }
    assert_eq!(t.get(usize::MAX), None);
}

#[test]
fn largest_keys() {
    let mut t = BTree::new(3);
    for i in 0..10usize {
        t.insert(usize::MAX - i, i);
    }
    check_shape(&t, 3);
    for i in 0..10usize {
        assert_eq!(t.get(usize::MAX - i), Some(i));
    }
}

#[test]
fn many_equal_keys_keep_insertion_order() {
    let mut t = BTree::new(4);
    for v in 0..9usize {
        t.insert(7, v);
    }
    check_shape(&t, 4);
    let mut values = Vec::new();
    let mut cur = Some(leftmost_leaf(&t));
    while let Some(n) = cur {
        values.extend(t.node(n).values.iter().copied());
        cur = t.node(n).next;
    }
    assert_eq!(values, (0..9).collect::<Vec<usize>>());
}

#[test]
fn node_place_is_stable_and_reports_overflow() {
    let mut n = Node::new(3);
    assert!(n.is_leaf);
    assert!(!n.is_overflow());
    assert!(!n.place(4, 40));
    assert!(!n.place(2, 20));
    assert!(n.place(4, 41));
    assert_eq!(n.keys, vec![2, 4, 4]);
    assert_eq!(n.values, vec![20, 40, 41]);
    assert!(n.is_overflow());
    assert_eq!(n.position(4), 3);
    assert_eq!(n.position(3), 1);
    assert_eq!(n.position(1), 0);
}

#[test]
fn node_insert_splits_an_overflowing_leaf() {
    let mut n = Node::new(3);
    n.next = Some(9);
    n.parent = Some(5);
    assert!(n.insert(4, 40, 7).is_none());
    assert!(n.insert(2, 20, 7).is_none());
    assert_eq!(n.next, Some(9));
    let (sep, right) = n.insert(4, 41, 7).unwrap();
    assert_eq!(n.keys, vec![2]);
    assert_eq!(n.values, vec![20]);
    assert_eq!(n.next, Some(7));
    assert_eq!(sep, 4);
    assert_eq!(right.keys, vec![4, 4]);
    assert_eq!(right.values, vec![40, 41]);
    assert_eq!(right.next, Some(9));
    assert_eq!(right.parent, Some(5));
    assert_eq!(right.order, 3);
    assert!(right.is_leaf);
}

#[test]
fn node_get_returns_first_match() {
    let mut n = Node::new(8);
    n.place(1, 10);
    n.place(3, 30);
    n.place(3, 31);
    assert_eq!(n.get(3), Some(30));
    assert_eq!(n.get(1), Some(10));
    assert_eq!(n.get(2), None);
}

fn chain_keys(t: &BTree) -> Vec<Vec<usize>> {
    let mut out = Vec::new();
    let mut cur = Some(leftmost_leaf(t));
    while let Some(n) = cur {
        out.push(t.node(n).keys.clone());
        cur = t.node(n).next;
    }
    out
}

#[test]
fn scenario_shapes_after_splits() {
    let mut t = BTree::new(4);
    for k in [3usize, 2, 1, 4] {
        t.insert(k, k);
    }
    assert_eq!(t.root().keys, vec![3]);
    assert_eq!(chain_keys(&t), vec![vec![1, 2], vec![3, 4]]);

    let mut t = BTree::new(4);
    for i in 1..=10usize {
        t.insert(i, i);
    }
    assert_eq!(t.root().keys, vec![7]);
    assert_eq!(leaf_depths(&t), vec![2, 2, 2, 2, 2]);
    assert_eq!(
        chain_keys(&t),
        vec![vec![1, 2], vec![3, 4], vec![5, 6], vec![7, 8], vec![9, 10]]
    );

    let mut t = BTree::new(2);
    for i in 1..=3usize {
        t.insert(i, i);
    }
    assert_eq!(t.root().keys, vec![3]);
    assert_eq!(chain_keys(&t), vec![vec![1], vec![2], vec![3]]);
}

#[test]
fn duplicates_spanning_leaves_take_first_in_reached_leaf() {
    let mut t = BTree::new(4);
    for v in 0..5usize {
        t.insert(5, v);
    }
    assert_eq!(chain_keys(&t), vec![vec![5, 5], vec![5, 5, 5]]);
    assert_eq!(t.root().keys, vec![5]);
    assert_eq!(t.get(5), Some(2));
}
