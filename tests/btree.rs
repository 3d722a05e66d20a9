use btree::node::LINEAR_LIMIT;
use btree::{BTree, Entry, Node};

fn build(t: usize, keys: &[u64]) -> BTree<u64> {
    let mut tree = BTree::new(t);
    for &k in keys {
        tree.insert(k, k * 10 + 1);
    }
    tree
}

/// Checks node sizes, key order and leaf depth; returns the subtree's height.
fn check_node(node: &Node<u64>, t: usize, is_root: bool, lo: Option<u64>, hi: Option<u64>) -> usize {
    assert_eq!(node.n, node.keys.len());
    assert!(node.n <= 2 * t - 1);
    if !is_root {
        assert!(node.n >= t - 1);
    }
    for i in 1..node.n {
        assert!(node.keys[i - 1].key < node.keys[i].key);
    }
    for e in node.keys.iter() {
        if let Some(l) = lo {
            assert!(e.key >= l);
        }
        if let Some(h) = hi {
            assert!(e.key <= h);
        }
    }
    if node.leaf {
        assert!(node.child.is_empty());
        return 0;
    }
    assert_eq!(node.child.len(), node.n + 1);
    let mut height = None;
    for (i, c) in node.child.iter().enumerate() {
        let clo = if i == 0 { lo } else { Some(node.keys[i - 1].key) };
        let chi = if i == node.n { hi } else { Some(node.keys[i].key) };
        let h = check_node(c, t, false, clo, chi);
        match height {
            None => height = Some(h),
            Some(prev) => assert_eq!(prev, h),
        }
    }
    height.unwrap() + 1
}

fn check_tree(tree: &BTree<u64>) {
    if let Some(r) = &tree.root {
        assert!(r.n >= 1);
        check_node(r, tree.t, true, None, None);
    }
}

#[test]
fn entry_keeps_key_and_value() {
    let e = Entry::new(7u64, 'x');
    assert_eq!(*e.get_key(), 7);
    assert_eq!(e.value, 'x');
}

#[test]
fn degree_two_scenario() {
    let tree = build(2, &[10, 20, 5, 6, 12, 30, 7, 17]);
    let found = tree.search(&6).unwrap();
    assert_eq!(found.key, 6);
    assert_eq!(found.value, 61);
    assert!(tree.search(&99).is_none());
    // the last insertion splits the full leaf [12, 20, 30] and promotes 20
    let root = tree.root.as_ref().unwrap();
    assert_eq!(root.n, 2);
    assert_eq!(root.keys[0].key, 10);
    assert_eq!(root.keys[1].key, 20);
    let e = tree.search(&17).unwrap();
    assert_eq!(e.value, 171);
    check_tree(&tree);
}

#[test]
fn degree_two_traversal_is_node_order() {
    let tree = build(2, &[10, 20, 5, 6, 12, 30, 7, 17]);
    let keys: Vec<u64> = tree.traverse().unwrap().iter().map(|e| e.key).collect();
    assert_eq!(keys, vec![10, 20, 5, 6, 7, 12, 17, 30]);
}

#[test]
fn empty_tree_traverse_is_none() {
    let tree: BTree<u64> = BTree::new(2);
    assert!(tree.traverse().is_none());
    assert!(tree.search(&1).is_none());
    assert!(tree.search_linear(&1).is_none());
    let mut tree = tree;
    tree.insert(1, 5);
    let all = tree.traverse().unwrap();
    assert_eq!(all.len(), 1);
    assert_eq!(all[0].key, 1);
    assert_eq!(all[0].value, 5);
}

#[test]
fn first_insert_makes_leaf_root() {
    let mut tree: BTree<u64> = BTree::new(3);
    tree.insert(42, 1);
    let root = tree.root.as_ref().unwrap();
    assert!(root.leaf);
    assert_eq!(root.n, 1);
}

#[test]
fn full_root_split_grows_height() {
    let tree = build(2, &[1, 2, 3]);
    assert!(tree.root.as_ref().unwrap().leaf);
    let tree2 = build(2, &[1, 2, 3, 4]);
    let root = tree2.root.as_ref().unwrap();
    assert!(!root.leaf);
    assert_eq!(root.n, 1);
    assert_eq!(root.keys[0].key, 2);
    assert_eq!(root.child[0].keys.iter().map(|e| e.key).collect::<Vec<_>>(), vec![1]);
    assert_eq!(root.child[1].keys.iter().map(|e| e.key).collect::<Vec<_>>(), vec![3, 4]);
}

fn scrambled(n: u64) -> Vec<u64> {
    (0..n).map(|i| (i * 7919) % n * 2 + 1).collect()
}

#[test]
fn distinct_keys_are_found_and_absent_missed() {
    for t in [2usize, 3, 5, 16] {
        let keys = scrambled(1000);
        let tree = build(t, &keys);
        for &k in &keys {
            let e = tree.search(&k).unwrap();
            assert_eq!(e.key, k);
            assert_eq!(e.value, k * 10 + 1);
        }
        for k in 0..1001u64 {
            let absent = k * 2;
            assert!(tree.search(&absent).is_none());
            assert!(tree.search_linear(&absent).is_none());
        }
        check_tree(&tree);
    }
}

#[test]
fn search_and_linear_search_agree() {
    let keys = scrambled(600);
    let tree = build(4, &keys);
    for k in 0..1300u64 {
        let a = tree.search(&k).map(|e| (e.key, e.value));
        let b = tree.search_linear(&k).map(|e| (e.key, e.value));
        assert_eq!(a, b);
    }
}

#[test]
fn traversal_holds_each_key_once() {
    let keys = scrambled(777);
    let tree = build(3, &keys);
    let all = tree.traverse().unwrap();
    assert_eq!(all.len(), keys.len());
    let mut got: Vec<u64> = all.iter().map(|e| e.key).collect();
    got.sort();
    let mut want = keys.clone();
    want.sort();
    assert_eq!(got, want);
}

#[test]
fn invariants_hold_after_each_insert() {
    let keys = scrambled(300);
    let mut tree = BTree::new(2);
    for &k in &keys {
        tree.insert(k, k);
        check_tree(&tree);
    }
    let mut tree = BTree::new(3);
    for k in (0..300u64).rev() {
        tree.insert(k, k);
        check_tree(&tree);
    }
}

#[test]
fn large_leaf_uses_binary_probe() {
    let t = 300usize;
    let keys: Vec<u64> = (0..(2 * t as u64 - 1)).map(|i| i * 3).collect();
    let tree = build(t, &keys);
    let root = tree.root.as_ref().unwrap();
    assert!(root.leaf);
    assert!(root.n > LINEAR_LIMIT);
    for &k in &keys {
        assert_eq!(tree.search(&k).unwrap().value, k * 10 + 1);
        assert_eq!(tree.search_linear(&k).unwrap().value, k * 10 + 1);
    }
    assert!(tree.search(&1).is_none());
    assert!(tree.search(&5000).is_none());
}

#[test]
fn large_internal_node_falls_back_to_linear() {
    let t = 300usize;
    let n = 160_000u64;
    let keys: Vec<u64> = (0..n).map(|i| i * 2).collect();
    let tree = build(t, &keys);
    let root = tree.root.as_ref().unwrap();
    assert!(!root.leaf);
    assert!(root.n > LINEAR_LIMIT);
    for k in (0..2 * n).step_by(7) {
        let a = tree.search(&k).map(|e| e.value);
        let b = tree.search_linear(&k).map(|e| e.value);
        assert_eq!(a, b);
        if k % 2 == 0 {
            assert_eq!(a, Some(k * 10 + 1));
        } else {
            assert_eq!(a, None);
        }
    }
}

#[test]
fn duplicate_keys_are_both_kept() {
    let mut tree = BTree::new(2);
    tree.insert(5u64, 1u64);
    tree.insert(5, 2);
    tree.insert(3, 3);
    let all = tree.traverse().unwrap();
    assert_eq!(all.len(), 3);
    let mut vals: Vec<u64> = all.iter().filter(|e| e.key == 5).map(|e| e.value).collect();
    vals.sort();
    assert_eq!(vals, vec![1, 2]);
    let e = tree.search(&5).unwrap();
    assert!(e.value == 1 || e.value == 2);
    // an equal key is placed after the ones already stored
    let keys: Vec<(u64, u64)> = tree.root.as_ref().unwrap().keys.iter().map(|e| (e.key, e.value)).collect();
    assert_eq!(keys, vec![(3, 3), (5, 1), (5, 2)]);
}

#[test]
fn node_binary_search_keys_hits_and_misses() {
    let mut node: Node<u64> = Node::new(4, true);
    for k in [40u64, 10, 30, 20] {
        node.insert_non_full(k, k);
    }
    assert_eq!(node.keys.iter().map(|e| e.key).collect::<Vec<_>>(), vec![10, 20, 30, 40]);
    assert_eq!(node.binary_search_keys(&30), 2);
    assert_eq!(node.binary_search_keys(&10), 0);
    assert_eq!(node.binary_search_keys(&25), -1);
    assert_eq!(node.binary_search_keys(&50), -1);
    assert_eq!(node.search(&20, false).unwrap().value, 20);
    assert!(node.search(&21, true).is_none());
}

#[test]
fn node_traverse_appends() {
    let mut node: Node<u64> = Node::new(2, true);
    node.insert_non_full(2, 20);
    node.insert_non_full(1, 10);
    let mut out = vec![Entry::new(9, 90)];
    node.traverse(&mut out);
    assert_eq!(out.iter().map(|e| e.key).collect::<Vec<_>>(), vec![9, 1, 2]);
}

#[test]
fn node_split_promotes_median() {
    let mut tree = build(2, &[1, 2, 3, 4]);
    // root [2], children [1] and [3, 4]; fill the right child
    tree.insert(5, 51);
    let root = tree.root.as_mut().unwrap();
    assert_eq!(root.child[1].n, 3);
    root.split_nodes(1, 1);
    assert_eq!(root.keys.iter().map(|e| e.key).collect::<Vec<_>>(), vec![2, 4]);
    assert_eq!(root.n, 2);
    assert_eq!(root.child.len(), 3);
    assert_eq!(root.child[1].keys[0].key, 3);
    assert_eq!(root.child[2].keys[0].key, 5);
    assert_eq!(root.child[1].n, 1);
    assert_eq!(root.child[2].n, 1);
}

fn node_keys(node: &Node<u64>) -> Vec<u64> {
    node.keys.iter().map(|e| e.key).collect()
}

#[test]
fn four_keys_traverse_in_node_order() {
    let tree = build(2, &[10, 20, 5, 6]);
    let keys: Vec<u64> = tree.traverse().unwrap().iter().map(|e| *e.get_key()).collect();
    assert_eq!(keys, vec![10, 5, 6, 20]);
}

#[test]
fn degree_three_scenario_has_one_entry_root() {
    let tree = build(3, &[10, 20, 5, 6, 12, 30, 7, 17]);
    let root = tree.root.as_ref().unwrap();
    assert_eq!(node_keys(root), vec![10]);
    assert_eq!(node_keys(&root.child[0]), vec![5, 6, 7]);
    assert_eq!(node_keys(&root.child[1]), vec![12, 17, 20, 30]);
    assert_eq!(tree.search(&6).unwrap().value, 61);
    assert!(tree.search(&99).is_none());
}

#[test]
fn degree_two_children_after_scenario() {
    let tree = build(2, &[10, 20, 5, 6, 12, 30, 7, 17]);
    let root = tree.root.as_ref().unwrap();
    assert_eq!(node_keys(&root.child[0]), vec![5, 6, 7]);
    assert_eq!(node_keys(&root.child[1]), vec![12, 17]);
    assert_eq!(node_keys(&root.child[2]), vec![30]);
}

#[test]
fn split_of_first_child_below_smallest_key() {
    let mut tree = build(2, &[10, 20, 5, 6, 7]);
    tree.insert(1, 11);
    let root = tree.root.as_ref().unwrap();
    assert_eq!(node_keys(root), vec![6, 10]);
    assert_eq!(node_keys(&root.child[0]), vec![1, 5]);
    assert_eq!(node_keys(&root.child[1]), vec![7]);
    assert_eq!(node_keys(&root.child[2]), vec![20]);
    let e = tree.search(&1).unwrap();
    assert_eq!((e.key, e.value), (1, 11));
}

fn height(node: &Node<u64>) -> usize {
    if node.leaf {
        0
    } else {
        1 + height(&node.child[0])
    }
}

#[test]
fn height_grows_only_on_full_root() {
    let mut tree: BTree<u64> = BTree::new(2);
    let mut last = 0usize;
    for k in scrambled(200) {
        let before = tree.root.as_ref().map(|r| (r.n == 2 * tree.t - 1, height(r)));
        tree.insert(k, k);
        let h = height(tree.root.as_ref().unwrap());
        match before {
            Some((true, hb)) => assert_eq!(h, hb + 1),
            Some((false, hb)) => assert_eq!(h, hb),
            None => assert_eq!(h, 0),
        }
        assert!(h >= last);
        last = h;
    }
}
