use std::collections::hash_map::DefaultHasher;
use std::collections::HashMap;
use std::hash::Hasher;

use merkle_bit::errors::TreeError;
use merkle_bit::hash::{data_hash, leaf_hash};
use merkle_bit::merkle_bit::MerkleBIT;
use merkle_bit::node::{NodeVariant, TreeBranch, TreeData, TreeNode};
use merkle_bit::store::HashDB;
use merkle_bit::tree::HashTree;
use merkle_bit::KEY_LEN;

fn key_of(fill: u8, last: u8) -> [u8; KEY_LEN] {
    let mut k = [fill; KEY_LEN];
    k[KEY_LEN - 1] = last;
    k
}

fn counter_key(n: u16) -> [u8; KEY_LEN] {
    let mut k = [0u8; KEY_LEN];
    k[KEY_LEN - 2] = (n >> 8) as u8;
    k[KEY_LEN - 1] = n as u8;
    k
}

/// Collects every node location reachable from `root`.
fn reachable(tree: &HashTree, root: u64) -> Vec<u64> {
    let mut out = Vec::new();
    let mut stack = vec![root];
    while let Some(loc) = stack.pop() {
        let node = match tree.store_node(loc) {
            Some(n) => n,
            None => continue,
        };
        out.push(loc);
        match node.get_variant() {
            NodeVariant::Branch(b) => {
                stack.push(b.get_zero());
                stack.push(b.get_one());
            }
            NodeVariant::Leaf(l) => {
                stack.push(l.get_data());
            }
            NodeVariant::Data(_) => {}
        }
    }
    out
}

#[test]
fn all_zeros_key_roots_at_the_leaf_hash() {
    let key = [0x00u8; KEY_LEN];
    let value = vec![0x01u8];

    let mut tree = HashTree::new(260);
    let root = tree
        .insert(None, &vec![key], &vec![value.clone()])
        .unwrap();

    // The root must be the leaf digest computed over the domain-separated
    // preimages with the standard library hasher itself.
    let mut dh = DefaultHasher::new();
    dh.write(&[b'd']);
    dh.write(&key);
    dh.write(&value);
    let data_location = dh.finish();
    let mut lh = DefaultHasher::new();
    lh.write(&[b'l']);
    lh.write(&key);
    lh.write(&data_location.to_le_bytes());
    let leaf_location = lh.finish();
    assert_eq!(root, leaf_location);

    let got = tree.get(root, &vec![key]).unwrap();
    assert_eq!(got, vec![Some(vec![0x01u8])]);
}

#[test]
fn two_maximally_diverging_keys_split_at_bit_zero() {
    let zero_key = [0x00u8; KEY_LEN];
    let one_key = [0xFFu8; KEY_LEN];
    let a = b"a".to_vec();
    let b = b"b".to_vec();

    let mut tree = HashTree::new(260);
    let root = tree
        .insert(None, &vec![zero_key, one_key], &vec![a.clone(), b.clone()])
        .unwrap();

    let zero_leaf = leaf_hash(&zero_key, data_hash(&zero_key, &a));
    let one_leaf = leaf_hash(&one_key, data_hash(&one_key, &b));

    let root_node = tree.store_node(root).unwrap();
    match root_node.get_variant() {
        NodeVariant::Branch(branch) => {
            assert_eq!(branch.get_split_index(), 0);
            assert_eq!(branch.get_count(), 2);
            assert_eq!(branch.get_zero(), zero_leaf);
            assert_eq!(branch.get_one(), one_leaf);
        }
        _ => panic!("root should be a branch"),
    }
}

#[test]
fn round_trip_returns_every_binding() {
    let mut keys = Vec::new();
    let mut values = Vec::new();
    for i in 0..17u16 {
        keys.push(counter_key(i * 31 + 7));
        values.push(vec![i as u8, (i + 1) as u8]);
    }
    let mut tree = HashTree::new(260);
    let root = tree.insert(None, &keys, &values).unwrap();
    let got = tree.get(root, &keys).unwrap();
    for i in 0..17usize {
        assert_eq!(got[i], Some(values[i].clone()));
    }
    // A key never inserted resolves to nothing.
    let absent = tree.get(root, &vec![counter_key(9999)]).unwrap();
    assert_eq!(absent, vec![None]);
}

#[test]
fn root_is_independent_of_batch_order() {
    let mut keys = Vec::new();
    let mut values = Vec::new();
    for i in 0..9u16 {
        keys.push(counter_key(i * 97 + 3));
        values.push(vec![i as u8; 3]);
    }
    let mut forward = HashTree::new(260);
    let root_forward = forward.insert(None, &keys, &values).unwrap();

    let mut rev_keys = keys.clone();
    let mut rev_values = values.clone();
    rev_keys.reverse();
    rev_values.reverse();
    let mut backward = HashTree::new(260);
    let root_backward = backward.insert(None, &rev_keys, &rev_values).unwrap();

    assert_eq!(root_forward, root_backward);
}

#[test]
fn root_is_a_function_of_the_bindings() {
    let keys = vec![key_of(0, 1), key_of(0, 2), key_of(4, 4)];
    let values = vec![vec![1u8], vec![2u8], vec![3u8]];
    let mut first = HashTree::new(260);
    let mut second = HashTree::new(260);
    let r1 = first.insert(None, &keys, &values).unwrap();
    let r2 = second.insert(None, &keys, &values).unwrap();
    assert_eq!(r1, r2);
}

#[test]
fn update_rebinds_a_key_and_keeps_the_old_root() {
    let k = key_of(0x10, 0x01);
    let v1 = vec![0xAAu8];
    let v2 = vec![0xBBu8];

    let mut tree = HashTree::new(260);
    let r1 = tree.insert(None, &vec![k], &vec![v1.clone()]).unwrap();
    let r2 = tree.insert(Some(r1), &vec![k], &vec![v2.clone()]).unwrap();
    assert_ne!(r1, r2);
    assert_eq!(tree.get(r1, &vec![k]).unwrap(), vec![Some(v1)]);
    assert_eq!(tree.get(r2, &vec![k]).unwrap(), vec![Some(v2)]);
}

#[test]
fn update_semantics_layer_new_bindings_over_old() {
    let ka = counter_key(10);
    let kb = counter_key(500);
    let kc = counter_key(1000);
    let kd = counter_key(2000);
    let mut tree = HashTree::new(260);
    let r = tree
        .insert(
            None,
            &vec![ka, kb, kc],
            &vec![vec![1u8], vec![2u8], vec![3u8]],
        )
        .unwrap();
    let r2 = tree
        .insert(Some(r), &vec![kb, kd], &vec![vec![9u8], vec![4u8]])
        .unwrap();
    let got = tree.get(r2, &vec![ka, kb, kc, kd]).unwrap();
    assert_eq!(
        got,
        vec![
            Some(vec![1u8]),
            Some(vec![9u8]),
            Some(vec![3u8]),
            Some(vec![4u8])
        ]
    );
    let missing = tree.get(r2, &vec![counter_key(3000)]).unwrap();
    assert_eq!(missing, vec![None]);
}

#[test]
fn shared_nodes_carry_at_least_two_references() {
    let mut keys = Vec::new();
    let mut values = Vec::new();
    for i in 0..12u16 {
        keys.push(counter_key(i * 131 + 1));
        values.push(vec![i as u8]);
    }
    let mut tree = HashTree::new(260);
    let r1 = tree.insert(None, &keys, &values).unwrap();
    let r2 = tree
        .insert(Some(r1), &vec![counter_key(60000)], &vec![vec![0x7Fu8]])
        .unwrap();

    let from_r1 = reachable(&tree, r1);
    let from_r2 = reachable(&tree, r2);
    // The reference count is the number of incoming parent edges, so the
    // top of every shared subtree carries one edge per tree; the nodes
    // below it still hang from their single shared parent.
    let mut tops = 0;
    for loc in &from_r1 {
        if from_r2.contains(loc) {
            let node = tree.store_node(*loc).unwrap();
            assert!(node.get_references() >= 1);
            if node.get_references() >= 2 {
                tops += 1;
            }
        }
    }
    assert!(tops > 0);
}

#[test]
fn a_small_update_builds_few_new_nodes() {
    let mut keys = Vec::new();
    let mut values = Vec::new();
    for i in 0..1000u16 {
        keys.push(counter_key(i));
        values.push(vec![i as u8]);
    }
    let mut tree = HashTree::new(260);
    let r1 = tree.insert(None, &keys, &values).unwrap();
    let before = tree.node_count();
    let _r2 = tree
        .insert(Some(r1), &vec![counter_key(60001)], &vec![vec![1u8]])
        .unwrap();
    let after = tree.node_count();
    // One new leaf and data node, and at most ceil(log2(1001)) + 1 = 11
    // fresh branches on the path to the new key.
    assert!(after - before <= 13, "built {} new nodes", after - before);
}

#[test]
fn duplicate_key_in_batch_is_rejected() {
    let k = key_of(0x42, 0x00);
    let mut tree = HashTree::new(260);
    let r = tree.insert(
        None,
        &vec![k, k],
        &vec![vec![0x01u8], vec![0x02u8]],
    );
    assert_eq!(r, Err(TreeError::DuplicateKey));
}

#[test]
fn reap_empties_the_store_and_reads_return_nothing() {
    let mut keys = Vec::new();
    let mut values = Vec::new();
    for i in 0..8u16 {
        keys.push(counter_key(i * 911 + 5));
        values.push(vec![i as u8, 0x55]);
    }
    let mut tree = HashTree::new(260);
    let r = tree.insert(None, &keys, &values).unwrap();
    assert!(tree.node_count() > 0);
    tree.remove(r).unwrap();
    assert_eq!(tree.node_count(), 0);
    let got = tree.get(r, &keys).unwrap();
    for entry in got {
        assert_eq!(entry, None);
    }
}

#[test]
fn removing_a_newer_root_keeps_the_older_one_readable() {
    let mut keys = Vec::new();
    let mut values = Vec::new();
    for i in 0..10u16 {
        keys.push(counter_key(i * 53 + 2));
        values.push(vec![i as u8, i as u8]);
    }
    let mut tree = HashTree::new(260);
    let r = tree.insert(None, &keys, &values).unwrap();
    let r2 = tree
        .insert(Some(r), &vec![counter_key(40000)], &vec![vec![0xEEu8]])
        .unwrap();
    tree.remove(r2).unwrap();
    let got = tree.get(r, &keys).unwrap();
    for i in 0..10usize {
        assert_eq!(got[i], Some(values[i].clone()));
    }
}

fn assert_split_monotone(tree: &HashTree, loc: u64, lower: Option<usize>) {
    if let Some(node) = tree.store_node(loc) {
        if let NodeVariant::Branch(b) = node.get_variant() {
            let s = b.get_split_index();
            if let Some(bound) = lower {
                assert!(s > bound, "split {} under split {}", s, bound);
            }
            assert_split_monotone(tree, b.get_zero(), Some(s));
            assert_split_monotone(tree, b.get_one(), Some(s));
        }
    }
}

#[test]
fn split_indices_strictly_increase_down_every_path() {
    let mut keys = Vec::new();
    let mut values = Vec::new();
    for i in 0..300u16 {
        keys.push(counter_key(i * 7 + 1));
        values.push(vec![i as u8]);
    }
    let mut tree = HashTree::new(260);
    let r1 = tree.insert(None, &keys, &values).unwrap();
    assert_split_monotone(&tree, r1, None);
    let r2 = tree
        .insert(
            Some(r1),
            &vec![counter_key(50000), counter_key(50001)],
            &vec![vec![1u8], vec![2u8]],
        )
        .unwrap();
    assert_split_monotone(&tree, r2, None);
}

#[test]
fn empty_and_lopsided_batches_are_rejected() {
    let mut tree = HashTree::new(260);
    let empty = tree.insert(None, &Vec::new(), &Vec::new());
    assert_eq!(empty, Err(TreeError::EmptyBatch));
    let lopsided = tree.insert(
        None,
        &vec![key_of(1, 1)],
        &vec![vec![1u8], vec![2u8]],
    );
    assert_eq!(lopsided, Err(TreeError::EmptyBatch));
}

#[test]
fn an_unknown_previous_root_is_rejected() {
    let mut tree = HashTree::new(260);
    let r = tree.insert(Some(12345), &vec![key_of(1, 1)], &vec![vec![1u8]]);
    assert_eq!(r, Err(TreeError::RootNotFound));
}

#[test]
fn a_depth_bound_of_zero_rejects_any_descent() {
    let mut tree = HashTree::new(0);
    let keys = vec![[0x00u8; KEY_LEN], [0xFFu8; KEY_LEN]];
    let values = vec![vec![1u8], vec![2u8]];
    let root = tree.insert(None, &keys, &values).unwrap();
    let got = tree.get(root, &keys);
    assert_eq!(got, Err(TreeError::DepthExceeded));
}

#[test]
fn queries_need_no_order_and_may_repeat_keys() {
    let ka = counter_key(3);
    let kb = counter_key(700);
    let kc = counter_key(20000);
    let mut tree = HashTree::new(260);
    let r = tree
        .insert(
            None,
            &vec![ka, kb, kc],
            &vec![vec![1u8], vec![2u8], vec![3u8]],
        )
        .unwrap();
    let got = tree.get(r, &vec![kc, ka, kc, kb]).unwrap();
    assert_eq!(
        got,
        vec![
            Some(vec![3u8]),
            Some(vec![1u8]),
            Some(vec![3u8]),
            Some(vec![2u8])
        ]
    );
}

#[test]
fn an_empty_value_is_a_binding_not_an_absence() {
    let k = counter_key(77);
    let mut tree = HashTree::new(260);
    let r = tree.insert(None, &vec![k], &vec![Vec::new()]).unwrap();
    let got = tree.get(r, &vec![k]).unwrap();
    assert_eq!(got, vec![Some(Vec::new())]);
}

#[test]
fn laying_down_the_same_binding_again_keeps_the_root() {
    let k = counter_key(12);
    let v = vec![0x11u8, 0x22];
    let mut tree = HashTree::new(260);
    let r1 = tree.insert(None, &vec![k], &vec![v.clone()]).unwrap();
    assert_eq!(tree.store_node(r1).unwrap().get_references(), 1);
    let r2 = tree.insert(Some(r1), &vec![k], &vec![v.clone()]).unwrap();
    assert_eq!(r1, r2);
    // The reused leaf carries one more parent edge after the update.
    assert_eq!(tree.store_node(r2).unwrap().get_references(), 2);
    assert_eq!(tree.get(r2, &vec![k]).unwrap(), vec![Some(v)]);
}

#[test]
fn a_branch_with_a_missing_child_is_corrupt() {
    let mut branch = TreeBranch::new();
    branch.set_zero(50);
    branch.set_one(60);
    branch.set_split_index(0);
    branch.set_count(2);
    branch.set_key([0u8; KEY_LEN]);
    let mut node = TreeNode::new(NodeVariant::Branch(branch));
    node.set_references(1);
    let mut map = HashMap::new();
    map.insert(7u64, node);
    let db = HashDB::new(map);
    let tree = MerkleBIT::from_db(db, 260);
    // The queried key routes to the zero child, which does not resolve.
    let got = tree.get(7, &vec![[0u8; KEY_LEN]]);
    assert_eq!(got, Err(TreeError::Corrupt));
}

#[test]
fn a_data_node_at_the_root_is_corrupt() {
    let mut map = HashMap::new();
    let mut node = TreeNode::new(NodeVariant::Data(TreeData::new(vec![1u8, 2, 3])));
    node.set_references(1);
    map.insert(7u64, node);
    let db = HashDB::new(map);
    let tree = MerkleBIT::from_db(db, 260);
    let got = tree.get(7, &vec![key_of(0, 0)]);
    assert_eq!(got, Err(TreeError::Corrupt));
}
