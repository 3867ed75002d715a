use slate_benchmark::formula::pow2e;
use slate_benchmark::hashtree::binary::{
    index_to_leaf_number, index_to_level_position, move_left, BinaryHashTree, BinaryHashTreeError,
    MetaInfo, Node, NodeKind,
};
use slate_benchmark::hashtree::HashTree;
use slate_benchmark::splitmix64;
use std::collections::HashMap;

fn inode(index: u64) -> Node {
    let hash = slate_benchmark::hash::Hash::new([0u8; 32]);
    Node::new_internal(0, index, hash, 0, 0)
}

#[test]
fn verify_binary_tree() {
    for height in 1..=8 {
        println!("height {height}");
        let tree = BinaryHashTree::create_on_memory_with_kvs(height, HashMap::new()).unwrap();
        let mut kvs = tree.into_storage().into_kvs();
        let meta = if let NodeKind::Leaf { data } = &kvs.remove(&1).unwrap().kind {
            MetaInfo::read(data).unwrap()
        } else {
            panic!()
        };
        assert_eq!(height, meta.height);
        assert_eq!(2, meta.root);

        let mut list = kvs.iter().map(|(pos, node)| (*pos, node)).collect::<Vec<_>>();
        list.sort_by_key(|(_, node)| node.index);
        let mut k = 1;
        for (i, (position, node)) in list.iter().enumerate() {
            assert_eq!(*position, node.position);
            assert_eq!(i as u64 + 1, node.index);
            let (level, pos) = index_to_level_position(node.index);
            match &node.kind {
                NodeKind::Branch { left, right } => {
                    println!(
                        "  @{position}: [{}] {} {}",
                        node.index,
                        kvs.get(left).unwrap().index,
                        kvs.get(right).unwrap().index
                    );
                    assert!(level < height);
                }
                NodeKind::Leaf { data } => {
                    let bytes: [u8; 8] = data[..8].try_into().unwrap();
                    let value = u64::from_le_bytes(bytes);
                    println!("  @{position}: [{}] {value}", node.index);
                    assert_eq!(splitmix64(k), value);
                    assert_eq!(index_to_leaf_number(node.index, height), k);
                    assert_eq!(level + 1, height);
                    assert_eq!(pos, k);
                    k += 1;
                }
            }
        }
    }
}

#[test]
fn test_test_basic_operations() {
    for height in 1..=8 {
        let tree = BinaryHashTree::create_on_memory(height).unwrap();
        assert_eq!(pow2e(height - 1), tree.size());

        // Test retrieval
        assert_eq!(tree.get(0).unwrap(), None);
        for k in 1..=tree.size() {
            assert_eq!(tree.get(k).unwrap(), Some(splitmix64(k).to_le_bytes().to_vec()), "{k}");
        }
        assert_eq!(tree.get(tree.size() + 1).unwrap(), None);
    }
}

#[test]
fn verify_level() {
    for (level, position, index) in [
        (0, 1, 1),
        (1, 1, 2),
        (1, 2, 3),
        (2, 1, 4),
        (2, 2, 5),
        (2, 3, 6),
        (2, 4, 7),
        (3, 1, 8),
        (3, 8, 15),
        (4, 1, 16),
        (63, 0x8000000000000000, u64::MAX),
    ] {
        let (lvl, pos) = index_to_level_position(index);
        assert_eq!(level, lvl);
        assert_eq!(position, pos);
    }
}

#[test]
fn verify_move_left() {
    assert!(move_left(2, &inode(1), 1));
    assert!(!move_left(2, &inode(1), 2));
    assert!(move_left(3, &inode(1), 1));
    assert!(move_left(3, &inode(1), 2));
    assert!(!move_left(3, &inode(1), 3));
    assert!(!move_left(3, &inode(1), 4));
    assert!(move_left(3, &inode(2), 1));
    assert!(!move_left(3, &inode(2), 2));
    assert!(move_left(3, &inode(3), 3));
    assert!(!move_left(3, &inode(3), 4));

    for height in 2..u64::BITS as u8 {
        for level in 0..height - 1 {
            assert!(
                move_left(height, &inode(pow2e(level)), 1),
                "move_left({height}, Node{{index:{}}}, 1), level={level}",
                pow2e(level)
            );
            assert!(
                !move_left(height, &inode(2 * pow2e(level) - 1), pow2e(height) / 2),
                "move_left({height}, Node{{index:{}}}, {}), level={level}",
                2 * pow2e(level) - 1,
                pow2e(height) / 2
            );
        }
    }
}

#[test]
fn tree_refuses_heights_outside_its_range() {
    assert!(matches!(
        BinaryHashTree::create_on_memory(0),
        Err(BinaryHashTreeError::InvalidData(_))
    ));
    assert!(matches!(
        BinaryHashTree::create_on_memory(65),
        Err(BinaryHashTreeError::InvalidData(_))
    ));
}

#[test]
fn tree_refuses_a_store_that_is_not_empty() {
    let mut kvs = HashMap::new();
    kvs.insert(1, Node::new_leaf(1, 0, vec![1, 2, 3]));
    assert!(matches!(
        BinaryHashTree::create_on_memory_with_kvs(3, kvs),
        Err(BinaryHashTreeError::InvalidData(_))
    ));
}

#[test]
fn tree_hashes_combine_children() {
    let tree = BinaryHashTree::create_on_memory(3).unwrap();
    let kvs = tree.into_storage().into_kvs();
    let root = kvs.get(&2).unwrap();
    let (left, right) = match &root.kind {
        NodeKind::Branch { left, right } => (kvs.get(left).unwrap(), kvs.get(right).unwrap()),
        NodeKind::Leaf { .. } => panic!(),
    };
    let mut both = Vec::new();
    both.extend_from_slice(&left.hash.value);
    both.extend_from_slice(&right.hash.value);
    assert_eq!(root.hash.value, *blake3::hash(&both).as_bytes());
    let leaf = kvs.get(&5).unwrap();
    match &leaf.kind {
        NodeKind::Leaf { data } => assert_eq!(leaf.hash.value, *blake3::hash(data).as_bytes()),
        NodeKind::Branch { .. } => panic!(),
    }
}

#[test]
fn the_cache_holds_the_first_nodes_up_to_its_limit() {
    for (limit, held) in [(0usize, 1usize), (1, 1), (2, 2), (3, 3), (4, 4), (10, 10), (255, 255), (1000, 255)] {
        let kvs = BinaryHashTree::create_on_memory(8).unwrap().into_storage().into_kvs();
        let tree = BinaryHashTree::new(slate_benchmark::MemKVS::with_kvs(kvs), limit).unwrap();
        assert_eq!(tree.cached_count(), held, "limit {limit}");
        assert_eq!(tree.levels(), 8);
        assert_eq!(tree.leaf_count(), 128);
        for k in [1u64, 2, 64, 65, 128] {
            assert_eq!(tree.get(k).unwrap(), Some(splitmix64(k).to_le_bytes().to_vec()));
        }
    }
    let tree = BinaryHashTree::create_on_memory(1).unwrap();
    assert_eq!(tree.cached_count(), 1);
    assert_eq!(tree.get(1).unwrap(), Some(splitmix64(1).to_le_bytes().to_vec()));
}

#[test]
fn a_store_without_metadata_holds_no_tree() {
    let storage: slate_benchmark::MemKVS<Node> = slate_benchmark::MemKVS::new();
    assert!(matches!(BinaryHashTree::new(storage, 1), Err(BinaryHashTreeError::InvalidData(_))));
    let mut kvs = HashMap::new();
    kvs.insert(1, inode(1));
    let storage = slate_benchmark::MemKVS::with_kvs(kvs);
    assert!(matches!(BinaryHashTree::new(storage, 1), Err(BinaryHashTreeError::InvalidData(_))));
    let mut kvs = HashMap::new();
    kvs.insert(1, Node::new_leaf(1, 0, vec![2, 0, 0, 0, 0, 0, 0, 0, 0]));
    let storage = slate_benchmark::MemKVS::with_kvs(kvs);
    assert!(matches!(BinaryHashTree::new(storage, 1), Err(BinaryHashTreeError::InvalidData(_))));
}

#[test]
fn tree_refuses_a_store_whose_end_is_not_its_beginning() {
    let mut kvs = HashMap::new();
    kvs.insert(5, Node::new_leaf(5, 0, vec![1, 2, 3]));
    assert!(matches!(
        BinaryHashTree::create_on_memory_with_kvs(3, kvs),
        Err(BinaryHashTreeError::InvalidData(_))
    ));
}
