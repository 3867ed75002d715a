use slate_benchmark::auth::Prove;
use slate_benchmark::entry::Entry;
use slate_benchmark::formula::{access_distance, auth_path, forest_roots, Address, Side};
use slate_benchmark::log::{converge, Slate};
use slate_benchmark::splitmix64;
use slate_benchmark::storage::{Error, Storage};
use slate_benchmark::MemKVS;

fn memory_log() -> Slate<MemKVS<Entry>> {
    Slate::new(MemKVS::new()).unwrap()
}

fn mixed_log(n: u64) -> Slate<MemKVS<Entry>> {
    let mut log = memory_log();
    for i in 1..=n {
        assert_eq!(log.append(&splitmix64(i).to_le_bytes()).unwrap(), i);
    }
    log
}

fn digest(bytes: &[u8]) -> [u8; 32] {
    *blake3::hash(bytes).as_bytes()
}

fn combine(left: &[u8; 32], right: &[u8; 32]) -> [u8; 32] {
    let mut both = Vec::new();
    both.extend_from_slice(left);
    both.extend_from_slice(right);
    digest(&both)
}

// The hash of the full subtree over the leaves `first..=last`, by recursion.
fn subtree(first: u64, last: u64) -> [u8; 32] {
    if first == last {
        digest(&splitmix64(first).to_le_bytes())
    } else {
        let mid = first + (last - first) / 2;
        combine(&subtree(first, mid), &subtree(mid + 1, last))
    }
}

#[test]
fn tiny_log() {
    let mut log = memory_log();
    assert_eq!(log.append(&[0x01]).unwrap(), 1);
    assert_eq!(log.append(&[0x02]).unwrap(), 2);
    assert_eq!(log.append(&[0x03]).unwrap(), 3);
    assert_eq!(log.n(), 3);
    assert_eq!(log.get(2).unwrap(), Some(vec![0x02]));
    assert_eq!(log.get(4).unwrap(), None);
    assert_eq!(log.get(0).unwrap(), None);
    assert_eq!(access_distance(1, 3), Some(2));
    assert_eq!(access_distance(3, 3), Some(1));
}

#[test]
fn left_complete_log() {
    let log = mixed_log(8);
    for k in 1..=8 {
        assert_eq!(log.get(k).unwrap(), Some(splitmix64(k).to_le_bytes().to_vec()));
        assert_eq!(auth_path(k, 8).unwrap().len(), 3);
        let path = log.get_auth_path(k).unwrap().unwrap();
        assert_eq!(path.steps.len(), 3);
        assert!(path.verify());
        assert_eq!(path.root.value, subtree(1, 8));
        assert_eq!(path.leaf.value, digest(&splitmix64(k).to_le_bytes()));
    }
    assert_eq!(log.root_hash().value, subtree(1, 8));
}

#[test]
fn log_of_thirteen() {
    let log = mixed_log(13);
    assert_eq!(
        forest_roots(13),
        vec![Address { i: 8, j: 3 }, Address { i: 12, j: 2 }, Address { i: 13, j: 0 }]
    );
    assert_eq!(log.get(10).unwrap(), Some(splitmix64(10).to_le_bytes().to_vec()));
    // Leaf 10 lies under the root (12, 2): the lookup reads that root, the
    // node (10, 1) and the leaf. Up to the root of the whole log there are
    // two joins more.
    let path = auth_path(10, 13).unwrap();
    assert_eq!(path[0].node, Address { i: 9, j: 0 });
    assert_eq!(path[0].side, Side::Left);
    assert_eq!(path[1].node, Address { i: 12, j: 1 });
    assert_eq!(path[1].side, Side::Right);
    assert_eq!(path[2].node, Address { i: 13, j: 0 });
    assert_eq!(path[2].side, Side::Right);
    assert_eq!(path[3].node, Address { i: 8, j: 3 });
    assert_eq!(path[3].side, Side::Left);
    assert_eq!(path.len(), 4);
    assert_eq!(access_distance(10, 13), Some(4));
    let root = combine(&subtree(1, 8), &combine(&subtree(9, 12), &subtree(13, 13)));
    assert_eq!(log.root_hash().value, root);
    for k in 1..=13 {
        let path = log.get_auth_path(k).unwrap().unwrap();
        assert!(path.verify());
        assert_eq!(path.root.value, root);
        assert_eq!(path.steps.len() as u8, access_distance(k, 13).unwrap());
        assert_eq!(log.get(k).unwrap(), Some(splitmix64(k).to_le_bytes().to_vec()));
    }
    assert!(log.get_auth_path(0).unwrap().is_none());
    assert!(log.get_auth_path(14).unwrap().is_none());
}

#[test]
fn divergence_at_777() {
    let a = mixed_log(1024);
    let mut b = memory_log();
    for i in 1..=1024u64 {
        let value = splitmix64(i);
        let value = if i == 777 { splitmix64(value) } else { value };
        b.append(&value.to_le_bytes()).unwrap();
    }
    let (found, rounds) = converge(&a, &b).unwrap();
    assert_eq!(found, Some(777));
    assert!(rounds <= 11);
}

#[test]
fn divergence_at_every_index_of_a_small_log() {
    for n in 1..=20u64 {
        let a = mixed_log(n);
        for differing in 1..=n {
            let mut b = memory_log();
            for i in 1..=n {
                let value = if i == differing { !splitmix64(i) } else { splitmix64(i) };
                b.append(&value.to_le_bytes()).unwrap();
            }
            let (found, rounds) = converge(&a, &b).unwrap();
            assert_eq!(found, Some(differing), "n={n}");
            assert!(u64::from(rounds) <= u64::from(64 - (n - 1).leading_zeros()) + 1, "n={n}");
        }
    }
}

#[test]
fn identical_logs_converge_to_nothing() {
    let a = mixed_log(100);
    let b = mixed_log(100);
    assert_eq!(converge(&a, &b).unwrap(), (None, 1));
    let empty_a = memory_log();
    let empty_b = memory_log();
    assert_eq!(converge(&empty_a, &empty_b).unwrap(), (None, 0));
}

#[test]
fn logs_of_different_sizes_are_not_compared() {
    let a = mixed_log(5);
    let b = mixed_log(6);
    assert_eq!(converge(&a, &b), Err(Error::Invariant));
}

#[test]
fn prove_lists_divergent_nodes_from_the_root_down() {
    let a = mixed_log(8);
    let mut b = memory_log();
    for i in 1..=8u64 {
        let value = if i == 3 { 0 } else { splitmix64(i) };
        b.append(&value.to_le_bytes()).unwrap();
    }
    let pa = a.get_auth_path(8).unwrap().unwrap();
    let pb = b.get_auth_path(8).unwrap().unwrap();
    match pb.prove(&pa).unwrap() {
        Prove::Divergent(nodes) => assert_eq!(nodes, vec![Address { i: 4, j: 2 }]),
        Prove::Identical => panic!(),
    }
    let pa = a.get_auth_path(4).unwrap().unwrap();
    let pb = b.get_auth_path(4).unwrap().unwrap();
    match pb.prove(&pa).unwrap() {
        Prove::Divergent(nodes) => assert_eq!(nodes, vec![Address { i: 3, j: 0 }]),
        Prove::Identical => panic!(),
    }
    let pa = a.get_auth_path(3).unwrap().unwrap();
    let pb = b.get_auth_path(3).unwrap().unwrap();
    match pb.prove(&pa).unwrap() {
        Prove::Divergent(nodes) => assert_eq!(nodes, vec![Address { i: 3, j: 0 }]),
        Prove::Identical => panic!(),
    }
    assert!(matches!(pa.prove(&pa).unwrap(), Prove::Identical));
    let other = a.get_auth_path(5).unwrap().unwrap();
    assert_eq!(pa.prove(&other).err(), Some(Error::Invariant));
}

#[test]
fn a_path_with_a_changed_sibling_does_not_verify() {
    let log = mixed_log(13);
    let mut path = log.get_auth_path(6).unwrap().unwrap();
    assert!(path.verify());
    path.steps[1].hash.value[0] ^= 1;
    assert!(!path.verify());
}

#[test]
fn append_then_get_gives_the_bytes_back() {
    let mut log = memory_log();
    let payloads: Vec<Vec<u8>> = vec![vec![], vec![0], vec![1, 2, 3], vec![0xff; 100], vec![7; 5]];
    for (x, payload) in payloads.iter().enumerate() {
        let i = log.append(payload).unwrap();
        assert_eq!(i, x as u64 + 1);
        assert_eq!(log.get(i).unwrap().as_ref(), Some(payload));
    }
    for (x, payload) in payloads.iter().enumerate() {
        assert_eq!(log.get(x as u64 + 1).unwrap().as_ref(), Some(payload));
    }
}

#[test]
fn a_snapshot_sees_the_log_as_it_was() {
    let mut log = mixed_log(5);
    let snapshot = log.snapshot();
    assert_eq!(snapshot.n(), 5);
    let before: Vec<_> = (0..=6).map(|k| snapshot.get(&log, k).unwrap()).collect();
    let root = snapshot.get_auth_path(&log, 5).unwrap().unwrap().root.value;
    for i in 6..=40u64 {
        log.append(&splitmix64(i).to_le_bytes()).unwrap();
    }
    assert_eq!(log.n(), 40);
    let after: Vec<_> = (0..=6).map(|k| snapshot.get(&log, k).unwrap()).collect();
    assert_eq!(before, after);
    assert_eq!(after[6], None);
    assert_eq!(after[0], None);
    assert_eq!(after[5], Some(splitmix64(5).to_le_bytes().to_vec()));
    assert_eq!(snapshot.get_auth_path(&log, 5).unwrap().unwrap().root.value, root);
    assert_ne!(log.root_hash().value, root);
}

#[test]
fn the_empty_log_has_the_digest_of_nothing_as_its_root() {
    let log = memory_log();
    assert_eq!(log.n(), 0);
    assert_eq!(log.root_hash().value, digest(&[]));
    assert_eq!(log.get(1).unwrap(), None);
}

#[test]
fn a_log_is_opened_on_a_store_that_holds_its_records() {
    let mut log = mixed_log(3);
    let mut kvs = std::collections::HashMap::new();
    // the metadata record stands first, the entries follow
    kvs.insert(1, Entry::metadata());
    for i in 1..=3 {
        let (position, entry) = log.read_entry(i).unwrap().unwrap();
        assert_eq!(position, i + 1);
        kvs.insert(position, entry);
    }
    let reopened = Slate::new(MemKVS::with_kvs(kvs)).unwrap();
    assert_eq!(reopened.n(), 3);
    assert_eq!(reopened.root_hash().value, log.root_hash().value);
    assert_eq!(reopened.get(2).unwrap(), Some(splitmix64(2).to_le_bytes().to_vec()));
    log.append(&[1]).unwrap();

    // entry 2 in the place of entry 1 is no log
    let (_, entry) = log.read_entry(2).unwrap().unwrap();
    let mut kvs = std::collections::HashMap::new();
    kvs.insert(1, Entry::metadata());
    kvs.insert(2, entry);
    assert_eq!(
        Slate::new(MemKVS::with_kvs(kvs)).err(),
        Some(Error::Corruption { position: 2 })
    );

    // nor is a store without the metadata record, or with another schema
    let (_, entry) = log.read_entry(1).unwrap().unwrap();
    let mut kvs = std::collections::HashMap::new();
    kvs.insert(1, entry);
    assert_eq!(Slate::new(MemKVS::with_kvs(kvs)).err(), Some(Error::Serialization));
    let mut meta = Entry::metadata();
    meta.data[0] = 2;
    let mut kvs = std::collections::HashMap::new();
    kvs.insert(1, meta);
    assert_eq!(Slate::new(MemKVS::with_kvs(kvs)).err(), Some(Error::Serialization));
}

#[test]
fn a_new_log_begins_with_its_metadata_record() {
    let log = memory_log();
    let kvs = log.into_storage().into_kvs();
    assert_eq!(kvs.len(), 1);
    let meta = kvs.get(&1).unwrap();
    assert_eq!(meta.i, 0);
    assert_eq!(meta.data, vec![1, 0, 0, 0]);
    assert_eq!(meta.leaf.value, digest(&[1, 0, 0, 0]));
    assert!(meta.inodes.is_empty());
    assert!(meta.same(&Entry::metadata()));
}

#[test]
fn the_cache_changes_nothing_that_get_returns() {
    for n in [1u64, 2, 3, 7, 8, 13, 64, 100] {
        let mut log = mixed_log(n);
        assert_eq!(log.cache().level(), 0);
        let expected: Vec<_> = (0..=n + 1).map(|k| log.get(k).unwrap()).collect();
        for level in [0usize, 1, 2, 3, 5, 10, 64, 200] {
            log.cache_level(level).unwrap();
            assert_eq!(log.cache().level(), level);
            assert!(log.cache().len() <= log.cache().budget());
            let found: Vec<_> = (0..=n + 1).map(|k| log.get(k).unwrap()).collect();
            assert_eq!(found, expected, "n={n} level={level}");
        }
        // the cache stays in use while the log grows
        log.cache_level(3).unwrap();
        for i in n + 1..=n + 20 {
            log.append(&splitmix64(i).to_le_bytes()).unwrap();
        }
        for k in 1..=n + 20 {
            assert_eq!(log.get(k).unwrap(), Some(splitmix64(k).to_le_bytes().to_vec()));
        }
    }
}

#[test]
fn the_cache_holds_the_nodes_next_to_the_roots() {
    let mut log = mixed_log(8);
    // the log of 8 entries has 7 interior nodes under its one root
    log.cache_level(0).unwrap();
    assert_eq!(log.cache().budget(), 1);
    assert_eq!(log.cache().len(), 1);
    let root = log.cache().get(Address { i: 8, j: 3 }).unwrap();
    assert_eq!(root.hash.value, log.root_hash().value);
    assert!(log.cache().get(Address { i: 8, j: 2 }).is_none());
    log.cache_level(2).unwrap();
    assert_eq!(log.cache().len(), 3);
    assert!(log.cache().get(Address { i: 4, j: 2 }).is_some());
    assert!(log.cache().get(Address { i: 8, j: 2 }).is_some());
    assert!(log.cache().get(Address { i: 8, j: 1 }).is_none());
    log.cache_level(3).unwrap();
    assert_eq!(log.cache().len(), 7);
    log.cache_level(70).unwrap();
    assert_eq!(log.cache().budget(), usize::MAX);
    assert_eq!(log.cache().len(), 7);
    let node = log.cache().get(Address { i: 6, j: 1 }).unwrap();
    assert_eq!(node.left, log.read_entry(5).unwrap().unwrap().0);
    assert_eq!(node.right, log.read_entry(6).unwrap().unwrap().0);
}

#[test]
fn the_cache_of_a_forest_takes_the_roots_first() {
    let mut log = mixed_log(13);
    // roots (8,3), (12,2) and the leaf 13; four nodes may be held
    log.cache_level(2).unwrap();
    assert_eq!(log.cache().budget(), 4);
    assert_eq!(log.cache().len(), 4);
    assert!(log.cache().get(Address { i: 8, j: 3 }).is_some());
    assert!(log.cache().get(Address { i: 12, j: 2 }).is_some());
    assert!(log.cache().get(Address { i: 4, j: 2 }).is_some());
    assert!(log.cache().get(Address { i: 8, j: 2 }).is_some());
    assert!(log.cache().get(Address { i: 12, j: 1 }).is_none());
    assert!(log.cache().get(Address { i: 13, j: 0 }).is_none());
    // with one node allowed the first root is held alone
    log.cache_level(0).unwrap();
    assert_eq!(log.cache().len(), 1);
    assert!(log.cache().get(Address { i: 8, j: 3 }).is_some());
    // with room for all, every interior node is held: 7 + 3
    log.cache_level(5).unwrap();
    assert_eq!(log.cache().len(), 10);
    assert!(log.cache().get(Address { i: 10, j: 1 }).is_some());
}

#[test]
fn of_several_differences_the_one_under_the_lowest_divergent_node_is_found() {
    let a = mixed_log(16);
    let mut b = memory_log();
    for i in 1..=16u64 {
        let value = if i == 3 || i == 11 { !splitmix64(i) } else { splitmix64(i) };
        b.append(&value.to_le_bytes()).unwrap();
    }
    // on the path of entry 16 the nodes (8,3) and (12,2) differ; the lower one leads to entry 11
    assert_eq!(converge(&a, &b).unwrap(), (Some(11), 2));
    assert_eq!(converge(&b, &a).unwrap(), (Some(11), 2));
}

#[test]
fn the_first_record_comes_with_the_next_free_position() {
    let empty: MemKVS<Entry> = MemKVS::new();
    let (record, position) = empty.first().unwrap();
    assert!(record.is_none());
    assert_eq!(position, 1);
    let (record, position) = empty.last().unwrap();
    assert!(record.is_none());
    assert_eq!(position, 1);
    // the metadata record and three entries
    let storage = mixed_log(3).into_storage();
    let (record, position) = storage.first().unwrap();
    assert!(record.unwrap().same(&Entry::metadata()));
    assert_eq!(position, 5);
    let (record, position) = storage.last().unwrap();
    let last = record.unwrap();
    assert_eq!(last.i, 3);
    assert_eq!(last.data, splitmix64(3).to_le_bytes().to_vec());
    assert_eq!(position, 5);
    assert_eq!(storage.positions().unwrap(), vec![1, 2, 3, 4]);
}

#[test]
fn a_put_returns_one_more_than_the_number_of_records() {
    let mut store: MemKVS<Entry> = MemKVS::new();
    let record = Entry::metadata();
    // away from the end: the record is held, and the end is where it was
    // for one record
    assert_eq!(store.put(5, &record).unwrap(), 2);
    assert!(store.read(5).unwrap().same(&record));
    let (last, position) = store.last().unwrap();
    assert!(last.is_none());
    assert_eq!(position, 2);
    let mut store: MemKVS<Entry> = MemKVS::new();
    assert_eq!(store.put(1, &record).unwrap(), 2);
    assert_eq!(store.put(1, &record).unwrap(), 2);
    assert_eq!(store.put(2, &record).unwrap(), 3);
    assert_eq!(store.put(1, &record).unwrap(), 3);
    let (last, position) = store.last().unwrap();
    assert!(last.is_some());
    assert_eq!(position, 3);
    assert_eq!(store.len(), 2);
}
