use slate_benchmark::block::{build_frame, check_frame, BlockStorage};
use slate_benchmark::device::{Device, MemoryDevice};
use slate_benchmark::entry::{Branch, Entry};
use slate_benchmark::hashtree::binary::{BinaryHashTree, MetaInfo, Node, NodeKind};
use slate_benchmark::hashtree::HashTree;
use slate_benchmark::log::Slate;
use slate_benchmark::splitmix64;
use slate_benchmark::storage::{Error, Serializable, Storage};

fn block_log(n: u64) -> Slate<BlockStorage<MemoryDevice, Entry>> {
    let mut log = Slate::new_on_memory_with_capacity(0).unwrap();
    for i in 1..=n {
        log.append(&splitmix64(i).to_le_bytes()).unwrap();
    }
    log
}

#[test]
fn a_record_is_laid_out_bit_for_bit() {
    let frame = build_frame(&[0xaa, 0xbb, 0xcc], 0x0102030405060708);
    assert_eq!(frame.len(), 4 + 4 + 3 + 8 + 4);
    assert_eq!(&frame[0..4], b"SLT1");
    assert_eq!(&frame[4..8], &[3, 0, 0, 0]);
    assert_eq!(&frame[8..11], &[0xaa, 0xbb, 0xcc]);
    assert_eq!(&frame[11..19], &[8, 7, 6, 5, 4, 3, 2, 1]);
    assert_eq!(&frame[19..23], &blake3::hash(&frame[0..19]).as_bytes()[0..4]);
    assert!(check_frame(&frame));
    for x in 0..frame.len() {
        let mut bad = frame.clone();
        bad[x] ^= 0x10;
        assert!(!check_frame(&bad), "byte {x}");
    }
    assert!(!check_frame(&frame[..22]));
    assert!(!check_frame(&[]));
}

#[test]
fn an_entry_is_laid_out_bit_for_bit() {
    let log = block_log(2);
    let (position, entry) = log.read_entry(2).unwrap().unwrap();
    let mut bytes = Vec::new();
    let n = entry.write(&mut bytes).unwrap();
    assert_eq!(n, bytes.len());
    assert_eq!(n, 8 + 32 + 4 + 8 + 49);
    assert_eq!(&bytes[0..8], &2u64.to_le_bytes());
    assert_eq!(&bytes[8..40], blake3::hash(&splitmix64(2).to_le_bytes()).as_bytes());
    assert_eq!(&bytes[40..44], &8u32.to_le_bytes());
    assert_eq!(&bytes[44..52], &splitmix64(2).to_le_bytes());
    assert_eq!(bytes[52], 1);
    assert_eq!(&bytes[53..85], &entry.inodes[0].hash.value);
    // the metadata record takes 8 + 32 + 4 + 4 bytes of payload and 20 of
    // frame, the record of entry 1 takes 8 + 32 + 4 + 8 and 20
    assert_eq!(&bytes[85..93], &68u64.to_le_bytes());
    assert_eq!(&bytes[93..101], &position.to_le_bytes());
    assert_eq!(position, 68 + 72);
    let back = Entry::read(&bytes, position).unwrap();
    assert!(back.same(&entry));
    assert_eq!(Entry::read(&bytes[..100], position).err(), Some(Error::Serialization));
    assert_eq!(Entry::read(&bytes[..43], position).err(), Some(Error::Serialization));
    let node = Branch::read(&bytes, 52).unwrap();
    assert!(node.same(&entry.inodes[0]));
    assert!(Branch::read(&bytes, 53).is_none());
}

#[test]
fn a_node_is_laid_out_bit_for_bit() {
    let leaf = Node::new_leaf(7, 5, vec![1, 2, 3]);
    let mut bytes = Vec::new();
    assert_eq!(leaf.write(&mut bytes).unwrap(), 8 + 32 + 1 + 4 + 3);
    assert_eq!(&bytes[0..8], &5u64.to_le_bytes());
    assert_eq!(&bytes[8..40], blake3::hash(&[1, 2, 3]).as_bytes());
    assert_eq!(bytes[40], 1);
    assert_eq!(&bytes[41..45], &3u32.to_le_bytes());
    assert_eq!(&bytes[45..], &[1, 2, 3]);
    let back = Node::read(&bytes, 7).unwrap();
    assert_eq!(back.position, 7);
    assert_eq!(back.index, 5);
    assert_eq!(back.hash.value, leaf.hash.value);
    assert!(matches!(back.kind, NodeKind::Leaf { ref data } if data == &vec![1, 2, 3]));

    let branch = Node::new_internal(9, 2, leaf.hash, 11, 12);
    let mut bytes = Vec::new();
    assert_eq!(branch.write(&mut bytes).unwrap(), 8 + 32 + 1 + 8 + 8);
    assert_eq!(bytes[40], 0);
    assert_eq!(&bytes[41..49], &11u64.to_le_bytes());
    assert_eq!(&bytes[49..57], &12u64.to_le_bytes());
    let back = Node::read(&bytes, 9).unwrap();
    assert!(matches!(back.kind, NodeKind::Branch { left: 11, right: 12 }));
    assert_eq!(Node::read(&bytes[..56], 9).err(), Some(Error::Serialization));
    assert_eq!(Node::read(&[], 9).err(), Some(Error::Serialization));
}

#[test]
fn a_log_on_blocks_reads_what_was_appended() {
    let log = block_log(40);
    assert_eq!(log.n(), 40);
    for k in 1..=40 {
        assert_eq!(log.get(k).unwrap(), Some(splitmix64(k).to_le_bytes().to_vec()));
        assert!(log.get_auth_path(k).unwrap().unwrap().verify());
    }
    assert_eq!(log.get(41).unwrap(), None);
}

#[test]
fn back_pointers_lead_through_every_record_once() {
    let storage = block_log(25).into_storage();
    let forward = storage.positions().unwrap();
    assert_eq!(forward.len(), 26);
    assert_eq!(forward[0], 0);
    let mut backward = storage.walk_back().unwrap();
    backward.reverse();
    assert_eq!(forward, backward);
    let empty: BlockStorage<MemoryDevice, Entry> = BlockStorage::new(MemoryDevice::new()).unwrap();
    assert_eq!(empty.walk_back().unwrap(), vec![]);
    assert_eq!(empty.count(), 0);
}

#[test]
fn crash_recovery_drops_the_corrupt_tail() {
    let n = 12;
    let log = block_log(n);
    let storage = log.into_storage();
    let positions = storage.positions().unwrap();
    let mut bytes = storage.into_device().into_bytes();
    let len = bytes.len();
    for x in len - 3..len {
        bytes[x] ^= 0xff;
    }
    // strict mode refuses the storage
    let strict = BlockStorage::<MemoryDevice, Entry>::open(MemoryDevice::from_bytes(bytes.clone()), false);
    assert_eq!(strict.err(), Some(Error::Corruption { position: positions[n as usize] }));
    // recovery mode cuts the tail record off
    let recovered =
        BlockStorage::<MemoryDevice, Entry>::open(MemoryDevice::from_bytes(bytes), true).unwrap();
    assert_eq!(recovered.count() as u64, n);
    let log = Slate::new(recovered).unwrap();
    assert_eq!(log.n(), n - 1);
    for k in 1..n {
        assert_eq!(log.get(k).unwrap(), Some(splitmix64(k).to_le_bytes().to_vec()));
    }
    assert_eq!(log.get(n).unwrap(), None);
    let device = log.into_storage().into_device();
    assert_eq!(device.len().unwrap(), positions[n as usize]);
}

#[test]
fn a_reopened_log_goes_on_where_it_was() {
    let bytes = block_log(7).into_storage().into_device().into_bytes();
    let storage = BlockStorage::open(MemoryDevice::from_bytes(bytes), false).unwrap();
    let mut log = Slate::new(storage).unwrap();
    assert_eq!(log.n(), 7);
    let root = log.root_hash().value;
    assert_eq!(root, block_log(7).root_hash().value);
    assert_eq!(log.append(&splitmix64(8).to_le_bytes()).unwrap(), 8);
    assert_eq!(log.root_hash().value, block_log(8).root_hash().value);
}

#[test]
fn a_log_with_a_changed_payload_is_not_opened() {
    let storage = block_log(5).into_storage();
    let positions = storage.positions().unwrap();
    let mut bytes = storage.into_device().into_bytes();
    // change the user bytes of entry 3 and give the record a fitting checksum
    let start = positions[3] as usize;
    let end = positions[4] as usize;
    bytes[start + 8 + 44] ^= 1;
    let sum = blake3::hash(&bytes[start..end - 4]);
    bytes[end - 4..end].copy_from_slice(&sum.as_bytes()[0..4]);
    let storage = BlockStorage::<MemoryDevice, Entry>::open(MemoryDevice::from_bytes(bytes), false).unwrap();
    assert_eq!(storage.count(), 6);
    assert_eq!(Slate::new(storage).err(), Some(Error::Corruption { position: positions[3] }));
}

#[test]
fn garbage_is_no_storage() {
    let device = MemoryDevice::from_bytes(vec![1, 2, 3]);
    assert_eq!(
        BlockStorage::<MemoryDevice, Entry>::open(device, false).err(),
        Some(Error::Corruption { position: 0 })
    );
    let device = MemoryDevice::from_bytes(vec![1, 2, 3]);
    let storage = BlockStorage::<MemoryDevice, Entry>::open(device, true).unwrap();
    assert_eq!(storage.count(), 0);
    assert_eq!(storage.into_device().len().unwrap(), 0);
    assert!(BlockStorage::<MemoryDevice, Entry>::new(MemoryDevice::from_bytes(vec![0])).is_err());
}

#[test]
fn a_device_in_memory_reads_writes_and_grows() {
    let mut device = MemoryDevice::new();
    assert_eq!(device.append(&[1, 2, 3]).unwrap(), 0);
    assert_eq!(device.append(&[4, 5]).unwrap(), 3);
    assert_eq!(device.len().unwrap(), 5);
    assert_eq!(device.read_exact(1, 3).unwrap(), vec![2, 3, 4]);
    assert_eq!(device.read_exact(5, 0).unwrap(), vec![]);
    assert_eq!(device.read_exact(4, 2).err(), Some(Error::Io));
    device.write(3, &[9, 8]).unwrap();
    assert_eq!(device.write(4, &[0, 0]).err(), Some(Error::Io));
    device.sync().unwrap();
    device.truncate(4).unwrap();
    assert_eq!(device.truncate(5).err(), Some(Error::Io));
    assert_eq!(device.into_bytes(), vec![1, 2, 3, 9]);
}

#[test]
fn a_perfect_tree_on_blocks_is_stored_level_by_level() {
    let mut storage: BlockStorage<MemoryDevice, Node> =
        BlockStorage::new(MemoryDevice::new()).unwrap();
    BinaryHashTree::create(&mut storage, 8, &|k: u64| splitmix64(k).to_le_bytes().to_vec())
        .unwrap();
    let positions = storage.positions().unwrap();
    assert_eq!(positions.len(), 256);
    // raw blocks: the metadata, then the nodes in the order of their serial numbers
    let meta = storage.read(positions[0]).unwrap();
    assert_eq!(meta.index, 0);
    match &meta.kind {
        NodeKind::Leaf { data } => {
            let meta = MetaInfo::read(data).unwrap();
            assert_eq!(meta.height, 8);
            assert_eq!(meta.root, positions[1]);
        }
        NodeKind::Branch { .. } => panic!(),
    }
    for serial in 1..=255usize {
        let node = storage.read(positions[serial]).unwrap();
        assert_eq!(node.index, serial as u64);
        assert_eq!(node.position, positions[serial]);
        match &node.kind {
            NodeKind::Branch { left, right } => {
                assert!(serial < 128);
                assert_eq!(*left, positions[2 * serial]);
                assert_eq!(*right, positions[2 * serial + 1]);
            }
            NodeKind::Leaf { data } => {
                assert!(serial >= 128);
                assert_eq!(data, &splitmix64(serial as u64 - 127).to_le_bytes().to_vec());
            }
        }
    }
    for limit in [0usize, 1, 2, 3, 10, 1000] {
        let bytes = {
            let mut copy: BlockStorage<MemoryDevice, Node> =
                BlockStorage::new(MemoryDevice::new()).unwrap();
            BinaryHashTree::create(&mut copy, 8, &|k: u64| splitmix64(k).to_le_bytes().to_vec())
                .unwrap();
            copy.into_device().into_bytes()
        };
        let storage = BlockStorage::open(MemoryDevice::from_bytes(bytes), false).unwrap();
        let tree = BinaryHashTree::new(storage, limit).unwrap();
        assert_eq!(tree.size(), 128);
        for k in 1..=128 {
            assert_eq!(tree.get(k).unwrap(), Some(splitmix64(k).to_le_bytes().to_vec()));
        }
        assert_eq!(tree.get(0).unwrap(), None);
        assert_eq!(tree.get(129).unwrap(), None);
    }
}
