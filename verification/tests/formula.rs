use slate_benchmark::formula::{
    access_distance, access_distance_limits, auth_path, forest_roots, inodes_introduced, pow2e, trailing_zeros, Address,
    INode, Side, Step,
};
use slate_benchmark::mixer::{payload, u64_to_rand_bytes};
use slate_benchmark::splitmix64;

#[test]
fn one_interior_node_for_each_trailing_zero_bit() {
    for i in 1..=4096u64 {
        let inodes = inodes_introduced(i);
        assert_eq!(inodes.len() as u32, i.trailing_zeros());
        assert_eq!(u32::from(trailing_zeros(i)), i.trailing_zeros());
        for (t, inode) in inodes.iter().enumerate() {
            let j = t as u8 + 1;
            assert_eq!(inode.node, Address { i, j });
            assert_eq!(inode.left, Address { i: i - (1 << t), j: j - 1 });
            assert_eq!(inode.right, Address { i, j: j - 1 });
        }
    }
    assert_eq!(inodes_introduced(0), vec![]);
    assert_eq!(
        inodes_introduced(12),
        vec![
            INode {
                node: Address { i: 12, j: 1 },
                left: Address { i: 11, j: 0 },
                right: Address { i: 12, j: 0 },
            },
            INode {
                node: Address { i: 12, j: 2 },
                left: Address { i: 10, j: 1 },
                right: Address { i: 12, j: 1 },
            },
        ]
    );
    assert_eq!(inodes_introduced(1u64 << 63).len(), 63);
}

#[test]
fn one_forest_root_for_each_set_bit() {
    for n in 0..=2048u64 {
        let roots = forest_roots(n);
        assert_eq!(roots.len() as u32, n.count_ones());
        let mut next = 1;
        for root in roots.iter() {
            let leaves = 1u64 << root.j;
            assert_eq!(root.i - leaves + 1, next);
            next = root.i + 1;
        }
        assert_eq!(next, n + 1);
    }
    assert_eq!(forest_roots(u64::MAX).len(), 64);
    assert_eq!(forest_roots(0), vec![]);
    assert_eq!(forest_roots(8), vec![Address { i: 8, j: 3 }]);
}

#[test]
fn access_distance_is_the_length_of_the_path() {
    for n in 1..=200u64 {
        for k in 1..=n {
            let path = auth_path(k, n).unwrap();
            assert_eq!(access_distance(k, n), Some(path.len() as u8));
        }
        assert_eq!(access_distance(0, n), None);
        assert_eq!(access_distance(n + 1, n), None);
        assert_eq!(auth_path(0, n), None);
        assert_eq!(auth_path(n + 1, n), None);
    }
    assert_eq!(access_distance(1, 1), Some(0));
    assert_eq!(access_distance(1, 2), Some(1));
    assert_eq!(access_distance(2, 3), Some(2));
    assert_eq!(access_distance(7, 7), Some(2));
    assert_eq!(access_distance(1, 7), Some(3));
    assert_eq!(access_distance(5, 7), Some(3));
    assert_eq!(access_distance(1, u64::MAX), Some(64));
    assert_eq!(access_distance(u64::MAX, u64::MAX), Some(63));
    assert_eq!(access_distance(1, 1 << 63), Some(63));
}

#[test]
fn the_path_of_the_last_leaf_has_only_left_siblings() {
    assert_eq!(
        auth_path(7, 7),
        Some(vec![
            Step { node: Address { i: 6, j: 1 }, side: Side::Left },
            Step { node: Address { i: 4, j: 2 }, side: Side::Left },
        ])
    );
    assert_eq!(
        auth_path(2, 7),
        Some(vec![
            Step { node: Address { i: 1, j: 0 }, side: Side::Left },
            Step { node: Address { i: 4, j: 1 }, side: Side::Right },
            Step { node: Address { i: 7, j: 2 }, side: Side::Right },
        ])
    );
    assert_eq!(auth_path(1, 1), Some(vec![]));
}

#[test]
fn powers_of_two() {
    assert_eq!(pow2e(0), 1);
    assert_eq!(pow2e(10), 1024);
    assert_eq!(pow2e(63), 1 << 63);
}

#[test]
fn the_mixer_has_its_constants() {
    assert_eq!(splitmix64(0), 0);
    assert_eq!(splitmix64(1), 0x5692161d100b05e5);
    assert_eq!(splitmix64(2), 0xdbd238973a2b148a);
    assert_eq!(splitmix64(777), 0xa4181bb623a0b273);
    assert_eq!(splitmix64(u64::MAX), 0xb4d055fcf2cbbd7b);
    assert_eq!(payload(13), 0xdcfa9555b5f881d1u64.to_le_bytes().to_vec());
}

#[test]
fn random_bytes_start_from_the_golden_ratio() {
    let mut buffer = [0u8; 8];
    u64_to_rand_bytes(0, &mut buffer);
    assert_eq!(buffer, [175, 205, 29, 123, 57, 168, 32, 226]);
    u64_to_rand_bytes(1, &mut buffer);
    assert_eq!(buffer, [193, 92, 2, 137, 236, 45, 10, 145]);
}

#[test]
fn every_index_lies_between_the_limits_of_its_distance() {
    for n in 0..=300u64 {
        let (upper, lower) = access_distance_limits(n);
        assert_eq!(upper.len(), lower.len());
        for k in 1..=n {
            let d = access_distance(k, n).unwrap() as usize;
            assert!(lower[d] <= k && k <= upper[d], "n={n} k={k}");
            for other in 0..upper.len() {
                if other != d {
                    assert!(!(lower[other] <= k && k <= upper[other]), "n={n} k={k}");
                }
            }
        }
        if n > 0 {
            assert_eq!(upper.len(), access_distance(1, n).unwrap() as usize + 1);
        }
    }
    assert_eq!(access_distance_limits(0), (vec![], vec![]));
    assert_eq!(access_distance_limits(1), (vec![1], vec![1]));
    // 13 = 8 + 4 + 1: leaf 13 at distance 2, the other leaves at distance 4
    assert_eq!(access_distance_limits(13), (vec![0, 0, 13, 0, 12], vec![1, 1, 13, 1, 1]));
    assert_eq!(access_distance_limits(8), (vec![0, 0, 0, 8], vec![1, 1, 1, 1]));
}
