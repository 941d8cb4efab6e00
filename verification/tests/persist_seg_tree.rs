use solution::data_structure::ref_store::{ArcStoreFactory, ArenaStoreFactory};
use solution::data_structure::seg_tree::persist::{
    seg_branch_payload_bytes, seg_leaf_block_capacity_for_bytes, seg_leaf_block_capacity_for_ref,
    seg_leaf_block_capacity_for_ref_bytes, SegTree, SegTreeStore, DEFAULT_SEG_LEAF_BLOCK_CAPACITY,
    SEG_TREE_CACHE_LINE_BYTES,
};
use solution::data_structure::seg_tree::tags::Add;
use solution::traits::semigroup::Sum;

fn naive_sum(values: &[i64], range: std::ops::Range<usize>) -> i64 {
    let end = range.end.min(values.len());
    let start = range.start.min(end);
    values[start..end].iter().sum()
}

#[test]
fn persist_seg_tree_range_update_and_query() {
    ArenaStoreFactory::scoped(128, |factory| {
        let mut arena: SegTreeStore<(Sum<i64>, Sum<i64>), Add, _, DEFAULT_SEG_LEAF_BLOCK_CAPACITY> =
            SegTreeStore::new(factory);
        let mut tree = SegTree::build_in(&mut arena, 8, |i| (Sum(i as i64), Sum(1)));

        assert_eq!(tree.query(&arena, 0..8).0 .0, 28);
        assert_eq!(tree.query(&arena, 2..5).0 .0, 9);

        tree.apply_mut(&mut arena, 1..7, &Add(10));

        assert_eq!(tree.query(&arena, 0..8).0 .0, 88);
        assert_eq!(tree.query(&arena, 2..5).0 .0, 39);

        let mut it = tree.iter(&arena);
        let mut values = Vec::new();
        while let Some(v) = it.next() {
            values.push(v.0 .0);
        }
        assert_eq!(values, vec![0, 11, 12, 13, 14, 15, 16, 7]);
    });
}

#[test]
fn persist_seg_tree_keeps_old_versions() {
    let mut store: SegTreeStore<(Sum<i64>, Sum<i64>), Add, ArcStoreFactory, 2> =
        SegTreeStore::new(ArcStoreFactory);
    let tree = SegTree::build_in(&mut store, 7, |i| (Sum(i as i64), Sum(1)));
    let updated = tree.apply(&mut store, 1..6, &Add(10));

    assert_eq!(tree.query(&store, 0..7).0 .0, 21);
    assert_eq!(updated.query(&store, 0..7).0 .0, 71);
    assert_eq!(updated.query(&store, 2..5).0 .0, 39);
    assert_eq!(updated.query(&store, 0..7).1 .0, 7);
}

#[test]
fn persist_seg_tree_partial_blocks_match_a_plain_vector() {
    ArenaStoreFactory::scoped(1024, |factory| {
        let mut arena: SegTreeStore<(Sum<i64>, Sum<i64>), Add, _, 3> = SegTreeStore::new(factory);
        let len = 11;
        let mut tree = SegTree::build_in(&mut arena, len, |i| (Sum((i * i) as i64), Sum(1)));
        let mut values: Vec<i64> = (0..len).map(|i| (i * i) as i64).collect();
        let updates = [(0, 4, 3), (2, 9, -5), (5, 11, 7), (3, 3, 100), (8, 20, 2), (0, 11, 1)];
        for &(start, end, k) in updates.iter() {
            tree.apply_mut(&mut arena, start..end, &Add(k));
            for i in start.min(len)..end.min(len) {
                values[i] += k;
            }
            for lo in 0..=len + 1 {
                for hi in lo..=len + 2 {
                    assert_eq!(tree.query(&arena, lo..hi).0 .0, naive_sum(&values, lo..hi));
                }
            }
        }
        let mut it = tree.iter(&arena);
        let mut seen = Vec::new();
        while let Some(v) = it.next() {
            seen.push(v.0 .0);
        }
        assert_eq!(seen, values);
    });
}

#[test]
fn persist_layered_arena_allocates_updates_in_scratch() {
    ArenaStoreFactory::scoped(128, |factory| {
        let mut base: SegTreeStore<(Sum<i64>, Sum<i64>), Add, _, DEFAULT_SEG_LEAF_BLOCK_CAPACITY> =
            SegTreeStore::new(factory);
        let tree = SegTree::build_in(&mut base, 8, |i| (Sum(i as i64), Sum(1)));

        base.layered(64, |mut scratch| {
            let tree = scratch.from_base(&tree);
            let updated = tree.apply(&mut scratch, 1..7, &Add(10));

            assert_eq!(tree.query(&scratch, 0..8).0 .0, 28);
            assert_eq!(updated.query(&scratch, 0..8).0 .0, 88);
        });

        assert_eq!(tree.query(&base, 0..8).0 .0, 28);
    });
}

#[test]
fn persist_leaf_block_capacity_for_bytes() {
    assert_eq!(seg_leaf_block_capacity_for_bytes::<u64>(64), 7);
    assert_eq!(seg_leaf_block_capacity_for_bytes::<u64>(8), 1);
    assert_eq!(seg_leaf_block_capacity_for_bytes::<u64>(0), 1);
    assert_eq!(seg_leaf_block_capacity_for_bytes::<()>(0), 1);
    assert_eq!(seg_leaf_block_capacity_for_bytes::<()>(40), 40);
    assert_eq!(seg_leaf_block_capacity_for_bytes::<u32>(64), 15);
}

#[test]
fn persist_branch_payload_and_ref_capacity() {
    let usize_bytes = std::mem::size_of::<usize>();
    assert_eq!(seg_branch_payload_bytes::<u64, u32, u16>(), usize_bytes + 4 + 8 + 4);
    let branch = seg_branch_payload_bytes::<u64, [u64; 16], usize>();
    assert!(branch > SEG_TREE_CACHE_LINE_BYTES);
    assert_eq!(seg_leaf_block_capacity_for_ref_bytes::<u64, [u64; 16], usize>(16), branch / 8 - 1);
    assert_eq!(seg_leaf_block_capacity_for_ref_bytes::<u64, u8, u8>(1024), 127);
    assert_eq!(seg_leaf_block_capacity_for_ref::<u64, u8, u8>(), 7);
    assert_eq!(
        seg_leaf_block_capacity_for_ref::<u64, [u64; 16], usize>(),
        (branch + SEG_TREE_CACHE_LINE_BYTES / 4) / 8 - 1
    );
}
