use solution::data_structure::ref_store::{
    ArcStoreFactory, ArenaRef, ArenaStoreFactory, ConstArenaStoreFactory, RcStoreFactory,
};
use solution::data_structure::seg_tree::colors::{ByteMap, Mask};
use solution::data_structure::seg_tree::tags::Add;
use solution::data_structure::seg_tree::tree::{
    seg_block_capacity_for_bytes, SegNode, SegTree, SegTreeStore, DEFAULT_SEG_LEAF_BLOCK_CAPACITY,
    SEG_TREE_CACHE_LINE_BYTES,
};
use solution::traits::semigroup::Sum;

#[test]
fn in_place_seg_tree_range_update_and_query() {
    ArenaStoreFactory::scoped(128, |factory| {
        let mut arena: SegTreeStore<(Sum<i64>, Sum<i64>), Add, DEFAULT_SEG_LEAF_BLOCK_CAPACITY, _> =
            SegTreeStore::new(factory);
        let mut tree = SegTree::build_in(&mut arena, 8, |i| (Sum(i as i64), Sum(1)));

        assert_eq!(tree.query(&arena, 0..8).0 .0, 28);
        assert_eq!(tree.query(&arena, 2..5).0 .0, 9);

        tree.apply_mut(&mut arena, 1..7, &Add(10));

        assert_eq!(tree.query(&arena, 0..8).0 .0, 88);
        assert_eq!(tree.query(&arena, 2..5).0 .0, 39);

        let mut it = tree.iter(&arena);
        let mut values = Vec::new();
        while let Some(v) = it.next() {
            values.push(v.0 .0);
        }
        assert_eq!(values, vec![0, 11, 12, 13, 14, 15, 16, 7]);
    });
}

#[test]
fn arena_seg_tree_keeps_persistent_versions() {
    ArenaStoreFactory::scoped(128, |factory| {
        let mut arena: SegTreeStore<(Sum<i64>, Sum<i64>), Add, DEFAULT_SEG_LEAF_BLOCK_CAPACITY, _> =
            SegTreeStore::new(factory);
        let tree = SegTree::build_in(&mut arena, 8, |i| (Sum(i as i64), Sum(1)));
        let updated = tree.apply(&mut arena, 1..7, &Add(10));

        assert_eq!(tree.query(&arena, 0..8).0 .0, 28);
        assert_eq!(updated.query(&arena, 0..8).0 .0, 88);
        assert_eq!(updated.query(&arena, 2..5).0 .0, 39);
    });
}

#[test]
fn const_arena_seg_tree_builds_with_static_capacity() {
    ConstArenaStoreFactory::<128>::scoped(|factory| {
        let mut arena: SegTreeStore<(Sum<i64>, Sum<i64>), Add, DEFAULT_SEG_LEAF_BLOCK_CAPACITY, _> =
            SegTreeStore::new(factory);
        let tree = SegTree::build_in(&mut arena, 8, |i| (Sum(i as i64), Sum(1)));

        assert_eq!(tree.query(&arena, 0..8).0 .0, 28);
        assert_eq!(tree.query(&arena, 2..5).0 .0, 9);
    });
}

#[test]
fn layered_arena_seg_tree_allocates_updates_in_scratch() {
    ArenaStoreFactory::scoped(128, |factory| {
        let mut base: SegTreeStore<(Sum<i64>, Sum<i64>), Add, DEFAULT_SEG_LEAF_BLOCK_CAPACITY, _> =
            SegTreeStore::new(factory);
        let tree = SegTree::build_in(&mut base, 8, |i| (Sum(i as i64), Sum(1)));

        base.layered(64, |mut scratch| {
            let tree = scratch.from_base(&tree);
            let updated = tree.apply(&mut scratch, 1..7, &Add(10));

            assert_eq!(tree.query(&scratch, 0..8).0 .0, 28);
            assert_eq!(updated.query(&scratch, 0..8).0 .0, 88);
            assert_eq!(updated.query(&scratch, 2..5).0 .0, 39);
        });

        assert_eq!(tree.query(&base, 0..8).0 .0, 28);
    });
}

#[test]
fn arc_seg_tree_range_update_and_query() {
    let mut store: SegTreeStore<
        (Sum<i64>, Sum<i64>),
        Add,
        DEFAULT_SEG_LEAF_BLOCK_CAPACITY,
        ArcStoreFactory,
    > = SegTreeStore::new(ArcStoreFactory);
    let tree = SegTree::build_in(&mut store, 8, |i| (Sum(i as i64), Sum(1)));

    let updated = tree.apply(&mut store, 1..7, &Add(10));

    assert_eq!(tree.query(&store, 0..8).0 .0, 28);
    assert_eq!(updated.query(&store, 0..8).0 .0, 88);
    assert_eq!(updated.query(&store, 2..5).0 .0, 39);
}

#[test]
fn seg_tree_leaf_block_capacity_is_const_calculated() {
    const BLOCK: usize = 4;
    assert_eq!(
        seg_block_capacity_for_bytes::<(Sum<i64>, Sum<i64>), Add, ArenaRef<'static>>(
            SEG_TREE_CACHE_LINE_BYTES + SEG_TREE_CACHE_LINE_BYTES / 2,
        ),
        BLOCK
    );

    ArenaStoreFactory::scoped(128, |factory| {
        let mut arena: SegTreeStore<(Sum<i64>, Sum<i64>), Add, BLOCK, _> = SegTreeStore::new(factory);
        let tree: SegTree<_, Add, BLOCK, _> =
            SegTree::build_in(&mut arena, 8, |i| (Sum(i as i64), Sum(1)));

        assert_eq!(tree.query(&arena, 0..8).0 .0, 28);
        assert_eq!(tree.query(&arena, 2..5).0 .0, 9);
    });
}

#[test]
fn seg_tree_leaf_block_capacity_targets_node_size() {
    const BLOCK: usize = 2;
    assert_eq!(
        seg_block_capacity_for_bytes::<(Sum<i64>, Sum<i64>), Add, ArenaRef<'static>>(
            SEG_TREE_CACHE_LINE_BYTES,
        ),
        BLOCK
    );

    assert!(std::mem::size_of::<SegNode<(Sum<i64>, Sum<i64>), Add, BLOCK, ArenaRef<'static>>>() <= 80);
}

fn lowest_colors(tree: &SegTree<Mask, ByteMap, 4>, store: &SegTreeStore<Mask, ByteMap, 4, RcStoreFactory>) -> Vec<u8> {
    let mut it = tree.iter(store);
    let mut values = Vec::new();
    while let Some(mask) = it.next() {
        values.push(mask.0.trailing_zeros() as u8);
    }
    values
}

#[test]
fn seg_tree_updates_blocks_with_custom_batch_apply() {
    const BLOCK: usize = 4;
    let mut store: SegTreeStore<Mask, ByteMap, BLOCK, RcStoreFactory> = SegTreeStore::default();
    let mut tree: SegTree<Mask, ByteMap, BLOCK> = SegTree::build_in(&mut store, 9, |i| {
        Mask(1u128 << [1, 2, 3, 2, 1, 2, 4, 2, 5][i])
    });

    tree = tree.apply(&mut store, 1..8, &ByteMap::replace(2, 7));
    assert_eq!(lowest_colors(&tree, &store), vec![1, 7, 3, 7, 1, 7, 4, 7, 5]);

    tree = tree.apply(&mut store, 0..9, &ByteMap::replace(7, 6));
    assert_eq!(lowest_colors(&tree, &store), vec![1, 6, 3, 6, 1, 6, 4, 6, 5]);

    let mut store: SegTreeStore<Mask, ByteMap, BLOCK, RcStoreFactory> = SegTreeStore::default();
    let mut tree: SegTree<Mask, ByteMap, BLOCK> = SegTree::build_in(&mut store, 9, |i| {
        Mask(1u128 << [1, 2, 2, 2, 1, 2, 4, 2, 5][i])
    });
    tree = tree.apply(&mut store, 0..9, &ByteMap::replace(2, 7));
    tree = tree.apply(&mut store, 2..4, &ByteMap::replace(7, 8));
    assert_eq!(lowest_colors(&tree, &store), vec![1, 7, 8, 8, 1, 7, 4, 7, 5]);
}

#[test]
fn color_masks_merge_and_recolor() {
    let query_tree = {
        let mut store: SegTreeStore<Mask, ByteMap, 4, RcStoreFactory> = SegTreeStore::default();
        let mut tree: SegTree<Mask, ByteMap, 4> =
            SegTree::build_in(&mut store, 6, |i| Mask(1u128 << [3, 3, 9, 127, 0, 9][i]));
        assert_eq!(tree.query(&store, 0..6).0, (1u128 << 0) | (1 << 3) | (1 << 9) | (1 << 127));
        tree.apply_mut(&mut store, 2..6, &ByteMap::replace(9, 3));
        assert_eq!(tree.query(&store, 0..6).0, (1u128 << 0) | (1 << 3) | (1 << 127));
        assert_eq!(tree.query(&store, 4..6).0, (1u128 << 0) | (1 << 3));
        tree.query(&store, 2..3).0
    };
    assert_eq!(query_tree, 1u128 << 3);
}

#[test]
fn const_arena_seg_tree_build_takes_one_leaf_per_block() {
    ConstArenaStoreFactory::<2>::scoped(|factory| {
        let mut arena: SegTreeStore<(Sum<i64>, Sum<i64>), Add, DEFAULT_SEG_LEAF_BLOCK_CAPACITY, _> =
            SegTreeStore::new(factory);
        let tree = SegTree::build_in(&mut arena, 32, |i| (Sum(i as i64), Sum(1)));

        assert_eq!(tree.query(&arena, 0..32).0 .0, 496);
        assert_eq!(tree.query(&arena, 10..20).0 .0, 145);
    });
}
