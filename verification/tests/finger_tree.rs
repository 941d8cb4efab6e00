use solution::data_structure::finger_tree::{
    chunk_capacity_for_bytes, Chunk, FingerTree, FingerTreeStore, Value, CACHE_LINE_BYTES,
};
use solution::data_structure::ref_store::{
    ArcStoreFactory, ArenaRef, ArenaStoreFactory, ConstArenaStoreFactory, RcStoreFactory,
};
use solution::traits::monoid::Size;

type Elem = Value<usize>;
type Tree = FingerTree<Elem, 1, ArenaRef<'static>>;
type Store = FingerTreeStore<Chunk<Elem, 1>, RcStoreFactory>;

fn values(range: std::ops::Range<usize>) -> Vec<Elem> {
    range.map(Value).collect()
}

#[test]
fn finger_tree_build_split() {
    let mut refs = Store::default();
    let tree = Tree::from_iter_in(&mut refs, values(0..20));
    assert_eq!(tree.measure(), Size(20));
    for i in 0..20 {
        assert_eq!(
            tree.split(&mut refs, |len| len > &Size(i)).map(|it| it.1),
            Some(Value(i))
        )
    }
    assert!(tree.split(&mut refs, |len| len > &Size(20)).is_none());

    let tree = tree.concat(&mut refs, &tree);
    for i in 0..40 {
        assert_eq!(
            tree.split(&mut refs, |len| len > &Size(i)).map(|it| it.1),
            Some(Value(if i < 20 { i } else { i - 20 }))
        )
    }
    assert!(tree.split(&mut refs, |len| len > &Size(40)).is_none());
}

#[test]
fn empty_and_views() {
    let mut refs = Store::default();
    let empty = Tree::new();
    assert!(empty.is_empty());
    assert!(empty.view_front(&mut refs).is_none());
    assert!(empty.view_back(&mut refs).is_none());
    assert!(empty.split(&mut refs, |_| true).is_none());

    let tree = empty
        .push_back(&mut refs, Value(1))
        .push_front(&mut refs, Value(0));
    assert_eq!(tree.measure(), Size(2));
    assert_eq!(tree.view_front(&mut refs).map(|it| it.0), Some(Value(0)));
    assert_eq!(tree.view_back(&mut refs).map(|it| it.1), Some(Value(1)));
}

#[test]
fn views_preserve_order() {
    let mut refs = Store::default();
    let tree = Tree::from_iter_in(&mut refs, values(0..64));

    let mut cursor = tree.clone();
    for i in 0..64 {
        let (value, rest) = cursor.view_front(&mut refs).unwrap();
        assert_eq!(value, Value(i));
        cursor = rest;
    }
    assert!(cursor.is_empty());

    let mut cursor = tree;
    for i in (0..64).rev() {
        let (rest, value) = cursor.view_back(&mut refs).unwrap();
        assert_eq!(value, Value(i));
        cursor = rest;
    }
    assert!(cursor.is_empty());
}

#[test]
fn arc_store_operations() {
    let mut refs: FingerTreeStore<Chunk<Elem, 1>, ArcStoreFactory> =
        FingerTreeStore::new(ArcStoreFactory);
    let mut front: FingerTree<Elem, 1, _> = FingerTree::new();
    let mut back: FingerTree<Elem, 1, _> = FingerTree::new();

    for i in 0..16 {
        front.push_back_mut(&mut refs, Value(i));
        back.push_back_mut(&mut refs, Value(i + 16));
    }

    let tree = front.concat(&mut refs, &back);
    assert_eq!(tree.measure(), Size(32));
    for i in 0..32 {
        assert_eq!(
            tree.split(&mut refs, |len| len > &Size(i)).map(|it| it.1),
            Some(Value(i))
        );
    }
}

#[test]
fn arena_store_shares_array_storage() {
    ArenaStoreFactory::scoped(4096, |factory| {
        let mut arena: FingerTreeStore<Chunk<Elem, 1>, _> = FingerTreeStore::new(factory);
        let mut front: FingerTree<Elem, 1, _> = FingerTree::new();
        let mut back: FingerTree<Elem, 1, _> = FingerTree::new();

        for i in 0..32 {
            front.push_back_mut(&mut arena, Value(i));
            back.push_back_mut(&mut arena, Value(i + 32));
        }

        let tree = front.into_concat(&mut arena, back);
        assert_eq!(tree.measure(), Size(64));
        for i in 0..64 {
            assert_eq!(
                tree.split(&mut arena, |len| len > &Size(i)).map(|it| it.1),
                Some(Value(i))
            );
        }
    });
}

#[test]
fn arena_consuming_operations() {
    ArenaStoreFactory::scoped(4096, |factory| {
        let mut arena: FingerTreeStore<Chunk<Elem, 1>, _> = FingerTreeStore::new(factory);
        let mut tree: FingerTree<Elem, 1, _> = FingerTree::new();
        for i in 0..64 {
            tree.push_back_mut(&mut arena, Value(i));
        }

        for i in 0..16 {
            assert_eq!(tree.pop_front(&mut arena), Some(Value(i)));
        }
        for i in (48..64).rev() {
            assert_eq!(tree.pop_back(&mut arena), Some(Value(i)));
        }

        let (front, value, back) = tree
            .into_split(&mut arena, |len| len > &Size(8))
            .unwrap();
        assert_eq!(front.measure(), Size(8));
        assert_eq!(value, Value(24));
        assert_eq!(back.measure(), Size(23));
    });
}

#[test]
fn const_arena_store_uses_static_capacity() {
    ConstArenaStoreFactory::<4096>::scoped(|factory| {
        let mut arena: FingerTreeStore<Chunk<Elem, 1>, _> = FingerTreeStore::new(factory);
        let tree: FingerTree<Elem, 1, _> = FingerTree::from_iter_in(&mut arena, values(0..64));

        assert_eq!(tree.front(&arena), Some(Value(0)));
        assert_eq!(tree.back(&arena), Some(Value(63)));
        assert_eq!(tree.measure(), Size(64));
    });
}

#[test]
fn layered_arena_uses_scratch_for_results() {
    ArenaStoreFactory::scoped(4096, |factory| {
        let mut base: FingerTreeStore<Chunk<Elem, 1>, _> = FingerTreeStore::new(factory);
        let front: FingerTree<Elem, 1, _> = FingerTree::from_iter_in(&mut base, values(0..40));
        let back: FingerTree<Elem, 1, _> = FingerTree::from_iter_in(&mut base, values(40..80));

        base.layered(1024, |mut scratch| {
            let front = scratch.from_base(&front);
            let back = scratch.from_base(&back);
            let tree = front.concat(&mut scratch, &back);
            assert_eq!(tree.measure(), Size(80));

            for i in 0..80 {
                assert_eq!(
                    tree.split(&mut scratch, |len| len > &Size(i)).map(|it| it.1),
                    Some(Value(i))
                );
            }
        });

        assert_eq!(front.front(&base), Some(Value(0)));
        assert_eq!(back.back(&base), Some(Value(79)));
    });
}

#[test]
fn finger_tree_concat() {
    for front_size in 0..20 {
        for back_size in 0..20 {
            let mut refs = Store::default();
            let front = Tree::from_iter_in(&mut refs, values(0..front_size));
            let back = Tree::from_iter_in(&mut refs, values(0..back_size));

            let tree = front.concat(&mut refs, &back);
            for i in 0..(front_size + back_size) {
                let value = tree.split(&mut refs, |l| l > &Size(i)).map(|it| it.1);
                assert_eq!(
                    value,
                    Some(if i < front_size {
                        Value(i)
                    } else {
                        Value(i - front_size)
                    })
                )
            }
        }
    }
}

#[test]
fn fingertree_build_split() {
    let mut refs = Store::default();
    let tree = Tree::from_iter_in(&mut refs, values(0..20));
    assert_eq!(tree.measure(), Size(20));
    for i in 0..20 {
        assert_eq!(
            tree.split(&mut refs, |len| len > &Size(i)).map(|it| it.1),
            Some(Value(i))
        )
    }

    let tree = tree.concat(&mut refs, &tree);
    for i in 0..40 {
        assert_eq!(
            tree.split(&mut refs, |len| len > &Size(i)).map(|it| it.1),
            Some(Value(if i < 20 { i } else { i - 20 }))
        )
    }
}

#[test]
fn fingertree_concat() {
    for front_size in 0..20 {
        for back_size in 0..20 {
            let mut refs = Store::default();
            let front = Tree::from_iter_in(&mut refs, values(0..front_size));
            let back = Tree::from_iter_in(&mut refs, values(0..back_size));

            let tree = front.concat(&mut refs, &back);
            for i in 0..(front_size + back_size) {
                let value = tree.split(&mut refs, |l| l > &Size(i)).map(|it| it.1);
                assert_eq!(
                    value,
                    Some(if i < front_size {
                        Value(i)
                    } else {
                        Value(i - front_size)
                    })
                )
            }
        }
    }
}

#[test]
fn chunk_capacity_counts_elements_at_their_own_size() {
    assert_eq!(chunk_capacity_for_bytes::<Value<u64>>(CACHE_LINE_BYTES), 6);
    assert_eq!(chunk_capacity_for_bytes::<Value<u64>>(100), 10);
    assert_eq!(chunk_capacity_for_bytes::<Value<u64>>(16), 1);
    assert_eq!(chunk_capacity_for_bytes::<Value<u64>>(0), 1);
}
