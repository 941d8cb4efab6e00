use solution::data_structure::finger_tree::{
    Chunk, FingerTree, FingerTreeStore, RawFingerTree, Value,
};
use solution::data_structure::ref_store::{ArenaRef, RcStoreFactory};
use solution::traits::monoid::Size;

type Elem = Value<usize>;
type Tree = FingerTree<Elem, 4, ArenaRef<'static>>;
type Store = FingerTreeStore<Chunk<Elem, 4>, RcStoreFactory>;
type Raw = RawFingerTree<Elem, ArenaRef<'static>>;
type RawStore = FingerTreeStore<Elem, RcStoreFactory>;

fn drain_front(refs: &mut Store, tree: &Tree) -> Vec<usize> {
    let mut cursor = tree.clone();
    let mut out = Vec::new();
    while let Some(value) = cursor.pop_front(refs) {
        out.push(value.0);
    }
    out
}

fn drain_raw(refs: &mut RawStore, tree: &Raw) -> Vec<usize> {
    let mut cursor = tree.concat(refs, &Raw::new());
    let mut out = Vec::new();
    while let Some(value) = cursor.pop_front(refs) {
        out.push(value.0);
    }
    out
}

#[test]
fn split_then_concat_gives_the_tree_back() {
    let mut refs = Store::default();
    let tree = Tree::from_iter_in(&mut refs, (0..50).map(Value).collect());
    let expected: Vec<usize> = (0..50).collect();
    for i in 0..50 {
        let (left, middle, right) = tree.split(&mut refs, |len| len > &Size(i)).unwrap();
        assert_eq!(middle, Value(i));
        assert_eq!(left.measure(), Size(i));
        assert_eq!(right.measure(), Size(49 - i));
        let joined = left.push_back(&mut refs, middle).concat(&mut refs, &right);
        assert_eq!(drain_front(&mut refs, &joined), expected);
    }
    assert_eq!(drain_front(&mut refs, &tree), expected);
}

#[test]
fn pushes_and_pops_keep_order() {
    let mut refs = Store::default();
    let mut tree = Tree::new();
    for i in 0..30 {
        tree.push_back_mut(&mut refs, Value(i));
    }
    for i in 0..30 {
        tree.push_front_mut(&mut refs, Value(100 + i));
    }
    assert_eq!(tree.measure(), Size(60));
    for i in (0..30).rev() {
        assert_eq!(tree.pop_front(&mut refs), Some(Value(100 + i)));
    }
    for i in (0..30).rev() {
        assert_eq!(tree.pop_back(&mut refs), Some(Value(i)));
    }
    assert_eq!(tree.pop_front(&mut refs), None);
    assert_eq!(tree.pop_back(&mut refs), None);
    assert!(tree.is_empty());
}

#[test]
fn shared_operations_leave_the_tree_unchanged() {
    let mut refs = Store::default();
    let tree = Tree::from_iter_in(&mut refs, (0..20).map(Value).collect());
    let pushed = tree.push_front(&mut refs, Value(99));
    let (first, rest) = tree.view_front(&mut refs).unwrap();
    let (init, last) = tree.view_back(&mut refs).unwrap();
    let doubled = tree.concat(&mut refs, &tree);

    assert_eq!(first, Value(0));
    assert_eq!(last, Value(19));
    assert_eq!(rest.measure(), Size(19));
    assert_eq!(init.measure(), Size(19));
    assert_eq!(pushed.front(&refs), Some(Value(99)));
    assert_eq!(doubled.measure(), Size(40));
    assert_eq!(drain_front(&mut refs, &tree), (0..20).collect::<Vec<_>>());
    assert_eq!(tree.front(&refs), Some(Value(0)));
    assert_eq!(tree.back(&refs), Some(Value(19)));
}

#[test]
fn split_finds_the_first_element_past_the_bound() {
    let mut refs = Store::default();
    let tree = Tree::from_iter_in(&mut refs, (0..10).map(Value).collect());
    assert!(tree.split(&mut refs, |len| len > &Size(10)).is_none());
    let (left, middle, right) = tree.split(&mut refs, |_| true).unwrap();
    assert_eq!(middle, Value(0));
    assert!(left.is_empty());
    assert_eq!(right.measure(), Size(9));
    let (left, middle, right) = tree.into_split(&mut refs, |len| len > &Size(9)).unwrap();
    assert_eq!(middle, Value(9));
    assert_eq!(left.measure(), Size(9));
    assert!(right.is_empty());
}

#[test]
fn raw_tree_sequence_operations() {
    let mut refs = RawStore::default();
    let tree = Raw::from_iter_in(&mut refs, (0..25).map(Value).collect());
    assert_eq!(tree.measure(), Size(25));
    assert_eq!(tree.front(&refs), Some(Value(0)));
    assert_eq!(tree.back(&refs), Some(Value(24)));

    let other = Raw::from_iter_in(&mut refs, (25..40).map(Value).collect());
    let joined = tree.concat(&mut refs, &other);
    assert_eq!(drain_raw(&mut refs, &joined), (0..40).collect::<Vec<_>>());
    assert_eq!(drain_raw(&mut refs, &tree), (0..25).collect::<Vec<_>>());

    for i in 0..40 {
        let (left, middle, right) = joined.split(&mut refs, |len| len > &Size(i)).unwrap();
        assert_eq!(middle, Value(i));
        assert_eq!(left.measure(), Size(i));
        assert_eq!(right.measure(), Size(39 - i));
    }

    let mut cursor = joined;
    cursor.push_front_mut(&mut refs, Value(1000));
    cursor.push_back_mut(&mut refs, Value(2000));
    assert_eq!(cursor.pop_front(&mut refs), Some(Value(1000)));
    assert_eq!(cursor.pop_back(&mut refs), Some(Value(2000)));
    assert_eq!(cursor.pop_back(&mut refs), Some(Value(39)));
    assert!(Raw::new().is_empty());
}
