use solution::data_structure::seg_tree::SegTree as SharedSegTree;
use solution::data_structure::ref_store::RcStoreFactory;
use solution::data_structure::seg_tree::affine::{affine_step, AffineCommand, Linear, ModSum};
use solution::data_structure::seg_tree::tree::{Applier, SegTree, SegTreeStore};
use solution::traits::monoid::Monoid;
use solution::traits::semigroup::Semigroup;

fn sum_of(v: ModSum) -> u64 {
    match v {
        ModSum::Zero => 0,
        ModSum::Has { sum, .. } => sum,
        ModSum::Mixed => panic!("mixed moduli"),
    }
}

#[test]
fn affine_maps_compose_and_apply_modulo() {
    let p = 38;
    let double_plus_one = Linear::new(2, 1, p);
    let triple = Linear::new(3, 0, p);
    let mut v = ModSum::single(5, p).merge(ModSum::single(7, p));
    // triple after double_plus_one: 3 * (2x + 1) = 6x + 3
    let both = triple.merge(double_plus_one);
    assert_eq!(both, Linear::new(6, 3, p));
    both.apply(&mut v);
    assert_eq!(v, ModSum::Has { sum: (6 * 12 + 3 * 2) % 38, len: 2, modulus: p });
    assert_eq!(Linear::new(1, 0, 5).merge(Linear::new(1, 0, 7)), Linear::Mixed);
    assert_eq!(ModSum::single(1, 5).merge(ModSum::single(1, 7)), ModSum::Mixed);
    assert!(Linear::empty().is_empty());
    assert!(ModSum::empty().is_empty());
}

#[test]
fn range_affine_updates_and_sums() {
    // the sample of the judge problem: 5 values, modulus 38
    let p = 38;
    let init = [1u64, 5, 4, 2, 3];
    let mut store: SegTreeStore<ModSum, Linear, 2, RcStoreFactory> = SegTreeStore::default();
    let mut tree = SegTree::build_in(&mut store, init.len(), |i| ModSum::single(init[i], p));
    // 2 1 4 1: add 1 to positions 1..=4
    tree = tree.apply(&mut store, 0..4, &Linear::new(1, 1, p));
    // 3 2 5
    assert_eq!(sum_of(tree.query(&store, 1..5)), 17);
    // 1 2 4 2: multiply positions 2..=4 by 2
    tree = tree.apply(&mut store, 1..4, &Linear::new(2, 0, p));
    // 2 3 5 5: add 5 to positions 3..=5
    tree = tree.apply(&mut store, 2..5, &Linear::new(1, 5, p));
    // 3 1 4: 2 + 12 + 15 + 11 = 40, which is 2 modulo 38
    assert_eq!(sum_of(tree.query(&store, 0..4)), 2);
}

#[test]
fn shared_tree_affine_updates_include_both_ends() {
    let p = 38;
    let init = [1u64, 5, 4, 2, 3];
    let mut tree: SharedSegTree<ModSum, Linear> = SharedSegTree::build(init.len(), |i| ModSum::single(init[i], p));
    // positions 1 to 4 (indices 0 to 3, both included) gain 1
    tree = tree.apply(0..3, Linear::new(1, 1, p));
    assert_eq!(sum_of(tree.query(1..5)), 17);
    tree = tree.apply(1..3, Linear::new(2, 0, p));
    tree = tree.apply(2..4, Linear::new(1, 5, p));
    assert_eq!(sum_of(tree.query(0..4)), 2);
}

#[test]
fn affine_steps_answer_sums_between_updates() {
    let p = 38;
    let init = [1u64, 5, 4, 2, 3];
    let mut tree: SharedSegTree<ModSum, Linear> =
        SharedSegTree::build(init.len(), |i| ModSum::single(init[i], p));
    let commands = [
        AffineCommand::Add { first: 1, last: 4, term: 1 },
        AffineCommand::Sum { first: 2, last: 5 },
        AffineCommand::Multiply { first: 2, last: 4, factor: 2 },
        AffineCommand::Add { first: 3, last: 5, term: 5 },
        AffineCommand::Sum { first: 1, last: 4 },
    ];
    let mut answers = Vec::new();
    for command in commands {
        let (next, answer) = affine_step(tree, command, p);
        tree = next;
        if let Some(sum) = answer {
            answers.push(sum_of(sum));
        }
    }
    assert_eq!(answers, vec![17, 2]);
}
