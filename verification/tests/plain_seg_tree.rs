use solution::data_structure::seg_tree::tags::Add;
use solution::seg_tree::SegTree;
use solution::traits::semigroup::Sum;

fn naive(values: &[i64], range: std::ops::Range<usize>) -> i64 {
    let end = range.end.min(values.len());
    let start = range.start.min(end);
    values[start..end].iter().sum()
}

#[test]
fn plain_seg_tree_sums_and_adds() {
    let tree: SegTree<(Sum<i64>, Sum<i64>), Add> = SegTree::build(8, |i| (Sum(i as i64), Sum(1)));
    assert_eq!(tree.size(), 8);
    assert_eq!(tree.query(0..8).0 .0, 28);
    assert_eq!(tree.query(2..5).0 .0, 9);

    // both ends are included: elements 1 to 7 each gain 10
    let updated = tree.apply(1..7, Add(10));
    assert_eq!(updated.query(0..8).0 .0, 98);
    assert_eq!(updated.query(2..5).0 .0, 39);
    assert_eq!(tree.query(0..8).0 .0, 28);
    assert_eq!(SegTree::<(Sum<i64>, Sum<i64>), Add>::build(0, |i| (Sum(i as i64), Sum(1))).size(), 0);
}

#[test]
fn plain_seg_tree_matches_a_plain_vector() {
    let len = 11;
    let mut tree: SegTree<(Sum<i64>, Sum<i64>), Add> =
        SegTree::build(len, |i| (Sum(100 - (i * i) as i64), Sum(1)));
    let mut values: Vec<i64> = (0..len).map(|i| 100 - (i * i) as i64).collect();
    for &(start, end, k) in [(3, 9, -4), (0, 11, 6), (10, 11, 1), (5, 2, 9), (1, 50, -2)].iter() {
        tree = tree.apply(start..end, Add(k));
        for i in start.min(len)..(end + 1).min(len) {
            values[i] += k;
        }
        for lo in 0..=len {
            for hi in lo..=len + 1 {
                assert_eq!(tree.query(lo..hi).0 .0, naive(&values, lo..hi));
            }
        }
    }
}
