use solution::data_structure::seg_tree::tags::Add;
use solution::data_structure::seg_tree::SegTree;
use solution::traits::semigroup::Sum;

fn naive(values: &[i64], range: std::ops::Range<usize>) -> i64 {
    let end = range.end.min(values.len());
    let start = range.start.min(end);
    values[start..end].iter().sum()
}

#[test]
fn shared_seg_tree_sums_and_adds() {
    let tree: SegTree<(Sum<i64>, Sum<i64>), Add> = SegTree::build(8, |i| (Sum(i as i64), Sum(1)));
    assert_eq!(tree.size(), 8);
    assert_eq!(tree.query(0..8).0 .0, 28);
    assert_eq!(tree.query(2..5).0 .0, 9);
    assert_eq!(tree.query(5..3).0 .0, 0);
    assert_eq!(tree.query(6..100).0 .0, 13);

    // both ends are included: elements 1 to 7 each gain 10
    let updated = tree.apply(1..7, Add(10));
    assert_eq!(updated.size(), 8);
    assert_eq!(updated.query(0..8).0 .0, 98);
    assert_eq!(updated.query(2..5).0 .0, 39);
    assert_eq!(tree.query(0..8).0 .0, 28);
}

#[test]
fn shared_seg_tree_matches_a_plain_vector() {
    let len = 13;
    let mut tree: SegTree<(Sum<i64>, Sum<i64>), Add> =
        SegTree::build(len, |i| (Sum((3 * i) as i64 - 7), Sum(1)));
    let mut values: Vec<i64> = (0..len).map(|i| (3 * i) as i64 - 7).collect();
    for &(start, end, k) in [(0, 5, 2), (4, 13, -3), (7, 8, 11), (2, 30, 5), (9, 9, 40)].iter() {
        tree = tree.apply(start..end, Add(k));
        for i in start.min(len)..(end + 1).min(len) {
            values[i] += k;
        }
        for lo in 0..=len {
            for hi in lo..=len + 1 {
                assert_eq!(tree.query(lo..hi).0 .0, naive(&values, lo..hi));
                assert_eq!(tree.query(lo..hi).1 .0, (hi.min(len) - lo.min(len)) as i64);
            }
        }
    }
}

#[test]
fn add_wraps_around_on_overflow() {
    let tree: SegTree<(Sum<i64>, Sum<i64>), Add> = SegTree::build(2, |_| (Sum(i64::MAX), Sum(1)));
    let updated = tree.apply(0..0, Add(1));
    assert_eq!(updated.query(0..1).0 .0, i64::MIN);
    assert_eq!(updated.query(0..2).0 .0, -1);
}
