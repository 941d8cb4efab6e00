use solution::data_structure::seg_tree::colors::{ByteMap, Mask};
use solution::data_structure::seg_tree::tree::Applier;
use solution::traits::monoid::Monoid;
use solution::traits::semigroup::Semigroup;

fn set(colors: &[u32]) -> Mask {
    Mask(colors.iter().fold(0u128, |m, &c| m | (1u128 << c)))
}

#[test]
fn replacing_a_color_recolors_a_set() {
    let map = ByteMap::replace(2, 7);
    assert_eq!(map.apply_to_mask(set(&[1, 2, 5])), set(&[1, 5, 7]));
    assert_eq!(map.apply_to_mask(set(&[2, 7])), set(&[7]));
    assert_eq!(map.apply_to_mask(set(&[])), set(&[]));
    assert_eq!(ByteMap::identity().apply_to_mask(set(&[0, 64, 127])), set(&[0, 64, 127]));
}

#[test]
fn merging_maps_applies_the_right_one_first() {
    let first = ByteMap::replace(2, 7);
    let then = ByteMap::replace(7, 6);
    let both = then.clone().merge(first.clone());
    assert_eq!(both.apply_to_mask(set(&[2, 3])), set(&[3, 6]));
    let other_order = first.clone().merge(then.clone());
    assert_eq!(other_order.apply_to_mask(set(&[2, 3])), set(&[3, 7]));

    let mut prepended = first.clone();
    prepended.prepend_assign(&then);
    assert_eq!(prepended.apply_to_mask(set(&[2, 7, 9])), set(&[6, 9]));
}

#[test]
fn pairs_chain_and_identity_is_empty() {
    let mut map = ByteMap::identity();
    assert!(map.is_empty());
    map.apply_pair(4, 4);
    assert!(map.is_empty());
    map.apply_pair(4, 5);
    assert!(!map.is_empty());
    map.apply_pair(5, 6);
    assert_eq!(map.apply_to_mask(set(&[4, 5])), set(&[6]));
    assert!(ByteMap::empty().is_empty());
}

#[test]
fn affects_only_when_a_color_of_the_range_moves() {
    let map = ByteMap::replace(2, 7);
    assert!(map.affects(&set(&[1, 2])));
    assert!(!map.affects(&set(&[1, 3, 7])));
    assert!(!ByteMap::identity().affects(&set(&[2])));

    let mut values = vec![set(&[2]), set(&[3]), set(&[2, 4])];
    map.apply_slice(&mut values);
    assert_eq!(values, vec![set(&[7]), set(&[3]), set(&[4, 7])]);
}

#[test]
fn masks_merge_by_union() {
    assert_eq!(set(&[1]).merge(set(&[5])), set(&[1, 5]));
    let mut m = set(&[0]);
    m.merge_assign(&set(&[127]));
    assert_eq!(m, set(&[0, 127]));
    assert_eq!(Mask::empty(), set(&[]));
}

#[test]
fn wrapped_and_paired_modifiers_prune_like_their_parts() {
    let moving = ByteMap::replace(2, 7);
    let none: Option<ByteMap> = None;
    assert!(!none.affects(&set(&[2])));
    assert!(Some(moving.clone()).affects(&set(&[2])));
    assert!(!Some(moving.clone()).affects(&set(&[3])));

    let pair = (moving.clone(), ByteMap::identity());
    assert!(pair.affects(&(set(&[2]), set(&[2]))));
    assert!(!pair.affects(&(set(&[3]), set(&[2]))));
    let swapped = (ByteMap::identity(), moving);
    assert!(swapped.affects(&(set(&[3]), set(&[2]))));
}

#[test]
fn a_pair_is_empty_only_when_both_parts_are() {
    assert!((ByteMap::identity(), ByteMap::identity()).is_empty());
    assert!(!(ByteMap::replace(1, 2), ByteMap::identity()).is_empty());
    assert!(!(ByteMap::identity(), ByteMap::replace(1, 2)).is_empty());
    assert!(Some(ByteMap::identity()).is_empty() == false);
    assert!(None::<ByteMap>.is_empty());
    assert!(!Mask(0).is_empty());
}
