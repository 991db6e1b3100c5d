use std::cell::RefCell;
use stormcell::topology::{Topology, Topology2d, Topology3d};

#[test]
fn linear_indices_are_inverted() {
    let size = [3, 4, 5];
    for index in 0..60 {
        let coord = Topology3d::from_linear_index(index, size);
        assert_eq!(Topology3d::linear_index(coord, size), index);
    }
    assert_eq!(Topology3d::from_linear_index(37, size), [1, 0, 3]);
    assert_eq!(Topology3d::linear_index([2, 3, 4], size), 59);
    assert_eq!(Topology2d::linear_index([1, 2], [8, 12]), 17);
    assert_eq!(Topology2d::from_linear_index(17, [8, 12]), [1, 2]);
}

#[test]
fn child_slots_and_offsets_agree() {
    for slot in 0..Topology3d::CHILDREN {
        let offset = Topology3d::child_offset(slot);
        let local = Topology3d::map(offset, |bit| bit * 4 + 3);
        assert_eq!(Topology3d::child_index(local, 4), slot);
    }
    assert_eq!(Topology3d::child_offset(6), [0, 1, 1]);
    assert_eq!(Topology2d::child_offset(2), [0, 1]);
    assert_eq!(Topology2d::child_index([5, 1], 4), 1);
}

#[test]
fn coordinates_are_built_per_axis() {
    assert_eq!(Topology3d::DIMENSIONS, 3);
    assert_eq!(Topology2d::DIMENSIONS, 2);
    assert_eq!(Topology3d::CHILDREN, 8);
    assert_eq!(Topology3d::splat(7), [7, 7, 7]);
    assert_eq!(Topology2d::from_axes(|axis| axis + 1), [1, 2]);
    assert_eq!(Topology3d::map([1, 2, 3], |value| value * 10), [10, 20, 30]);
    assert_eq!(Topology3d::axis([4, 5, 6], 2), 6);
}

#[test]
fn volumes_are_products() {
    assert_eq!(Topology3d::volume([2, 3, 4]), 24);
    assert_eq!(Topology3d::volume([2, 0, 4]), 0);
    assert_eq!(Topology2d::cell_volume(5), 25);
    assert_eq!(Topology3d::cell_volume(4), 64);
}

#[test]
fn overlaps_are_half_open() {
    let region = [2, 2]..[4, 4];
    assert!(Topology2d::overlaps(&region, [0, 0], 3));
    assert!(!Topology2d::overlaps(&region, [0, 0], 2));
    assert!(!Topology2d::overlaps(&region, [4, 2], 2));
    assert_eq!(Topology2d::overlap_volume(&region, [0, 0], 3), 1);
    assert_eq!(Topology2d::overlap_volume(&region, [3, 1], 8), 2);
    assert_eq!(Topology2d::overlap_volume(&region, [0, 0], 2), 0);
}

#[test]
fn boxes_without_points_overlap_nothing() {
    assert!(!Topology2d::overlaps(&([1, 1]..[1, 1]), [0, 0], 2));
    assert_eq!(Topology2d::overlap_volume(&([1, 1]..[1, 1]), [0, 0], 2), 0);
    assert!(!Topology2d::overlaps(&([3, 0]..[1, 2]), [0, 0], 4));
    assert!(!Topology2d::overlaps(&([0, 0]..[4, 4]), [1, 1], 0));
    assert!(Topology2d::overlaps(&([0, 0]..[4, 4]), [1, 1], 1));
}

#[test]
fn boxes_at_the_end_of_the_range_overlap() {
    let top = usize::MAX;
    let region = [top - 2, 0]..[top, 1];
    assert!(Topology2d::overlaps(&region, [top - 1, 0], 4));
    assert_eq!(Topology2d::overlap_volume(&region, [top - 1, 0], 4), 1);
}

#[test]
fn coordinates_are_visited_in_row_major_order() {
    let seen = RefCell::new(Vec::new());
    Topology2d::for_each_coord(&([1, 5]..[3, 7]), |coord| seen.borrow_mut().push(coord));
    assert_eq!(*seen.borrow(), [[1, 5], [2, 5], [1, 6], [2, 6]]);
    seen.borrow_mut().clear();
    Topology2d::for_each_coord(&([1, 5]..[3, 5]), |coord| seen.borrow_mut().push(coord));
    Topology2d::for_each_coord(&([3, 5]..[1, 7]), |coord| seen.borrow_mut().push(coord));
    assert!(seen.borrow().is_empty());
}

#[test]
fn children_keep_their_slots() {
    let mut arena = stormcell::allocator::Allocator::<usize>::new(3, 1);
    let addresses: Vec<_> = (0..8).map(|value| arena.push(value)).collect();
    let children = Topology3d::children_from_fn(|slot| addresses[slot]);
    assert_eq!(Topology3d::children_as_slice(&children), addresses.as_slice());
}
