use nk::vma::{VmaFlags, VmaTree, Vmm, MAX_CANONICAL_ADDR};

#[test]
fn empty_tree_finds_no_area() {
    let mut v = Vmm::new();
    assert_eq!(v.allocate(0x1000, 0x1000, VmaFlags(VmaFlags::READ), 0), None);
    assert_eq!(v.tree.cached_hint, 0x1000_0000_0000);
}

#[test]
fn allocation_follows_the_hint_and_is_found() {
    let mut v = Vmm::new();
    v.tree.insert(nk::vma::VmaNode::new(0x1000, 0x2000, VmaFlags(VmaFlags::READ)));
    let a = v.allocate(0x3000, 0x1000, VmaFlags(VmaFlags::READ | VmaFlags::WRITE), 0x10_0000).unwrap();
    assert_eq!(a, 0x10_0000);
    assert_eq!(v.tree.cached_hint, 0x10_3000);
    let n = v.find_overlap(0x10_2fff).unwrap();
    assert_eq!((n.start, n.end), (0x10_0000, 0x10_3000));
    assert!(v.find_overlap(0x10_3000).is_none());
    v.free(0x10_0000);
    assert!(v.find_overlap(0x10_0000).is_none());
}

#[test]
fn first_gap_that_fits_is_used() {
    let mut t = VmaTree::new();
    t.insert(nk::vma::VmaNode::new(0x1000, 0x2000, VmaFlags(0)));
    t.insert(nk::vma::VmaNode::new(0x5000, 0x6000, VmaFlags(0)));
    assert_eq!(t.get_unmapped_area(0x1000, 0x1000, 0), Some(0));
    assert_eq!(t.get_unmapped_area(0x2000, 0x1000, 0), Some(0x2000));
    assert_eq!(t.get_unmapped_area(0x4000, 0x1000, 0), Some(0x6000));
    assert_eq!(t.get_unmapped_area(0x1800, 0x1000, 0x2800), Some(0x3000));
    assert_eq!(t.get_unmapped_area(0, 0x1000, 0), None);
    assert_eq!(t.get_unmapped_area(MAX_CANONICAL_ADDR, 0x1000, 0), None);
}

#[test]
fn fixed_area_goes_where_asked() {
    let mut v = Vmm::new();
    v.tree.insert(nk::vma::VmaNode::new(0, 0x2000, VmaFlags(0)));
    let a = v.allocate(0x1000, 0x1000, VmaFlags(VmaFlags::FIXED), 0x40_0000).unwrap();
    assert_eq!(a, 0x40_0000);
    assert!(VmaFlags(VmaFlags::FIXED | VmaFlags::READ).contains(VmaFlags::FIXED));
}
