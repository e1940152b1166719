use nk::bsa;
use nk::ema;
use nk::kdm;
use nk::pfm::{Page, Pfm};
use nk::pmr::{Kind, Region};
use nk::soa::{SlabClass, Soa};
use nk::upa::Upa;

#[test]
fn class_for_size_and_alignment() {
    let s = Soa::new();
    assert_eq!(s.find_class(0, 1), Some(0));
    assert_eq!(s.find_class(8, 8), Some(0));
    assert_eq!(s.find_class(9, 8), Some(1));
    assert_eq!(s.find_class(2048, 8), Some(8));
    assert_eq!(s.find_class(2049, 8), None);
    assert_eq!(s.find_class(8, 16), None);
}

#[test]
fn a_fresh_slab_hands_out_its_highest_object_first() {
    let mut c = SlabClass::new(1024);
    assert_eq!(c.obj_per_slab, 3);
    assert_eq!(c.allocate(), None);
    let page = 0x40_0000;
    assert_eq!(c.grow(page), page + 40 + 2 * 1024);
    assert_eq!(c.allocate(), Some(page + 40 + 1024));
    assert_eq!(c.allocate(), Some(page + 40));
    assert_eq!(c.partial.len(), 0);
    assert_eq!(c.full.len(), 1);
    assert_eq!(c.allocate(), None);
}

#[test]
fn freeing_moves_slabs_and_releases_empty_pages() {
    let mut c = SlabClass::new(1024);
    let page = 0x40_0000;
    let a = c.grow(page);
    let b = c.allocate().unwrap();
    let d = c.allocate().unwrap();
    assert_eq!(c.free(b), None);
    assert_eq!(c.partial.len(), 1);
    assert_eq!(c.full.len(), 0);
    assert_eq!(c.allocate(), Some(b));
    assert_eq!(c.free(a), None);
    assert_eq!(c.free(b), None);
    assert_eq!(c.free(d), Some(page));
    assert_eq!(c.partial.len(), 0);
    assert_eq!(c.free(0x90_0000), None);
}

#[test]
fn largest_class_holds_one_object_per_slab() {
    let mut c = SlabClass::new(2048);
    assert_eq!(c.obj_per_slab, 1);
    let a = c.grow(0x8000);
    assert_eq!(a, 0x8000 + 40);
    assert_eq!(c.full.len(), 1);
    assert_eq!(c.free(a), Some(0x8000));
}

#[test]
fn soa_routes_objects_to_their_class() {
    let mut s = Soa::new();
    assert_eq!(s.allocate_in(3), None);
    let p = s.grow(3, 0x10_0000);
    assert_eq!(p, 0x10_0000 + 40 + 62 * 64);
    assert_eq!(s.allocate_in(3), Some(0x10_0000 + 40 + 61 * 64));
    assert_eq!(s.free(0, 64, 8), None);
    assert_eq!(s.free(0x20_0000, 4096, 8), Some(0x20_0000));
    assert_eq!(s.free(p, 64, 8), None);
}

#[test]
fn stats_count_the_slabs_of_each_class() {
    let mut s = Soa::new();
    let st = s.stats();
    assert_eq!(st.len(), 9);
    assert_eq!(st[3], (64, 0, 0, 63));
    s.grow(3, 0x10_0000);
    assert_eq!(s.stats()[3], (64, 1, 0, 63));
    assert_eq!(s.stats()[0].0, 8);
    assert_eq!(s.stats()[8].0, 2048);
}

#[test]
fn a_class_without_free_objects_grows_from_the_page_allocator() {
    let map = vec![Region { base: 0x10_0000, len: 0x2000, kind: Kind::USABLE }];
    let mut e = ema::init(&map);
    let k = kdm::init(0xffff_8000_0000_0000, &map);
    let mut pfm = Pfm { sections: vec![Some(vec![Page::default(); 4096])], kdm: k };
    let mut b = bsa::init(&map, (0, 0), &mut pfm, 1);
    let upa = Upa::new();
    let hhdm = 0xffff_8000_0000_0000;
    let mut s = Soa::new();
    let first = s.allocate_or_grow(3, &upa, &mut e, &mut b, &mut pfm, 0, hhdm);
    assert_eq!(first, Some(hhdm + 0x10_1000 + 40 + 62 * 64));
    assert!(s.is_slab(3, hhdm + 0x10_1000));
    assert_eq!(s.allocate_or_grow(3, &upa, &mut e, &mut b, &mut pfm, 0, hhdm), Some(hhdm + 0x10_1000 + 40 + 61 * 64));
    let mut t = Soa::new();
    assert_eq!(t.allocate_or_grow(8, &upa, &mut e, &mut b, &mut pfm, 0, hhdm), Some(hhdm + 0x10_0000 + 40));
    assert_eq!(t.allocate_or_grow(8, &upa, &mut e, &mut b, &mut pfm, 0, hhdm), None);
    assert_eq!(t.stats()[8], (2048, 0, 1, 1));
}
