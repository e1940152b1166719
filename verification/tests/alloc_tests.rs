use nk::addr::Paddr;
use nk::bsa::{self, FreeArea, Zone};
use nk::kdm;
use nk::pfm::{Page, PageFlags, PageFrame, Pfm};
use nk::pmr::{Kind, Region};

fn setup() -> (Pfm, Vec<Region>) {
    let map = vec![Region { base: 0, len: 0x80_0000, kind: Kind::USABLE }];
    let k = kdm::init(0xffff_8000_0000_0000, &map);
    let pfm = Pfm { sections: vec![Some(vec![Page::default(); 4096])], kdm: k };
    (pfm, map)
}

#[test]
fn zones_by_frame_number() {
    assert_eq!(Zone::from_pfn(0).index(), 0);
    assert_eq!(bsa::log2_ceil(1), 0);
    assert_eq!(bsa::log2_ceil(3), 2);
    assert_eq!(bsa::log2_ceil(1024), 10);
}

#[test]
fn frame_records_reflect_their_flags() {
    let (mut pfm, _) = setup();
    let f = PageFrame::new(0x100);
    assert!(f.is_valid(&pfm));
    assert!(!f.is_free(&pfm));
    f.set_flags(&mut pfm, PageFlags(2));
    assert!(f.is_free(&pfm));
    assert!(f.try_alloc(&mut pfm));
    assert!(f.is_allocated(&pfm));
    assert!(!f.try_alloc(&mut pfm));
    assert!(f.try_free(&mut pfm));
    assert_eq!(f.inc_count(&mut pfm), 1);
    assert_eq!(f.dec_count(&mut pfm), 0);
    assert!(!PageFrame::new(0x9000).is_valid(&pfm));
    assert_eq!(PageFrame::from_paddr(Paddr(0x12_3456)).pfn(), 0x123);
}

#[test]
fn buddy_allocator_hands_out_and_takes_back_blocks() {
    let (mut pfm, map) = setup();
    let mut b = bsa::init(&map, (0, 0), &mut pfm, 1);
    let before = b.usage();
    let p = b.allocate(&mut pfm, 0, 4);
    assert!(p.0 != 0);
    assert_eq!(p.0 % 0x4000, 0);
    assert!(p.0 < 0x80_0000);
    b.free(&mut pfm, 0, p);
    let after = b.usage();
    assert_eq!(before[0] + before[1] + before[2], after[0] + after[1] + after[2]);
    assert_eq!(b.allocate(&mut pfm, 0, 0).0, 0);
    assert_eq!(b.allocate(&mut pfm, 0, 4096).0, 0);
}

#[test]
fn free_area_is_a_stack_of_blocks() {
    let (pfm, _) = setup();
    let mut a = FreeArea::new();
    assert!(a.is_empty());
    a.add(&pfm, 0x100);
    a.add(&pfm, 0x200);
    assert_eq!(a.remove(&pfm), Some(0x200));
    a.remove_block(0x100);
    assert!(a.is_empty());
}

#[test]
fn init_fills_the_free_lists_and_marks_the_frames() {
    let map = vec![Region { base: 0, len: 0x80_1000, kind: Kind::USABLE }];
    let k = kdm::init(0xffff_8000_0000_0000, &map);
    let mut pfm = Pfm { sections: vec![Some(vec![Page::default(); 4096])], kdm: k };
    let b = bsa::init(&map, (0x80_0000, 0x80_0800), &mut pfm, 1);
    assert_eq!(b.bounds, vec![(0, 2049), (2049, 2049), (2049, 2049)]);
    assert_eq!(b.areas[9].blocks, vec![0, 512, 1024, 1536]);
    for o in 0..9 {
        assert!(b.areas[o].blocks.is_empty());
    }
    assert_eq!(b.usage(), [2048, 0, 0]);
    let head = nk::pfm::get_page(&pfm, 512).unwrap();
    assert_eq!(head.flags, 2 | 8);
    assert_eq!(head.order, 9);
    assert_eq!(nk::pfm::get_page(&pfm, 513).unwrap().flags, 2);
    assert_eq!(nk::pfm::get_page(&pfm, 2048).unwrap().flags, 1);
}

#[test]
fn allocation_and_freeing_move_exactly_one_block_of_frames() {
    let (mut pfm, map) = setup();
    let mut b = bsa::init(&map, (0, 0), &mut pfm, 1);
    let u0 = b.usage();
    let p = b.allocate(&mut pfm, 0, 3);
    assert!(p.0 != 0);
    let u1 = b.usage();
    assert_eq!(u0[0] - u1[0], 4);
    let q = b.allocate(&mut pfm, 0, 4);
    let u2 = b.usage();
    assert_eq!(u1[0] - u2[0], 4);
    assert!(q.0 != p.0);
    b.free(&mut pfm, 0, q);
    assert_eq!(b.usage()[0], u1[0]);
    assert_eq!(b.pcp_pages[0] % 4, 0);
}
