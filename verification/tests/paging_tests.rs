use nk::addr::Paddr;
use nk::paging::entry::{Entry, EntryFlags};
use nk::paging::exco::Exco;
use nk::paging::polen::{Polen, PageSize, select_page_size};
use nk::paging::table::{PtError, PtMem};
use nk::pmr::{Kind, Region};

const RW: u64 = 0x3;

fn fresh() -> Exco {
    Exco::new(PtMem::new(0x10_0000))
}

#[test]
fn new_hierarchy_maps_nothing() {
    let p = Polen::from_exco(fresh());
    assert!(p.query(0).is_none());
    assert!(p.query(0x4000_0000).is_none());
    assert!(p.report(16).is_empty());
}

#[test]
fn map4k_then_query_gives_the_page() {
    let mut x = fresh();
    x.try_map4k(0x40_0000, Paddr(0x20_0000), EntryFlags(RW)).unwrap();
    let p = Polen::from_exco(x);
    let (pa, fl) = p.query(0x40_0123).unwrap();
    assert_eq!(pa.0, 0x20_0123);
    assert_eq!(fl.0 & RW, RW);
    assert!(p.query(0x40_1000).is_none());
}

#[test]
fn map4k_misaligned_is_refused() {
    let mut x = fresh();
    assert_eq!(x.try_map4k(0x40_0001, Paddr(0x20_0000), EntryFlags(RW)), Err(PtError::Misaligned4K));
}

#[test]
fn map2m_and_split_keep_translation() {
    let mut x = fresh();
    x.try_map2m(0x20_0000, Paddr(0x40_0000), EntryFlags(RW)).unwrap();
    x.try_split2m(0x20_0000).unwrap();
    let p = Polen::from_exco(x);
    let (pa, _) = p.query(0x20_5008).unwrap();
    assert_eq!(pa.0, 0x40_5008);
}

#[test]
fn map2m_misaligned_phys_is_refused() {
    let mut x = fresh();
    assert_eq!(x.try_map2m(0x20_0000, Paddr(0x1000), EntryFlags(RW)), Err(PtError::PhysMisaligned2M));
}

#[test]
fn unmap_removes_the_page() {
    let mut x = fresh();
    x.try_map4k(0x40_0000, Paddr(0x20_0000), EntryFlags(RW)).unwrap();
    x.try_unmap(0x40_0000).unwrap();
    let p = Polen::from_exco(x);
    assert!(p.query(0x40_0000).is_none());
}

#[test]
fn unmap_of_unmapped_address_fails() {
    let mut x = fresh();
    assert!(x.try_unmap(0x40_0000).is_err());
}

#[test]
fn dup_keeps_every_mapping() {
    let mut x = fresh();
    x.try_map4k(0x40_0000, Paddr(0x20_0000), EntryFlags(RW)).unwrap();
    let d = Polen::from_exco(x.dup());
    assert_eq!(d.query(0x40_0010).unwrap().0 .0, 0x20_0010);
}

#[test]
fn clean_unmaps_everything() {
    let mut x = fresh();
    x.try_map4k(0x40_0000, Paddr(0x20_0000), EntryFlags(RW)).unwrap();
    x.try_map2m(0x80_0000, Paddr(0x60_0000), EntryFlags(RW)).unwrap();
    x.clean();
    let p = Polen::from_exco(x);
    assert!(p.query(0x40_0000).is_none());
    assert!(p.query(0x80_0000).is_none());
}

#[test]
fn try_map_rejects_misaligned_and_empty_ranges() {
    let map = [Region { base: 0, len: 0x1000_0000, kind: Kind::USABLE }];
    let mut p = Polen::from_exco(fresh());
    assert_eq!(p.try_map(0x1001, Paddr(0), 0x1000, EntryFlags(RW), &map), Err(PtError::MisalignedVaddr));
    assert_eq!(p.try_map(0x1000, Paddr(0), 0, EntryFlags(RW), &map), Err(PtError::ZeroSize));
}

#[test]
fn try_map_maps_a_range_page_by_page() {
    let map = [Region { base: 0, len: 0x1000_0000, kind: Kind::USABLE }];
    let mut p = Polen::from_exco(fresh());
    p.try_map(0x1f_e000, Paddr(0x30_0000), 0x20_4000, EntryFlags(RW), &map).unwrap();
    for off in [0u64, 0x1000, 0x2000, 0x10_0000, 0x20_0000, 0x20_3000] {
        let (pa, _) = p.query(0x1f_e000 + off).unwrap();
        assert_eq!(pa.0 as u64, 0x30_0000 + off);
    }
    assert!(p.query(0x1f_e000 + 0x20_4000).is_none());
}

#[test]
fn select_page_size_prefers_large_aligned_pages() {
    let map = [Region { base: 0, len: 0x1_0000_0000, kind: Kind::USABLE }];
    assert_eq!(select_page_size(&map, 0x4000_0000, Paddr(0x4000_0000), 0x4000_0000), PageSize::Size1G);
    assert_eq!(select_page_size(&map, 0x20_0000, Paddr(0x20_0000), 0x20_0000), PageSize::Size2M);
    assert_eq!(select_page_size(&map, 0x1000, Paddr(0x1000), 0x20_0000), PageSize::Size4K);
}

#[test]
fn report_merges_contiguous_pages_of_equal_flags() {
    let mut x = fresh();
    x.try_map4k(0x40_0000, Paddr(0x20_0000), EntryFlags(RW)).unwrap();
    x.try_map4k(0x40_1000, Paddr(0x90_0000), EntryFlags(RW)).unwrap();
    x.try_map4k(0x40_3000, Paddr(0x20_2000), EntryFlags(RW)).unwrap();
    let areas = x.report(8);
    assert_eq!(areas.len(), 2);
    assert_eq!((areas[0].start, areas[0].count), (0x40_0000, 2));
    assert_eq!((areas[1].start, areas[1].count), (0x40_3000, 1));
    assert_eq!(x.try_report(2).unwrap_err(), PtError::ReportFull);
    assert_eq!(x.try_report(3).unwrap().len(), 2);
}

#[test]
fn report_counts_a_huge_page() {
    let mut x = fresh();
    x.try_map2m(0x20_0000, Paddr(0x40_0000), EntryFlags(RW)).unwrap();
    let areas = x.report(8);
    assert_eq!(areas.len(), 1);
    assert_eq!((areas[0].start, areas[0].count), (0x20_0000, 512));
}

#[test]
fn entry_keeps_address_and_flags() {
    let e = Entry::new(Paddr(0x12_3000), EntryFlags(RW));
    assert_eq!(e.address().0, 0x12_3000);
    assert!(e.is_present());
    assert!(e.is_writable());
    assert!(e.is_executable());
    assert_eq!(PtError::ReportFull.message(), "report: Vec capacity exhausted - some areas may be missing");
}

#[test]
fn remap_changes_flags_and_keeps_addresses() {
    let mut x = fresh();
    x.try_map2m(0x20_0000, Paddr(0x40_0000), EntryFlags(RW)).unwrap();
    let mut p = Polen::from_exco(x);
    p.try_remap(0x20_3000, 0x2000, EntryFlags(0x8000_0000_0000_0004)).unwrap();
    for off in [0x3000u64, 0x3ff8, 0x4000, 0x4abc] {
        let (pa, fl) = p.query(0x20_0000 + off).unwrap();
        assert_eq!(pa.0 as u64, 0x40_0000 + off);
        assert_eq!(fl.0, 0x8000_0000_0000_0005);
    }
    for off in [0u64, 0x2fff, 0x5000, 0x1f_ffff] {
        let (pa, fl) = p.query(0x20_0000 + off).unwrap();
        assert_eq!(pa.0 as u64, 0x40_0000 + off);
        assert_eq!(fl.0 & RW, RW);
    }
}

#[test]
fn remap_of_an_unmapped_page_fails() {
    let mut p = Polen::from_exco(fresh());
    assert_eq!(p.try_remap(0x1000, 0x1000, EntryFlags(RW)), Err(PtError::Pml4NotPresent));
    p.exco.try_map4k(0x2000, Paddr(0x5000), EntryFlags(RW)).unwrap();
    assert_eq!(p.try_remap(0x1000, 0x1000, EntryFlags(RW)), Err(PtError::PtNotPresent));
    assert_eq!(p.try_remap(0x1001, 0x1000, EntryFlags(RW)), Err(PtError::BadRemapRange));
    assert_eq!(p.try_remap(0x1000, 0, EntryFlags(RW)), Err(PtError::BadRemapRange));
}

#[test]
fn merge_range_joins_contiguous_pages_and_keeps_addresses() {
    let mut x = fresh();
    for i in 0..512u64 {
        x.try_map4k(0x20_0000 + i * 0x1000, Paddr((0x60_0000 + i * 0x1000) as usize), EntryFlags(RW)).unwrap();
    }
    x.try_map4k(0x40_0000, Paddr(0x90_0000), EntryFlags(RW)).unwrap();
    let mut p = Polen::from_exco(x);
    p.merge_range(0x20_0000, 0x20_1000);
    for off in [0u64, 0x1234, 0x1f_ffff] {
        assert_eq!(p.query(0x20_0000 + off).unwrap().0 .0 as u64, 0x60_0000 + off);
    }
    assert_eq!(p.query(0x40_0000).unwrap().0 .0, 0x90_0000);
    let r = p.report(16);
    assert_eq!(r.len(), 2);
    assert_eq!(r[0].start, 0x20_0000);
}

#[test]
fn unmap_inside_a_huge_page_removes_only_the_range() {
    let mut x = fresh();
    x.try_map2m(0x20_0000, Paddr(0x40_0000), EntryFlags(RW)).unwrap();
    x.try_map4k(0x60_0000, Paddr(0x90_0000), EntryFlags(RW)).unwrap();
    let mut p = Polen::from_exco(x);
    p.try_unmap(0x20_3000, 0x1800).unwrap();
    assert!(p.query(0x20_3000).is_none());
    assert!(p.query(0x20_4fff).is_none());
    for off in [0u64, 0x2fff, 0x5000, 0x1f_ffff] {
        assert_eq!(p.query(0x20_0000 + off).unwrap().0 .0 as u64, 0x40_0000 + off);
    }
    assert_eq!(p.query(0x60_0000).unwrap().0 .0, 0x90_0000);
}

#[test]
fn map_4k_block_maps_an_unblocked_page() {
    let mut p = Polen::from_exco(fresh());
    assert_eq!(p.map_4k_block(0x30_2000, Paddr(0x7000), EntryFlags(RW)), Ok(()));
    assert_eq!(p.query(0x30_2abc).unwrap().0 .0, 0x7abc);
    assert!(p.map_4k_block(0x30_2001, Paddr(0x7000), EntryFlags(RW)).is_err());
}

#[test]
fn map_4k_block_splits_a_huge_page_in_the_way() {
    let mut x = fresh();
    x.try_map2m(0x20_0000, Paddr(0x40_0000), EntryFlags(RW)).unwrap();
    let mut p = Polen::from_exco(x);
    assert_eq!(p.map_4k_block(0x20_5000, Paddr(0x9000), EntryFlags(RW)), Ok(()));
    assert_eq!(p.query(0x20_5000).unwrap().0 .0, 0x9000);
    assert_eq!(p.query(0x20_4000).unwrap().0 .0, 0x40_4000);
}

#[test]
fn unmap_of_small_pages_clears_the_range_and_keeps_the_rest() {
    let mut x = fresh();
    for i in 0..4u64 {
        x.try_map4k(0x10_0000 + i * 0x1000, Paddr((0x80_0000 + i * 0x1000) as usize), EntryFlags(RW)).unwrap();
    }
    let mut p = Polen::from_exco(x);
    p.unmap(0x10_1000, 0x2000);
    assert!(p.query(0x10_1000).is_none());
    assert!(p.query(0x10_2fff).is_none());
    assert_eq!(p.query(0x10_0000).unwrap().0 .0, 0x80_0000);
    assert_eq!(p.query(0x10_3000).unwrap().0 .0, 0x80_3000);
}

#[test]
fn remap_gives_new_flags_and_keeps_addresses() {
    let mut x = fresh();
    x.try_map4k(0x10_0000, Paddr(0x80_0000), EntryFlags(RW)).unwrap();
    x.try_map4k(0x10_1000, Paddr(0x90_0000), EntryFlags(RW)).unwrap();
    let mut p = Polen::from_exco(x);
    p.remap(0x10_0000, 0x2000, EntryFlags(0x1));
    let (pa, fl) = p.query(0x10_1004).unwrap();
    assert_eq!(pa.0, 0x90_0004);
    assert_eq!(fl.0 & RW, 0x1);
}

#[test]
fn each_range_check_has_its_own_message() {
    let mut p = Polen::from_exco(fresh());
    assert_eq!(p.try_unmap(0x1001, 0x1000), Err(PtError::BadUnmapRange));
    assert_eq!(p.try_unmap(0x1000, 0), Err(PtError::BadUnmapRange));
    assert_eq!(PtError::MisalignedVaddr.message(), "misaligned virtual address");
    assert_eq!(PtError::BadRemapRange.message(), "misaligned or zero-size remap");
    assert_eq!(PtError::BadUnmapRange.message(), "misaligned or zero-size unmap");
    assert_eq!(PtError::ZeroSize.message(), "zero-size mapping");
}

#[test]
fn try_map_into_an_empty_hierarchy_succeeds() {
    let mut p = Polen::from_exco(fresh());
    let map = vec![Region { base: 0, len: 0x100_0000, kind: Kind::USABLE }];
    assert_eq!(p.try_map(0x1000, Paddr(0x5000), 0x1000, EntryFlags(0x2), &map), Ok(()));
    let (pa, fl) = p.query(0x1000).unwrap();
    assert_eq!(pa.0, 0x5000);
    assert_eq!(fl.0, 0x3);
    assert_eq!(p.query(0x1abc).unwrap().0 .0, 0x5abc);
    assert!(p.query(0x2000).is_none());
    assert!(p.query(0).is_none());
}

#[test]
fn unmapping_a_whole_huge_page_clears_all_its_pages() {
    let mut x = fresh();
    x.try_map2m(0x20_0000, Paddr(0x40_0000), EntryFlags(RW)).unwrap();
    x.try_map4k(0x40_0000, Paddr(0x90_0000), EntryFlags(RW)).unwrap();
    let mut p = Polen::from_exco(x);
    assert_eq!(p.try_unmap(0x20_0000, 0x20_1000), Ok(()));
    for off in [0u64, 0x1000, 0x1f_f000, 0x20_0000] {
        assert!(p.query(0x20_0000 + off).is_none());
    }
    assert_eq!(p.try_unmap(0x20_0000, 0x1000), Err(PtError::NotMapped));
}

#[test]
fn merge_range_leaves_blocks_outside_the_range_split() {
    let mut x = fresh();
    for i in 0..512u64 {
        x.try_map4k(0x40_0000 + i * 0x1000, Paddr((0x60_0000 + i * 0x1000) as usize), EntryFlags(RW)).unwrap();
    }
    let mut p = Polen::from_exco(x);
    p.merge_range(0x20_0000, 0x20_0000);
    assert_eq!(p.report(16).len(), 1);
    assert_eq!(p.query(0x40_1000).unwrap().0 .0, 0x60_1000);
    p.merge_range(0x40_0000, 0x20_0000);
    assert_eq!(p.query(0x40_1000).unwrap().0 .0, 0x60_1000);
}

#[test]
fn new_hierarchy_has_an_empty_root_at_cr3() {
    let p = Polen::new(PtMem::new(0x10_0000));
    assert!(p.exco.owned);
    assert_eq!(p.exco.root, 0);
    for j in 0..512 {
        assert_eq!(p.exco.mem.read(p.exco.root, j).0, 0);
    }
    assert!(p.query(0x1000).is_none());
}

#[test]
fn merge_range_leaves_a_block_that_passes_its_end_split() {
    let mut x = fresh();
    for i in 0..512u64 {
        x.try_map4k(0x40_0000 + i * 0x1000, Paddr((0x60_0000 + i * 0x1000) as usize), EntryFlags(RW)).unwrap();
    }
    let mut p = Polen::from_exco(x);
    p.merge_range(0x20_0000, 0x20_1000);
    let (pa, fl) = p.query(0x40_1000).unwrap();
    assert_eq!(pa.0, 0x60_1000);
    assert_eq!(fl.0 & 0x80, 0);
    p.merge_range(0x40_0000, 0x20_0000);
    let (pa, fl) = p.query(0x40_1000).unwrap();
    assert_eq!(pa.0, 0x60_1000);
    assert_eq!(fl.0 & 0x80, 0x80);
}

#[test]
fn try_map_gives_huge_leaves_the_huge_bit_and_rounds_the_size_up() {
    let map = [Region { base: 0, len: 0x1000_0000, kind: Kind::USABLE }];
    let mut p = Polen::from_exco(fresh());
    p.try_map(0x20_0000, Paddr(0x40_0000), 0x20_0001, EntryFlags(RW), &map).unwrap();
    assert_eq!(p.query(0x20_0000).unwrap().1 .0, 0x83);
    assert_eq!(p.query(0x40_0fff).unwrap().0 .0, 0x60_0fff);
    assert_eq!(p.query(0x40_0000).unwrap().1 .0, 0x3);
    assert!(p.query(0x40_1000).is_none());
}

#[test]
fn split_then_merge_restores_the_huge_page_and_hands_back_the_table() {
    let mut x = fresh();
    x.try_map2m(0x20_0000, Paddr(0x40_0000), EntryFlags(RW)).unwrap();
    x.try_split2m(0x20_0000).unwrap();
    let tables = x.mem.tabs.len();
    assert_eq!(x.mem.released.len(), 0);
    x.try_merge2m(0x20_0000).unwrap();
    assert_eq!(x.mem.released, vec![tables - 1]);
    let p = Polen::from_exco(x);
    let (pa, fl) = p.query(0x20_5008).unwrap();
    assert_eq!(pa.0, 0x40_5008);
    assert_eq!(fl.0 & 0x80, 0x80);
}
