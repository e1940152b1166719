use nk::addr::Paddr;
use nk::paging::entry::{EntryFlags, COPY_ON_WRITE, PRESENT, USER_ACCESSIBLE, WRITABLE};
use nk::paging::exco::Exco;
use nk::paging::polen::Polen;
use nk::paging::table::PtMem;
use nk::sched::fault::{decide_fault, handle_page_fault, resolve_fault, FaultAction};
use nk::vma::{VmaFlags, VmaNode, Vmm};

const RW: u64 = PRESENT | WRITABLE;

fn space() -> Polen {
    Polen::from_exco(Exco::new(PtMem::new(0x10_0000)))
}

fn areas() -> Vmm {
    let mut v = Vmm::new();
    v.tree.insert(VmaNode::new(0x40_0000, 0x50_0000, VmaFlags(VmaFlags::READ | VmaFlags::WRITE)));
    v.tree.insert(VmaNode::new(0x60_0000, 0x70_0000, VmaFlags(VmaFlags::READ)));
    v
}

#[test]
fn missing_page_in_a_writable_area_is_mapped_on_demand() {
    let p = space();
    let v = areas();
    let a = handle_page_fault(&p, &v, 0x40_1234, 0x2);
    assert_eq!(a, FaultAction::DemandPage { page: 0x40_1000, flags: EntryFlags(PRESENT | USER_ACCESSIBLE | WRITABLE) });
}

#[test]
fn read_of_a_missing_page_in_a_read_only_area_maps_it_read_only() {
    let p = space();
    let v = areas();
    let a = handle_page_fault(&p, &v, 0x60_0010, 0x0);
    assert_eq!(a, FaultAction::DemandPage { page: 0x60_0000, flags: EntryFlags(PRESENT | USER_ACCESSIBLE) });
}

#[test]
fn write_to_a_read_only_area_is_a_segfault() {
    let p = space();
    let v = areas();
    assert_eq!(handle_page_fault(&p, &v, 0x60_0010, 0x2), FaultAction::Segfault);
}

#[test]
fn fault_outside_every_area_is_a_segfault() {
    let p = space();
    let v = areas();
    assert_eq!(handle_page_fault(&p, &v, 0x80_0000, 0x0), FaultAction::Segfault);
}

#[test]
fn write_to_a_present_page_that_is_not_shared_is_a_segfault() {
    let mut p = space();
    p.exco.try_map4k(0x40_0000, Paddr(0x20_0000), EntryFlags(RW)).unwrap();
    let v = areas();
    assert_eq!(handle_page_fault(&p, &v, 0x40_0008, 0x3), FaultAction::Segfault);
}

#[test]
fn marking_copy_on_write_then_writing_copies_the_page() {
    let mut p = space();
    p.exco.try_map4k(0x40_0000, Paddr(0x20_0000), EntryFlags(RW)).unwrap();
    p.exco.try_map4k(0xffff_8000_0000_0000, Paddr(0x21_0000), EntryFlags(RW)).unwrap();
    p.mark_user_cow();
    let (pa, fl) = p.query(0x40_0000).unwrap();
    assert_eq!(pa.0, 0x20_0000);
    assert_eq!(fl.0 & WRITABLE, 0);
    assert_eq!(fl.0 & COPY_ON_WRITE, COPY_ON_WRITE);
    let (_, kfl) = p.query(0xffff_8000_0000_0000).unwrap();
    assert_eq!(kfl.0 & (WRITABLE | COPY_ON_WRITE), WRITABLE);

    let v = areas();
    let a = handle_page_fault(&p, &v, 0x40_0008, 0x3);
    assert_eq!(a, FaultAction::CopyOnWrite { page: 0x40_0000, source: Paddr(0x20_0000), flags: EntryFlags((fl.0 & !COPY_ON_WRITE) | WRITABLE) });
    resolve_fault(&mut p, a, Paddr(0x30_0000)).unwrap();
    let (pa, fl) = p.query(0x40_0008).unwrap();
    assert_eq!(pa.0, 0x30_0008);
    assert_eq!(fl.0 & (WRITABLE | COPY_ON_WRITE), WRITABLE);
}

#[test]
fn demand_page_is_mapped_at_the_fresh_page() {
    let mut p = space();
    let a = decide_fault(0x40_1234, 0x2, None, Some(VmaNode::new(0x40_0000, 0x50_0000, VmaFlags(VmaFlags::WRITE))));
    resolve_fault(&mut p, a, Paddr(0x33_0000)).unwrap();
    assert_eq!(p.query(0x40_1234).unwrap().0 .0, 0x33_0234);
}

#[test]
fn segfault_changes_nothing() {
    let mut p = space();
    resolve_fault(&mut p, FaultAction::Segfault, Paddr(0x33_0000)).unwrap();
    assert!(p.query(0).is_none());
}
