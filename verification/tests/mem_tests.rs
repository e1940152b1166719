use nk::addr::{Paddr, Vaddr};
use nk::dev::{self, Device, DeviceId, DeviceResult, DeviceStatus, Registry};
use nk::ema::{self, EarlyMemAlloc};
use nk::kdm;
use nk::pmr::{self, Kind, Region};

fn map() -> Vec<Region> {
    vec![
        Region { base: 0x0, len: 0x9_f000, kind: Kind::USABLE },
        Region { base: 0x9_f000, len: 0x1000, kind: Kind::RESERVED },
        Region { base: 0x10_0000, len: 0x70_0000, kind: Kind::USABLE },
        Region { base: 0xfee0_0000, len: 0x1000, kind: Kind::BAD },
    ]
}

#[test]
fn kind_round_trips_through_its_number() {
    for raw in 0u64..12 {
        assert_eq!(Kind::from_raw(raw).to_raw(), raw);
    }
    assert_eq!(Kind::from_raw(6), Kind::KERNEL);
    assert_eq!(Kind::from_raw(42), Kind::OTHER(42));
}

#[test]
fn region_lookup_by_index() {
    let m = map();
    assert_eq!(pmr::len(&m), 4);
    assert_eq!(pmr::nth(&m, 2).unwrap().base, 0x10_0000);
    assert!(pmr::nth(&m, 4).is_none());
    let mut it = pmr::iter();
    let mut n = 0;
    while let Some(_) = it.next(&m) {
        n += 1;
    }
    assert_eq!(n, 4);
}

#[test]
fn ema_allocates_downwards_from_the_largest_usable_region() {
    let m = map();
    let mut e = EarlyMemAlloc::new(&m);
    assert_eq!((e.limit, e.bottom, e.top), (0x10_0000, 0x80_0000, 0x80_0000));
    assert_eq!(e.allocated_range(), (0, 0));
    let a = e.allocate(0x1800);
    assert_eq!(a, 0x80_0000 - 0x2000);
    assert_eq!(e.allocated_range(), (0x7f_e000, 0x80_0000));
    assert_eq!(ema::usage(&e), 2);
}

#[test]
fn ema_refuses_what_would_pass_the_limit() {
    let m = vec![Region { base: 0x10_0000, len: 0x2000, kind: Kind::USABLE }];
    let mut e = ema::init(&m);
    assert_eq!(ema::allocate(&mut e, 1).0, 0x10_1000);
    assert_eq!(ema::allocate(&mut e, 1).0, 0x10_0000);
    assert_eq!(ema::allocate(&mut e, 1).0, 0);
    assert_eq!(ema::get_allocated_range(&e), (0x10_0000, 0x10_2000));
}

#[test]
fn direct_map_covers_mapped_kinds_only() {
    let m = map();
    let k = kdm::init(0xffff_8000_0000_0000, &m);
    assert_eq!(k.region_count(), 3);
    assert!(k.is_mapped(0x10_0000));
    assert!(k.is_mapped(0x9_f800));
    assert!(!k.is_mapped(0xfee0_0000));
    assert!(k.is_range_mapped(0x10_0000, 0x70_0000));
    assert!(!k.is_range_mapped(0x10_0000, 0x70_0001));
    assert_eq!(Paddr(0x10_0000).try_to_virt(&k).unwrap().0, 0xffff_8000_0010_0000);
    assert!(Paddr(0xfee0_0000).try_to_virt(&k).is_none());
}

#[test]
fn addresses_convert_through_the_offset() {
    let h = 0xffff_8000_0000_0000usize;
    let v = Paddr::from_raw(0x1234).to_virt(h);
    assert_eq!(v.to_raw(), h + 0x1234);
    assert_eq!(v.to_phys(h).to_raw(), 0x1234);
    assert!(v.is_in_hhdm(h));
    assert!(!Vaddr::from_raw(0x1000).is_in_hhdm(h));
}

#[test]
fn device_result_and_status() {
    assert_eq!(DeviceResult::ok(7).as_result(), Ok(7));
    assert_eq!(DeviceResult::err(DeviceStatus::BUSY).as_result(), Err(DeviceStatus::BUSY));
    let r = DeviceResult::from_result(Err(DeviceStatus::IO_ERROR));
    assert_eq!(r.status, DeviceStatus::IO_ERROR);
}

#[test]
fn device_id_packs_index_and_generation() {
    let id = DeviceId::new(5, 3);
    assert_eq!(id.index(), 5);
    assert_eq!(id.generation(), 3);
    assert!(DeviceId(0).is_null());
    assert!(!id.is_null());
}

#[test]
fn registry_registers_and_forgets_devices() {
    let mut reg: Registry = dev::init();
    let mut d = Device::new("uart");
    d.add_method(1, 0x1000);
    let id = dev::register_device(&mut reg, d).unwrap();
    assert_eq!(reg.get_device(id).unwrap().name, "uart");
    assert!(dev::set_driver_data(&mut reg, id, 99));
    assert_eq!(dev::get_driver_data(&reg, id), Some(99));
    assert_eq!(dev::call_method(&reg, id, 1).ok(), Some(0x1000));
    assert!(dev::call_method(&reg, id, 2).is_err());
    assert!(dev::unregister_device(&mut reg, id));
    assert!(reg.get_device(id).is_none());
    assert!(!dev::unregister_device(&mut reg, id));
    assert!(dev::call_method(&reg, id, 1).is_err());
}

#[test]
fn a_slot_hands_out_a_new_identifier_after_unregistering() {
    let mut reg: Registry = dev::init();
    let first = dev::register_device(&mut reg, Device::new("a")).unwrap();
    assert!(dev::unregister_device(&mut reg, first));
    let second = dev::register_device(&mut reg, Device::new("b")).unwrap();
    assert_eq!(second.index(), first.index());
    assert_ne!(second, first);
    assert!(reg.get_device(first).is_none());
    assert_eq!(reg.get_device(second).unwrap().name, "b");
}
