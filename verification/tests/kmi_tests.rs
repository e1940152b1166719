use nk::kmi::{SegmentCopy, LoadError, Module, Prepared, Protect, Span, PROT_RW, PROT_RW_NX};

fn push16(v: &mut Vec<u8>, x: u16) { v.extend_from_slice(&x.to_le_bytes()); }
fn push32(v: &mut Vec<u8>, x: u32) { v.extend_from_slice(&x.to_le_bytes()); }
fn push64(v: &mut Vec<u8>, x: u64) { v.extend_from_slice(&x.to_le_bytes()); }

/// A 64-bit little-endian image with the given loadable segments
/// (vaddr, filesz, memsz, flags) and entry point, and no sections.
fn image(segs: &[(u64, u64, u64, u32)], entry: u64) -> Vec<u8> {
    let mut v = vec![0x7f, b'E', b'L', b'F', 2, 1, 1, 0, 0, 0, 0, 0, 0, 0, 0, 0];
    push16(&mut v, 3);
    push16(&mut v, 0x3e);
    push32(&mut v, 1);
    push64(&mut v, entry);
    push64(&mut v, 64);
    push64(&mut v, 0);
    push32(&mut v, 0);
    push16(&mut v, 64);
    push16(&mut v, 56);
    push16(&mut v, segs.len() as u16);
    push16(&mut v, 64);
    push16(&mut v, 0);
    push16(&mut v, 0);
    for &(vaddr, filesz, memsz, flags) in segs {
        push32(&mut v, 1);
        push32(&mut v, flags);
        push64(&mut v, 0);
        push64(&mut v, vaddr);
        push64(&mut v, vaddr);
        push64(&mut v, filesz);
        push64(&mut v, memsz);
        push64(&mut v, 0x1000);
    }
    v
}

#[test]
fn garbage_does_not_parse() {
    match Module::prepare(&[1, 2, 3]) {
        Err(LoadError::Parse(m)) => assert!(!m.is_empty()),
        _ => panic!("expected a parse error"),
    }
}

#[test]
fn image_without_loadable_segment_is_refused() {
    let img = image(&[], 0);
    assert!(matches!(Module::prepare(&img), Err(LoadError::NoLoadSegments)));
}

#[test]
fn span_covers_the_loadable_segments() {
    let img = image(&[(0x1010, 0x20, 0x1800, 5), (0x4000, 0, 0x100, 6)], 0x1010);
    let p = Module::prepare(&img).unwrap();
    assert_eq!(p.span.min_vaddr, 0x1010);
    assert_eq!(p.span.max_vaddr, 0x4100);
    assert_eq!(p.span.aligned_min, 0x1000);
    assert_eq!(p.span.total_size, 0x4000);
    assert_eq!(p.total_pages(), 4);
    assert_eq!(p.e_entry, 0x1010);
}

#[test]
fn copies_relocations_protections_and_entry() {
    let img = image(&[(0x1010, 0x20, 0x1800, 5), (0x4000, 0, 0x100, 6)], 0x1010);
    let p = Module::prepare(&img).unwrap();
    let base = 0xffff_8000_0100_0000u64;
    assert_eq!(p.copies(base), vec![SegmentCopy { dst: base + 0x10, src: 0, len: 0x20 }]);
    assert!(p.relocations(base).is_empty());
    assert!(p.placement_fits(base));
    assert_eq!(p.protections(base), vec![
        Protect { start: base, size: 0x2000, flags: PROT_RW },
        Protect { start: base + 0x3000, size: 0x1000, flags: PROT_RW_NX },
    ]);
    assert_eq!(p.entry(base).unwrap(), base + 0x10);
    assert_eq!(p.symbol_value("_start"), None);
}

#[test]
fn entry_outside_the_image_is_refused() {
    let img = image(&[(0x1000, 0x20, 0x1000, 5)], 0x9000);
    let p = Module::prepare(&img).unwrap();
    assert!(matches!(p.entry(0x10_0000), Err(LoadError::EntryOutOfBounds)));
}

#[test]
fn segment_past_the_address_space_is_refused() {
    let img = image(&[(u64::MAX - 0x10, 0, 0x100, 5)], 0);
    assert!(matches!(Module::prepare(&img), Err(LoadError::Overflow)));
}

#[test]
fn module_addresses() {
    let m = Module::new(0x1000, 0x1010, String::from("m"), 0x100, vec![(Some(String::from("init")), 0x10)]);
    assert_eq!(m.symbols().len(), 1);
    assert_eq!(m.getaddr(m.symbols()[0].1), 0x1010);
    assert_eq!(m.getaddr(0x20), 0x1020);
    assert_eq!(m.dive(0x20), Some(0x1020));
    assert_eq!(Module::new(u64::MAX, 0, String::new(), 0, Vec::new()).dive(1), None);
}

#[test]
fn symbols_are_found_by_their_trimmed_names() {
    let p = Prepared {
        segments: Vec::new(),
        sections: Vec::new(),
        symbols: vec![
            (Some(String::from("  init\t")), 0x10),
            (None, 0x20),
            (Some(String::from("main")), 0x30),
            (Some(String::from("\u{3000}main ")), 0x40),
        ],
        e_entry: 0,
        span: Span { min_vaddr: 0, max_vaddr: 0, aligned_min: 0, total_size: 0 },
    };
    assert_eq!(p.symbol_value("init"), Some(0x10));
    assert_eq!(p.symbol_value("main"), Some(0x40));
    assert_eq!(p.symbol_value("ini"), None);
}
