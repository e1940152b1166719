use nk::kst::{version_compatible, KernelSymbols, LinkStep, ModSymbol};

fn table() -> KernelSymbols {
    let mut k = KernelSymbols::new();
    k.insert("KeLog".to_string(), ModSymbol { addr: 0x1000, vmaj: 1, vmin: 2 });
    k.insert("KeExit".to_string(), ModSymbol { addr: 0x2000, vmaj: 1, vmin: 0 });
    k
}

#[test]
fn imports_find_the_kernel_symbol() {
    let k = table();
    assert_eq!(k.link_step("KiKeLog"), LinkStep::Import(ModSymbol { addr: 0x1000, vmaj: 1, vmin: 2 }));
    assert_eq!(k.link_step("KiKeSleep"), LinkStep::RefuseUnknownKernelImport);
    assert_eq!(k.link_step("KiOther"), LinkStep::Skip);
    assert_eq!(k.link_step("KiKe"), LinkStep::Skip);
}

#[test]
fn kernel_names_and_modular_imports_are_refused() {
    let k = table();
    assert_eq!(k.link_step("KeLog"), LinkStep::RefuseKernelName);
    assert_eq!(k.link_step("MiThing"), LinkStep::RefuseModularImport);
    assert_eq!(k.link_step("MeThing"), LinkStep::Export);
    assert_eq!(k.link_step("main"), LinkStep::Skip);
    assert_eq!(k.link_step("K"), LinkStep::Skip);
    assert_eq!(k.link_step(""), LinkStep::Skip);
}

#[test]
fn exports_enter_the_table() {
    let mut k = table();
    assert_eq!(k.get("MeThing"), None);
    k.insert("MeThing".to_string(), ModSymbol { addr: 0x3000, vmaj: 2, vmin: 1 });
    assert_eq!(k.get("MeThing"), Some(ModSymbol { addr: 0x3000, vmaj: 2, vmin: 1 }));
    k.insert("MeThing".to_string(), ModSymbol { addr: 0x4000, vmaj: 2, vmin: 1 });
    assert_eq!(k.get("MeThing").unwrap().addr, 0x4000);
}

#[test]
fn versions_must_agree_on_major_and_cover_minor() {
    let s = ModSymbol { addr: 0, vmaj: 1, vmin: 2 };
    assert!(version_compatible(s, 1, 2));
    assert!(version_compatible(s, 1, 0));
    assert!(!version_compatible(s, 1, 3));
    assert!(!version_compatible(s, 2, 0));
}
