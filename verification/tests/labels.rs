use openvm_profiler::symbols::{check_ranges, demangle, pick_label, text_functions, ElfSymbol, SymbolKind};

fn sym(address: u64, size: u64, kind: SymbolKind, name: Option<&str>) -> ElfSymbol {
    ElfSymbol { address, size, kind, name: name.map(|n| n.to_string()) }
}

#[test]
fn demangles_legacy_rust_symbols_without_hash() {
    assert_eq!(demangle("_ZN3foo3bar17h05af221e174051e9E"), "foo::bar");
}

#[test]
fn demangles_v0_rust_symbols() {
    assert_eq!(demangle("_RNvCs1234_7mycrate4main"), "mycrate::main");
}

#[test]
fn demangles_cpp_symbols() {
    assert_eq!(demangle("_ZN5space3fooEibc"), "space::foo(int, bool, char)");
    assert_eq!(demangle("_Z3dotii"), "dot(int, int)");
}

#[test]
fn keeps_plain_names() {
    assert_eq!(demangle("main"), "main");
    assert_eq!(demangle("memcpy"), "memcpy");
    assert_eq!(demangle(""), "");
}

#[test]
fn pick_label_prefers_rust_then_cpp_then_the_name() {
    assert_eq!(pick_label("n", Some("r".to_string()), Some("c".to_string())), "r");
    assert_eq!(pick_label("n", None, Some("c".to_string())), "c");
    assert_eq!(pick_label("n", None, None), "n");
}

#[test]
fn text_functions_keep_sized_code_symbols_in_order() {
    let syms = vec![
        sym(0x300, 0x10, SymbolKind::Text, Some("second")),
        sym(0x100, 0x20, SymbolKind::Data, Some("data")),
        sym(0x200, 0, SymbolKind::Text, Some("empty")),
        sym(0x100, 0x8, SymbolKind::Text, None),
        sym(0x400, 0x4, SymbolKind::Label, Some("label")),
    ];
    assert!(check_ranges(&syms));
    let funcs = text_functions(&syms);
    assert_eq!(funcs.len(), 2);
    assert_eq!((funcs[0].start, funcs[0].end, funcs[0].label.as_str()), (0x300, 0x310, "second"));
    assert_eq!((funcs[1].start, funcs[1].end, funcs[1].label.as_str()), (0x100, 0x108, "??"));
}

#[test]
fn ranges_must_fit_only_for_profiled_symbols() {
    let wrap = vec![sym(u64::MAX, 1, SymbolKind::Text, Some("w"))];
    assert!(!check_ranges(&wrap));
    let data = vec![sym(u64::MAX, 1, SymbolKind::Data, Some("d"))];
    assert!(check_ranges(&data));
    let edge = vec![sym(u64::MAX - 1, 1, SymbolKind::Text, Some("e"))];
    assert!(check_ranges(&edge));
}
